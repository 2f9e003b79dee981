use lzw_trie::trie::{TrieError, TrieNode};

#[test]
fn test_insert() {
    let mut root: TrieNode<char, &str> = TrieNode::new(None, None);

    // Insert what we were looking for
    root.insert(&['a'], "Hooray").expect("Error in root.insert");

    assert_eq!(root.get_child(&'a').expect("expected a node at 'a'").value, Some("Hooray"));

    root.insert(&['a', 'b', 'c'], "Deeper").expect("Error during insert");

    // First assert that an intermediate node with a key but no value was created
    let intermediate = root
        .get_child(&'a')
        .expect("expected a node at 'a'")
        .get_child(&'b')
        .expect("expected a node at 'b'");

    assert_eq!(intermediate.key, Some('b'));
    assert_eq!(intermediate.value, None);

    // Now assert that the leaf node has the correct key and value
    let leaf = intermediate.get_child(&'c').expect("expected a node at 'c'");

    assert_eq!(leaf.key, Some('c'));
    assert_eq!(leaf.value, Some("Deeper"));
}

#[test]
fn test_search() {
    let mut root: TrieNode<char, &str> = TrieNode::new(None, None);
    let target_str = "MockValue";
    root.add_child('a', Some(target_str));

    let searched_val = root.search(&['a']).expect("Error during search").unwrap();
    assert_eq!(searched_val, target_str);

    let target_str = "Deeper";
    root.insert(&['a', 'b', 'c'], target_str).expect("Error during insert");

    let searched_val = root.search(&['a', 'b']).expect("Error during search");
    assert_eq!(searched_val, None);

    let searched_val = root.search(&['a', 'b', 'c']).expect("Error during search").unwrap();
    assert_eq!(searched_val, target_str);
}

#[test]
fn test_insert_iter() {
    let mut root: TrieNode<char, &str> = TrieNode::new(None, None);

    // Insert what we were looking for
    TrieNode::insert_iter(&mut root, &['a'], "Hooray").expect("Error during insert_iter");

    assert_eq!(root.get_child(&'a').expect("expected a node at 'a'").value, Some("Hooray"));

    TrieNode::insert_iter(&mut root, &['a', 'b', 'c'], "Deeper").expect("Error during insert iter");

    // First assert that an intermediate node with a key but no value was created
    let intermediate = root
        .get_child(&'a')
        .expect("expected a node at 'a'")
        .get_child(&'b')
        .expect("expected a node at 'b'");

    assert_eq!(intermediate.key, Some('b'));
    assert_eq!(intermediate.value, None);

    // Now assert that the leaf node has the correct key and value
    let leaf = intermediate.get_child(&'c').expect("expected a node at 'c'");

    assert_eq!(leaf.key, Some('c'));
    assert_eq!(leaf.value, Some("Deeper"));
}

#[test]
fn test_search_iter() {
    let mut root: TrieNode<char, &str> = TrieNode::new(None, None);
    let target_str = "MockValue";
    root.add_child('a', Some(target_str));

    let searched_val = TrieNode::search_iter(&root, &['a'])
        .expect("Error during search")
        .unwrap();
    assert_eq!(searched_val, target_str);

    let target_str = "Deeper";
    root.insert(&['a', 'b', 'c'], target_str).expect("Error during insert");

    let searched_val = TrieNode::search_iter(&root, &['a', 'b']).expect("Error during search");
    assert_eq!(searched_val, None);

    let searched_val = TrieNode::search_iter(&root, &['a', 'b', 'c'])
        .expect("Error during search")
        .unwrap();
    assert_eq!(searched_val, target_str);
}

#[test]
fn test_populate_initial() {
    let alphabet = "abcdefghijklmnopqrstuvwxyz".chars();
    let codes = 0..26;
    let alpha_codes: Vec<(char, i32)> = alphabet.zip(codes).collect();
    let mut root: TrieNode<char, i32> = TrieNode::new(None, None);
    root.populate_initial(&alpha_codes).unwrap();

    let a = root.get_child(&'a').unwrap().value;
    assert_eq!(a, Some(0));

    let z = root.get_child(&'z').unwrap().value;
    assert_eq!(z, Some(25));
}

#[test]
fn test_new_tail_single() {
    let target_str = "TheStartAndEnd";
    let node = TrieNode::new_tail(&['a'], target_str);
    assert_eq!(node.key, Some('a'));
    assert_eq!(node.value, Some(target_str));

    assert!(node.children.is_empty());
}

#[test]
fn test_new_tail_multiple() {
    let target_str = "TheEnd";
    let node = TrieNode::new_tail(&['a', 'b', 'c'], target_str);
    assert_eq!(node.key, Some('a'));
    assert_eq!(node.value, None);

    let Some(node) = node.get_child(&'b') else {
        panic!("Expected intermediate node at 'b'");
    };
    assert_eq!(node.key, Some('b'));
    assert_eq!(node.value, None);

    let Some(node) = node.get_child(&'c') else {
        panic!("Expected leaf node at 'c'");
    };
    assert_eq!(node.key, Some('c'));
    assert_eq!(node.value, Some(target_str));
    assert!(node.children.is_empty());
}

// Round trip: inserting a sequence and searching it again yields the value.
#[test]
fn round_trip_insert_search() {
    let mut root: TrieNode<u32, u32> = TrieNode::new(None, None);
    root.insert(&[7, 8, 9], 42).unwrap();
    assert_eq!(root.search(&[7, 8, 9]).unwrap(), Some(42));
    root.insert(&[7], 1).unwrap();
    assert_eq!(root.search(&[7]).unwrap(), Some(1));
}

// Prefix distinction: a prefix created on the way to a longer entry is
// present without a value, while an untouched trie reports it absent.
#[test]
fn prefix_distinction() {
    let mut root: TrieNode<char, u32> = TrieNode::new(None, None);
    root.insert(&['a', 'b'], 5).unwrap();
    assert_eq!(root.search(&['a']).unwrap(), None);

    let fresh: TrieNode<char, u32> = TrieNode::new(None, None);
    assert!(matches!(fresh.search(&['a']), Err(TrieError::Search(_))));
}

// Overwrite idempotence: re-inserting a sequence keeps the trie's shape and
// only the newest value is retrievable.
#[test]
fn overwrite_idempotence() {
    let mut root: TrieNode<char, u32> = TrieNode::new(None, None);
    root.insert(&['x', 'y'], 1).unwrap();
    root.insert(&['x', 'y'], 2).unwrap();
    assert_eq!(root.search(&['x', 'y']).unwrap(), Some(2));

    let x = root.get_child(&'x').unwrap();
    assert_eq!(x.children.len(), 1);
    assert_eq!(root.children.len(), 1);
    let y = x.get_child(&'y').unwrap();
    assert!(y.children.is_empty());
}

// Empty-sequence rejection: inserting under the empty sequence fails and
// leaves the trie unchanged.
#[test]
fn empty_sequence_rejection() {
    let mut root: TrieNode<char, u32> = TrieNode::new(None, None);
    let r = root.insert(&[], 3);
    assert!(matches!(r, Err(TrieError::Insert(_))));
    assert!(root.children.is_empty());
    assert_eq!(root.value, None);

    root.insert(&['q'], 9).unwrap();
    let r = root.insert(&[], 3);
    assert!(matches!(r, Err(TrieError::Insert(_))));
    assert_eq!(root.search(&['q']).unwrap(), Some(9));
    assert_eq!(root.children.len(), 1);
}
