use lzw_trie::lzw_dict::{KeyCursor, Token, ValueCursor};
use lzw_trie::trie::TrieNode;

#[test]
fn test_lzw_insert() {
    // make root and populate with 5 lower case dictionary
    let mut root: TrieNode<char, usize> = TrieNode::new(None, None);
    for (i, c) in "abcde".chars().enumerate() {
        root.insert(&[c], i).unwrap();
    }

    let mut key_sequence = KeyCursor::new("ababc".chars().collect());
    let mut val_sequence = ValueCursor::new(vec![99, 100, 101]);

    // Insert sequence "ab" and receive the code for sequence "a"
    let Ok(Some(val)) = root.lzw_insert(&mut key_sequence, &mut val_sequence) else {
        panic!("expected to receive a value from lzw_insert");
    };
    assert_eq!(val, 0);

    // Insert the sequence "ba" and receive the code for sequence "b"
    let Ok(Some(val)) = root.lzw_insert(&mut key_sequence, &mut val_sequence) else {
        panic!("expected to receive a value from lzw_insert");
    };
    assert_eq!(val, 1);

    // Insert the sequence "abc" and receive the code for sequence "ab"
    let Ok(Some(val)) = root.lzw_insert(&mut key_sequence, &mut val_sequence) else {
        panic!("expected to receive a value from lzw_insert");
    };
    assert_eq!(val, 99);

    // Assert that the cursor still holds "c" - ready for the next insert
    let Some(c) = key_sequence.next() else {
        panic!();
    };
    assert_eq!(c, 'c');

    // Use search method to find the value in second inserted sequence
    let Ok(Some(val)) = root.search(&['b', 'a']) else {
        panic!("expected to receive a value from lzw_insert");
    };
    assert_eq!(val, 100);

    // Use search method to find the value in second inserted sequence
    let Ok(Some(val)) = root.search(&['a', 'b', 'c']) else {
        panic!("expected to receive a value from lzw_insert");
    };
    assert_eq!(val, 101);
}

#[test]
fn test_lzw_insert_iter() {
    // make root and populate with 5 lower case dictionary
    let mut root: TrieNode<char, usize> = TrieNode::new(None, None);
    for (i, c) in "abcde".chars().enumerate() {
        root.insert(&[c], i).unwrap();
    }

    let mut key_sequence = KeyCursor::new("ababc".chars().collect());

    // Insert sequence "ab" and receive the code for sequence "a"
    let Ok(Some(val)) = TrieNode::lzw_insert_iter(&mut root, &mut key_sequence, 99) else {
        panic!("expected to receive a value from lzw_insert");
    };
    assert_eq!(val, 0);

    // Insert sequence "ba" and receive the code for sequence "b"
    let Ok(Some(val)) = TrieNode::lzw_insert_iter(&mut root, &mut key_sequence, 100) else {
        panic!("expected to receive a value from lzw_insert");
    };
    assert_eq!(val, 1);

    // Insert the remaining sequence "abc" and receive the code for sequence "ab"
    let Ok(Some(val)) = TrieNode::lzw_insert_iter(&mut root, &mut key_sequence, 101) else {
        panic!("expected to receive a value from lzw_insert");
    };
    assert_eq!(val, 99);

    // Assert that the cursor still holds "c" - ready for the next insert
    let Some(c) = key_sequence.next() else {
        panic!();
    };
    assert_eq!(c, 'c');

    // Use search method to find the value in second inserted sequence
    let Ok(Some(val)) = root.search(&['a', 'b', 'c']) else {
        panic!("expected to receive a value from lzw_insert");
    };
    assert_eq!(val, 101);
}

#[test]
fn test_token() {
    let mut root: TrieNode<Token<char>, usize> = TrieNode::new(None, None);
    root.insert(&[Token::Value('a')], 0).unwrap();
    root.insert(&[Token::Value('b')], 1).unwrap();
    root.insert(&[Token::Value('c')], 2).unwrap();
    root.insert(&[Token::Value('d')], 3).unwrap();
    root.insert(&[Token::Value('e')], 4).unwrap();

    root.insert(&[Token::Clear], 5).unwrap();
    root.insert(&[Token::End], 6).unwrap();

    let mut key_sequence = KeyCursor::new(vec![
        Token::Value('a'),
        Token::Value('b'),
        Token::Value('a'),
        Token::Value('b'),
        Token::Value('c'),
    ]);
    let mut val_sequence = ValueCursor::new(vec![99, 100, 101]);

    // Insert sequence "ab"=99 and receive the code for sequence "a"
    let Ok(Some(val)) = root.lzw_insert(&mut key_sequence, &mut val_sequence) else {
        panic!("expected to receive a value from lzw_insert");
    };
    assert_eq!(val, 0);

    // Insert sequence "ba"=100 and receive the code for sequence "b"
    let Ok(Some(val)) = root.lzw_insert(&mut key_sequence, &mut val_sequence) else {
        panic!("expected to receive a value from lzw_insert");
    };
    assert_eq!(val, 1);

    // Insert the remaining sequence "abc"=101 and receive the code for sequence "ab"
    let Ok(Some(val)) = root.lzw_insert(&mut key_sequence, &mut val_sequence) else {
        panic!("expected to receive a value from lzw_insert");
    };
    assert_eq!(val, 99);

    let final_search_sequence = [Token::Value('a'), Token::Value('b'), Token::Value('c')];
    // Use search method to find the value in longest inserted sequence
    let Ok(Some(val)) = root.search(&final_search_sequence) else {
        panic!("expected to receive a value from lzw_insert");
    };
    assert_eq!(val, 101);
}

#[test]
fn test_wikipedia_input() {
    let to_insert = String::from("tobeornottobeortobeornot");
    let mut root: TrieNode<char, i32> = TrieNode::new(None, None);

    let alpha_codes: Vec<(char, i32)> = "abcdefghijklmnopqrstuvwxyz"
        .char_indices()
        .map(|(u, c)| (c, u as i32))
        .collect();

    root.populate_initial(&alpha_codes).unwrap();
    let mut char_iter = KeyCursor::new(to_insert.chars().collect());
    let mut codes = ValueCursor::new((26..60).collect());
    while let Ok(Some(_v)) = root.lzw_insert(&mut char_iter, &mut codes) {}

    let next_code = codes.next_value();
    // 0-40 used, 41 should be the next
    assert_eq!(next_code, 41);

    let trie_paths = [
        "be", "beo", "eo", "eor", "no", "ob", "or", "ort", "ot", "rn", "rno", "to", "tob", "tobe",
        "tt",
    ];
    let trie_vals = [28, 36, 29, 39, 32, 27, 30, 37, 33, 31, 40, 26, 35, 38, 34];
    assert_eq!(trie_paths.len(), trie_vals.len());

    for (path, exp_val) in trie_paths.iter().zip(trie_vals.iter()) {
        let path_chars: Vec<char> = path.chars().collect();
        let found_val = root.search(&path_chars).unwrap().unwrap();
        assert_eq!(found_val, *exp_val);
    }
}

// The cursor peeks without consuming and consumes in order.
#[test]
fn cursor_peek_and_next() {
    let mut cur = KeyCursor::new(vec!['x', 'y']);
    assert_eq!(cur.peek(), Some('x'));
    assert_eq!(cur.peek(), Some('x'));
    assert_eq!(cur.remaining_len(), 2);
    assert_eq!(cur.next(), Some('x'));
    assert_eq!(cur.next(), Some('y'));
    assert_eq!(cur.peek(), None);
    assert_eq!(cur.next(), None);
    assert_eq!(cur.remaining_len(), 0);
}

// A stream that runs out while everything still matches is an error, and the
// trie is left unchanged by the failed call.
#[test]
fn lzw_insert_exhausted_stream() {
    let mut root: TrieNode<char, usize> = TrieNode::new(None, None);
    root.insert(&['a'], 0).unwrap();
    root.insert(&['b'], 1).unwrap();

    let mut keys = KeyCursor::new(vec!['a']);
    let mut vals = ValueCursor::new(vec![7]);
    let r = root.lzw_insert(&mut keys, &mut vals);
    assert!(r.is_err());
    assert_eq!(root.children.len(), 2);
    assert!(root.get_child(&'a').unwrap().children.is_empty());

    // An empty stream errs at once.
    let mut empty = KeyCursor::new(vec![]);
    assert!(root.lzw_insert(&mut empty, &mut vals).is_err());
}
