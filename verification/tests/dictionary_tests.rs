use lzw_trie::alphabets::generate_ascii;
use lzw_trie::dictionary::TrieDictionary;
use lzw_trie::lzw_code::{ArgAlphabet, CodeGenerator, LzwSpec};
use lzw_trie::lzw_token::{ControlToken, Token};

fn ascii_spec() -> LzwSpec {
    LzwSpec {
        alphabet: ArgAlphabet::Ascii,
        variable_width: false,
        width: 12,
        min_width: 12,
        max_width: 12,
        end_code: true,
        clear_code: true,
        pack_msb_first: true,
        early_change: false,
    }
}

#[test]
fn search_initial_dict() {
    let alphabet = generate_ascii();
    let alpha_len = alphabet.len();
    let mut code_gen = CodeGenerator::new(ascii_spec());
    let dict = TrieDictionary::new(ascii_spec(), &mut code_gen, alphabet);

    let mut ver_code_gen = CodeGenerator::new(ascii_spec());
    let mut other_alphabet = generate_ascii();
    other_alphabet.reverse();
    for _ in 0..alpha_len {
        let a_token = other_alphabet.pop().unwrap();
        match dict._search(&[a_token]) {
            None => panic!("Expected entry not in dict"),
            Some(code_result) => assert_eq!(ver_code_gen.get_next_code().unwrap(), code_result),
        }
    }
    match dict._search(&[Token::new_control(ControlToken::Clear)]) {
        None => panic!("Expected Clear CODE not in dict"),
        Some(code_result) => assert_eq!(ver_code_gen.get_next_code().unwrap(), code_result),
    }
    match dict._search(&[Token::new_control(ControlToken::End)]) {
        None => panic!("Expected End CODE not in dict"),
        Some(code_result) => assert_eq!(ver_code_gen.get_next_code().unwrap(), code_result),
    }
}

#[test]
fn insert_test() {
    let alphabet = generate_ascii();
    let mut code_gen = CodeGenerator::new(ascii_spec());
    let mut dict = TrieDictionary::new(ascii_spec(), &mut code_gen, alphabet);

    let tok_seq = &[Token::new('A'), Token::new('B')];
    let expected_code = code_gen.get_next_code().unwrap();
    dict._insert(tok_seq, expected_code);
    match dict._search(tok_seq) {
        None => panic!("Expected End CODE not in dict"),
        Some(code_result) => assert_eq!(expected_code, code_result),
    }
}

// Re-inserting an existing sequence overwrites its code: the latest value
// wins, and only it is retrievable afterwards.
#[test]
fn insert_already_present() {
    let alphabet = generate_ascii();
    let mut code_gen = CodeGenerator::new(ascii_spec());
    let mut dict = TrieDictionary::new(ascii_spec(), &mut code_gen, alphabet);

    let tok_seq = &[Token::new('A'), Token::new('B')];
    let first_code = code_gen.get_next_code().unwrap();
    dict._insert(tok_seq, first_code);

    let second_code = code_gen.get_next_code().unwrap();
    dict._insert(tok_seq, second_code);

    match dict._search(tok_seq) {
        None => panic!("Expected End CODE not in dict"),
        Some(code_result) => assert_eq!(second_code, code_result),
    }
}

// Nodes created on the way to a new entry hold no code: only the exact
// sequence receives one.
#[test]
fn insert_intermediates_hold_no_code() {
    let alphabet = generate_ascii();
    let mut code_gen = CodeGenerator::new(ascii_spec());
    let mut dict = TrieDictionary::new(ascii_spec(), &mut code_gen, alphabet);

    let tok_seq = &[Token::new('A'), Token::new('B'), Token::new('C')];
    let code = code_gen.get_next_code().unwrap();
    dict._insert(tok_seq, code);

    let ab = dict
        .root
        .get_child(&Token::new('A'))
        .unwrap()
        .get_child(&Token::new('B'))
        .unwrap();
    assert_eq!(ab.value, None);
    assert!(dict._search(&[Token::new('A'), Token::new('B')]).is_none());
    assert_eq!(dict._search(tok_seq).unwrap(), code);
}

// A sequence whose path is absent reports no code at all.
#[test]
fn search_absent_sequence() {
    let alphabet = generate_ascii();
    let mut code_gen = CodeGenerator::new(ascii_spec());
    let dict = TrieDictionary::new(ascii_spec(), &mut code_gen, alphabet);

    let tok_seq = &[Token::new('A'), Token::new('B')];
    assert!(dict._search(tok_seq).is_none());
}

// The extension loop over "ababa": each round emits silently and inserts one
// entry one symbol past the longest known prefix. With 95 alphabet entries
// and two control entries, fresh codes start at 97.
#[test]
fn run_encrypt_grows_dictionary() {
    let alphabet = generate_ascii();
    let mut code_gen = CodeGenerator::new(ascii_spec());
    let mut dict = TrieDictionary::new(ascii_spec(), &mut code_gen, alphabet);

    let tokens: Vec<Token<char>> = "ababa".chars().map(Token::new).collect();
    dict.run_encrypt(&tokens, &mut code_gen).unwrap();

    let ab = &[Token::new('a'), Token::new('b')];
    assert_eq!(dict._search(ab).unwrap().get_code(), 97);
    let ba = &[Token::new('b'), Token::new('a')];
    assert_eq!(dict._search(ba).unwrap().get_code(), 98);
    let aba = &[Token::new('a'), Token::new('b'), Token::new('a')];
    assert_eq!(dict._search(aba).unwrap().get_code(), 99);
    // 'a' keeps its seed code: it is the 65th printable character (0x61 - 0x20).
    let a = &[Token::new('a')];
    assert_eq!(dict._search(a).unwrap().get_code(), 0x61 - 0x20);
    // exactly three fresh codes were used
    assert_eq!(code_gen.get_next_code().unwrap().get_code(), 100);
}
