use lzw_trie::alphabets::{Alphabetable, AlphabetError};
use lzw_trie::trie::TrieError;
use lzw_trie::compress::{compress, create_initial_entries, LzwError};
use lzw_trie::lzw_code::{ArgAlphabet, Code, CodeGenerator, LzwSpec};
use lzw_trie::lzw_dict::Token;

fn spec_with_width(width: u8, clear_code: bool, end_code: bool) -> LzwSpec {
    LzwSpec {
        alphabet: ArgAlphabet::Ascii,
        variable_width: false,
        width,
        min_width: width,
        max_width: width,
        end_code,
        clear_code,
        pack_msb_first: true,
        early_change: false,
    }
}

// A code carries its number and the width it was allocated at.
#[test]
fn code_accessors() {
    let c = Code::new(5, 12);
    assert_eq!(c.get_code(), 5);
    assert_eq!(c.get_used_bits(), 12);
    // equality goes by the number alone
    assert_eq!(Code::new(5, 12), Code::new(5, 3));
    assert!(Code::new(5, 12) != Code::new(6, 12));
}

// Code exhaustion: a width-3 allocator hands out exactly the 8 codes 0..=7,
// then reports exhaustion on every further call.
#[test]
fn code_exhaustion_width_3() {
    let mut gen = CodeGenerator::new(spec_with_width(3, false, false));
    for expected in 0..8u32 {
        let c = gen.get_next_code().expect("code expected below the bound");
        assert_eq!(c.get_code(), expected);
        assert_eq!(c.get_used_bits(), 3);
    }
    assert!(gen.get_next_code().is_none());
    assert!(gen.get_next_code().is_none());
}

// The char alphabet is the 95 printable ASCII characters in order.
#[test]
fn char_alphabet_is_printable_ascii() {
    let alpha = <char as Alphabetable<char>>::generate().unwrap();
    assert_eq!(alpha.len(), 95);
    assert_eq!(alpha[0], Token::Value(' '));
    assert_eq!(alpha[26], Token::Value(':'));
    assert_eq!(alpha[94], Token::Value('~'));
}

// The i32 alphabet is the ten decimal digits.
#[test]
fn i32_alphabet_is_digits() {
    let alpha = <i32 as Alphabetable<i32>>::generate().unwrap();
    assert_eq!(alpha.len(), 10);
    assert_eq!(alpha[0], Token::Value(0));
    assert_eq!(alpha[9], Token::Value(9));
}

// Seeding pairs each symbol with the next code, with the control entries at
// the end, and stops early when the allocator runs dry.
#[test]
fn initial_entries_sequential_codes() {
    let mut gen = CodeGenerator::new(spec_with_width(12, true, true));
    let tokens = vec![Token::Value('a'), Token::Value('b')];
    let entries = create_initial_entries(spec_with_width(12, true, true), tokens, &mut gen);
    assert_eq!(entries.len(), 4);
    assert_eq!(entries[0].0, Token::Value('a'));
    assert_eq!(entries[0].1.get_code(), 0);
    assert_eq!(entries[1].1.get_code(), 1);
    assert_eq!(entries[2].0, Token::Clear);
    assert_eq!(entries[2].1.get_code(), 2);
    assert_eq!(entries[3].0, Token::End);
    assert_eq!(entries[3].1.get_code(), 3);
    assert_eq!(gen.get_next_code().unwrap().get_code(), 4);

    // width 1 leaves room for two codes only: the seeding truncates.
    let mut small = CodeGenerator::new(spec_with_width(1, true, true));
    let tokens = vec![Token::Value('a'), Token::Value('b')];
    let entries = create_initial_entries(spec_with_width(1, true, true), tokens, &mut small);
    assert_eq!(entries.len(), 2);
    assert!(small.get_next_code().is_none());
}

// Compressing "tob" followed by the end marker over the printable alphabet:
// 't' and 'o' and 'b' emit their seed codes (offset from space), and the
// final round matches the end marker to the stream boundary.
#[test]
fn compress_small_input() {
    let mut input: Vec<Token<char>> = "tob".chars().map(Token::Value).collect();
    input.push(Token::End);
    let out = compress::<char>(spec_with_width(12, true, true), input).unwrap();
    let codes: Vec<u32> = out.iter().map(|c| c.get_code()).collect();
    assert_eq!(codes, vec![('t' as u32) - 0x20, ('o' as u32) - 0x20, ('b' as u32) - 0x20]);
}

// A repeated input re-uses the entries grown earlier in the same run.
#[test]
fn compress_reuses_entries() {
    let input: Vec<Token<char>> = "ababab".chars().map(Token::Value).collect();
    let out = compress::<char>(spec_with_width(12, false, false), input).unwrap();
    let codes: Vec<u32> = out.iter().map(|c| c.get_code()).collect();
    // 'a', 'b', then the fresh entry "ab" (code 95), leaving "ab" matched at
    // the boundary for the final round.
    let a = ('a' as u32) - 0x20;
    let b = ('b' as u32) - 0x20;
    assert_eq!(codes, vec![a, b, 95]);
}

// A symbol outside the alphabet ends the run after emitting nothing for it.
#[test]
fn compress_stops_on_unknown_symbol() {
    let input: Vec<Token<char>> = vec![Token::Value('\n')];
    let out = compress::<char>(spec_with_width(12, false, false), input).unwrap();
    assert_eq!(out.len(), 0);
}

// With a width too small for the stream's growth, the run reports that the
// code space was exhausted.
#[test]
fn compress_code_space_exhausted() {
    let mut gen_probe = CodeGenerator::new(spec_with_width(7, false, false));
    // the 95-symbol alphabet leaves 33 fresh codes at width 7
    for _ in 0..128 {
        let _ = gen_probe.get_next_code();
    }
    assert!(gen_probe.get_next_code().is_none());

    // 80 distinct two-symbol pairs need 80 fresh codes: more than 33.
    let mut text = String::new();
    for a in 0..9u8 {
        for b in 0..9u8 {
            text.push((b'a' + a) as char);
            text.push((b'a' + b) as char);
        }
    }
    let input: Vec<Token<char>> = text.chars().map(Token::Value).collect();
    let r = compress::<char>(spec_with_width(7, false, false), input);
    assert!(matches!(r, Err(LzwError::Compress(_))));
}

#[test]
fn from_error_constructors() {
    let e = LzwError::from_alphabet(AlphabetError::Generate("no alphabet".to_string()));
    assert!(matches!(e, LzwError::Alphabet(_)));
    let e = LzwError::from_trie(TrieError::Search("missing".to_string()));
    assert!(matches!(e, LzwError::Trie(_)));
    let e = LzwError::from_trie(TrieError::Insert("empty".to_string()));
    assert!(matches!(e, LzwError::Trie(_)));
    let e = LzwError::from_trie(TrieError::Lzw("exhausted".to_string()));
    assert!(matches!(e, LzwError::Trie(_)));
}
