//! Seed alphabets: the ordered collections of symbols that populate a fresh
//! dictionary with its single-symbol entries.

use vstd::prelude::*;
use crate::lzw_dict::Token;
use crate::lzw_token;
use crate::trie::TrieKey;

verus! {

/// The errors of alphabet generation.
#[derive(Debug)]
pub enum AlphabetError {
    Generate(String),
}

/// A payload type that can enumerate its seed alphabet as tokens.
pub trait Alphabetable<T: TrieKey>: Sized {
    /// The alphabet this type generates, in order.
    spec fn spec_alphabet() -> Seq<Token<T>>;

    /// Whether generation succeeds for this type.
    spec fn generate_ok() -> bool;

    /// Enumerates the seed alphabet.
    fn generate() -> (r: Result<Vec<Token<T>>, AlphabetError>)
        ensures
            Self::generate_ok() ==> (r matches Ok(v) && v@ == Self::spec_alphabet()),
            !Self::generate_ok() ==> (r matches Err(_)),
    ;
}

impl Alphabetable<char> for char {
    /// The 95 printable ASCII characters, from space to tilde.
    open spec fn spec_alphabet() -> Seq<Token<char>> {
        Seq::new(95, |i: int| Token::Value(((0x20 + i) as u8) as char))
    }

    open spec fn generate_ok() -> bool {
        true
    }

    fn generate() -> (r: Result<Vec<Token<char>>, AlphabetError>)
        ensures
            Self::generate_ok() ==> (r matches Ok(v) && v@ == Self::spec_alphabet()),
            !Self::generate_ok() ==> (r matches Err(_)),
    {
        let mut v: Vec<Token<char>> = Vec::new();
        let mut b: u8 = 0x20;
        while b < 0x7f
            invariant
                0x20 <= b <= 0x7f,
                v@.len() == b - 0x20,
                forall|i: int|
                    0 <= i < v@.len() ==> v@[i] == Token::Value::<char>(((0x20 + i) as u8) as char),
            decreases 0x7f - b,
        {
            v.push(Token::Value(b as char));
            proof {
                assert(((0x20 + (b - 0x20)) as u8) as char == b as char);
            }
            b = b + 1;
        }
        proof {
            assert(v@ =~= Self::spec_alphabet());
        }
        Ok(v)
    }
}

impl Alphabetable<i32> for i32 {
    /// The ten decimal digits, as numbers 0 through 9.
    open spec fn spec_alphabet() -> Seq<Token<i32>> {
        Seq::new(10, |i: int| Token::Value(i as i32))
    }

    open spec fn generate_ok() -> bool {
        true
    }

    fn generate() -> (r: Result<Vec<Token<i32>>, AlphabetError>)
        ensures
            Self::generate_ok() ==> (r matches Ok(v) && v@ == Self::spec_alphabet()),
            !Self::generate_ok() ==> (r matches Err(_)),
    {
        let mut v: Vec<Token<i32>> = Vec::new();
        let mut d: i32 = 0;
        while d < 10
            invariant
                0 <= d <= 10,
                v@.len() == d,
                forall|i: int| 0 <= i < v@.len() ==> v@[i] == Token::Value::<i32>(i as i32),
            decreases 10 - d,
        {
            v.push(Token::Value(d));
            d = d + 1;
        }
        proof {
            assert(v@ =~= Self::spec_alphabet());
        }
        Ok(v)
    }
}

/// The printable ASCII alphabet as dictionary tokens with control slots,
/// ready to seed a `TrieDictionary`.
pub fn generate_ascii() -> (r: Vec<lzw_token::Token<char>>)
    ensures
        r@.len() == 95,
        forall|i: int|
            0 <= i < 95 ==> r@[i] == (lzw_token::Token::<char> {
                value: Some(((0x20 + i) as u8) as char),
                control_token: None,
            }),
{
    let mut v: Vec<lzw_token::Token<char>> = Vec::new();
    let mut b: u8 = 0x20;
    while b < 0x7f
        invariant
            0x20 <= b <= 0x7f,
            v@.len() == b - 0x20,
            forall|i: int|
                0 <= i < v@.len() ==> v@[i] == (lzw_token::Token::<char> {
                    value: Some(((0x20 + i) as u8) as char),
                    control_token: None,
                }),
        decreases 0x7f - b,
    {
        v.push(lzw_token::Token::new(b as char));
        proof {
            assert(((0x20 + (b - 0x20)) as u8) as char == b as char);
        }
        b = b + 1;
    }
    v
}

} // verus!
