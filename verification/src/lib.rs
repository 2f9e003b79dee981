//! A mutable prefix trie with LZW-style dictionary semantics.
//!
//! The trie maps sequences of symbols to values and supports the dictionary
//! growth pattern of LZW compression: find the longest known prefix of a
//! stream, emit its value, and insert exactly one new entry extending that
//! prefix by one symbol. A sequential code allocator and a small token model
//! supply the values and symbols used by the dictionary.

pub mod alphabets;
pub mod compress;
pub mod dictionary;
pub mod lzw_code;
pub mod lzw_dict;
pub mod lzw_token;
pub mod trie;
