//! Tokens that pair a payload alphabet with the closed set of control
//! symbols (`Clear`, `End`) that occupy dictionary slots of their own.

use vstd::prelude::*;
use crate::trie::TrieKey;

verus! {

/// A token usable as a dictionary symbol: a copyable value with a verified
/// equality test.
pub trait HashableToken: TrieKey {

}

impl<T: TrieKey> HashableToken for T {

}

/// The control symbols: they belong to no payload alphabet but receive
/// dictionary codes of their own.
#[derive(Eq, PartialEq, Structural, Hash, Copy, Clone, Debug)]
pub enum ControlToken {
    End,
    Clear,
}

/// One dictionary symbol: either a payload value or a control symbol.
#[derive(Eq, PartialEq, Hash, Copy, Clone, Debug)]
pub struct Token<T: HashableToken> {
    pub value: Option<T>,
    pub control_token: Option<ControlToken>,
}

impl<T: HashableToken> Token<T> {
    /// A token carrying the payload symbol `value`.
    pub fn new(value: T) -> (t: Token<T>)
        ensures
            t.value == Some(value),
            t.control_token is None,
    {
        Token { value: Some(value), control_token: None }
    }

    /// A token carrying the control symbol `control_token`.
    pub fn new_control(control_token: ControlToken) -> (t: Token<T>)
        ensures
            t.value is None,
            t.control_token == Some(control_token),
    {
        Token { value: None, control_token: Some(control_token) }
    }

    /// The payload symbol, if this token carries one.
    pub fn get_value(&self) -> (r: Option<T>)
        ensures
            r == self.value,
    {
        self.value
    }

    /// The control symbol, if this token carries one.
    pub fn get_control(self) -> (r: Option<ControlToken>)
        ensures
            r == self.control_token,
    {
        self.control_token
    }
}

impl<T: HashableToken> TrieKey for Token<T> {
    fn key_eq(&self, other: &Self) -> (r: bool)
        ensures
            r == (self == other),
    {
        let values_eq = match (&self.value, &other.value) {
            (None, None) => true,
            (Some(a), Some(b)) => a.key_eq(b),
            _ => false,
        };
        let controls_eq = match (self.control_token, other.control_token) {
            (None, None) => true,
            (Some(a), Some(b)) => a == b,
            _ => false,
        };
        values_eq && controls_eq
    }
}

} // verus!
