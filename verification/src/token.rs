//! Tokens that tell the events of a file descriptor from those of an earlier one with the same
//! number.

use vstd::prelude::*;

verus! {

/// A file descriptor, and the generation that it belongs to.
#[derive(Debug, Clone, Copy, PartialEq, Eq, Structural)]
pub struct Token {
    pub generation: u32,
    pub fd: u32,
}

/// The number that stands for a token: the generation above the descriptor.
pub open spec fn packed(token: Token) -> int {
    token.generation as int * 0x1_0000_0000 + token.fd as int
}

impl Token {
    /// The number that stands for the token.
    pub fn pack(self) -> (r: u64)
        ensures
            r == packed(self),
    {
        self.generation as u64 * 0x1_0000_0000 + self.fd as u64
    }

    /// The token that a number stands for.
    pub fn unpack(number: u64) -> (r: Token)
        ensures
            packed(r) == number,
    {
        Token {
            generation: (number / 0x1_0000_0000) as u32,
            fd: (number % 0x1_0000_0000) as u32,
        }
    }
}

/// The generation after the given one.
pub fn next_generation(generation: u32) -> (r: u32)
    ensures
        r == (generation + 1) % 0x1_0000_0000,
        r != generation,
{
    if generation == 0xffff_ffff {
        0
    } else {
        generation + 1
    }
}

/// No two tokens have the same number: an event can be told from one for an earlier descriptor
/// with the same number.
pub proof fn law_tokens_are_told_apart(a: Token, b: Token)
    ensures
        packed(a) == packed(b) <==> a == b,
        0 <= packed(a) <= u64::MAX,
{
}

} // verus!
