//! An Enigma rotor machine: its alphabets, rotors, reflectors and the machine itself.

use vstd::prelude::*;
use crate::text::{chars_of, low_byte, low_byte_of};

pub mod alphabet;
pub mod cracker;
pub mod engine;
pub mod machine;
pub mod reflector;
pub mod rotor;
pub mod unchecked;

verus! {

/// How a machine treats the text that it is given.
#[derive(Clone, Copy, Debug)]
pub struct MachineOptions {
    /// Whether the casing of the input is given up; the output is in capitals either way.
    pub clear_casing: bool,
    /// Whether characters that are no letters are dropped instead of kept.
    pub clear_punctuation: bool,
    /// Whether the caller wants each stage of the substitution reported.
    pub debug: bool,
}

impl Default for MachineOptions {
    fn default() -> (options: Self)
        ensures
            !options.clear_casing,
            !options.clear_punctuation,
            !options.debug,
    {
        MachineOptions { clear_casing: false, clear_punctuation: false, debug: false }
    }
}

/// A character moved `amount` letters forward, wrapping round after `Z`, if the lowest
/// eight bits of its code point are the code of a capital letter; else the character itself.
pub open spec fn shifted_char(c: char, amount: u8) -> char {
    if 65 <= low_byte_of(c) <= 90 {
        (((low_byte_of(c) - 65 + amount) % 26) + 65) as char
    } else {
        c
    }
}

/// A text with each of its characters shifted by `amount`.
pub open spec fn shifted_text(text: Seq<char>, amount: u8) -> Seq<char> {
    Seq::new(text.len(), |i: int| shifted_char(text[i], amount))
}

/// Shifts every capital letter of `text` forward by `amount` places in the alphabet,
/// wrapping round after `Z`, and leaves the other characters as they are.
pub fn caeser_shift(text: &str, amount: u8) -> (shifted: String)
    requires
        amount <= 230,
    ensures
        shifted@ == shifted_text(text@, amount),
{
    let chars = chars_of(text);
    let mut shifted = String::new();
    let mut i: usize = 0;
    while i < chars.len()
        invariant
            i <= chars.len(),
            amount <= 230,
            chars@ == text@,
            shifted@ == shifted_text(text@.take(i as int), amount),
        decreases chars.len() - i,
    {
        let letter = chars[i];
        let code = low_byte(letter);
        let moved = if 65 <= code && code <= 90 {
            (((code - 65 + amount) % 26) + 65) as char
        } else {
            letter
        };
        shifted.push(moved);
        assert(shifted@ =~= shifted_text(text@.take(i + 1), amount));
        i += 1;
    }
    assert(text@.take(chars.len() as int) == text@);
    shifted
}

} // verus!
