//! The failures that the ciphers and searches of this crate report.

use vstd::prelude::*;

verus! {

/// Why an operation of this crate failed.
#[derive(Debug, Clone, Copy, PartialEq, Eq, Structural)]
pub enum CipherError {
    /// An alphabet specification has the wrong length, a repeated or a non-alphabetic symbol.
    InvalidAlphabet,
    /// A rotor, reflector, ring value or plugboard given to an Enigma machine is invalid.
    InvalidConfiguration,
    /// A keyed cipher met a letter that its alphabet does not hold.
    CharacterNotInAlphabet,
    /// No cipher family matches the text.
    UnrecognizedCipherType,
    /// An argument is outside the range that the operation accepts.
    InvalidArgument,
    /// A cipher was finalized without its key or without its alphabet.
    EmptyKeyOrAlphabet,
    /// A search reached its bound without an acceptable result.
    SearchExhausted,
    /// The text belongs to a family of ciphers that cannot be decrypted here.
    UnsupportedCipherType,
}

} // verus!
