//! The octal encoding of a text: each character as a numeral of three octal digits.

use vstd::prelude::*;
use crate::error::CipherError;
use crate::radix::{decode, decoded, encode, encoded};

verus! {

/// The octal encoding.
pub struct OctalCipher;

impl OctalCipher {
    /// Reads `ciphertext` as octal numerals separated by white space and returns the
    /// characters whose code points they spell; see [`decoded`].
    pub fn decrypt(ciphertext: &str) -> (r: Result<String, CipherError>)
        ensures
            match decoded(ciphertext@, 8) {
                Some(out) => r is Ok && r->Ok_0@ == out,
                None => r is Err && r->Err_0 == CipherError::InvalidArgument,
            },
    {
        decode(ciphertext, 8)
    }

    /// Writes each character of `plaintext` as three octal digits, with a space
    /// between two characters; see [`encoded`].
    pub fn encrypt(plaintext: &str) -> (out: String)
        ensures
            out@ == encoded(plaintext@, 8),
    {
        encode(plaintext, 8)
    }
}

} // verus!
