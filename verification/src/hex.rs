//! The hexadecimal encoding of a text: each character as a numeral of three
//! hexadecimal digits.

use vstd::prelude::*;
use crate::error::CipherError;
use crate::radix::{decode, decoded, encode, encoded};

verus! {

/// The hexadecimal encoding.
pub struct HexCipher;

impl HexCipher {
    /// Reads `ciphertext` as hexadecimal numerals separated by white space and returns
    /// the characters whose code points they spell; see [`decoded`].
    pub fn decrypt(ciphertext: &str) -> (r: Result<String, CipherError>)
        ensures
            match decoded(ciphertext@, 16) {
                Some(out) => r is Ok && r->Ok_0@ == out,
                None => r is Err && r->Err_0 == CipherError::InvalidArgument,
            },
    {
        decode(ciphertext, 16)
    }

    /// Writes each character of `plaintext` as three hexadecimal digits in small
    /// letters, with a space between two characters; see [`encoded`].
    pub fn encrypt(plaintext: &str) -> (out: String)
        ensures
            out@ == encoded(plaintext@, 16),
    {
        encode(plaintext, 16)
    }
}

} // verus!
