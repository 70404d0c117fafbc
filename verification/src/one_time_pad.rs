//! The one-time pad: a Vigenère cipher under a random key as long as the text, which
//! is used once.

use rand::Rng;
use vstd::prelude::*;
use crate::alphabet::Alphabet;
use crate::error::CipherError;
use crate::text::{chars_of, is_upper};
use crate::vigenere::{keyed_text, run_keyed};

verus! {

/// A one-time pad, which encrypts a text under a key that nobody gets to see.
pub struct OneTimePad;

/// What decrypts the one text that a one-time pad encrypted: it holds the key, and
/// decrypting uses it up.
pub struct OneTimePadDecryptor {
    key: Vec<char>,
}

/// Calls `thread_rng` of rand and `gen_range` on what it returns, with the range
/// from `low` to `high`, both included. The result lies in that range; nothing else
/// is known of it. The range must not be empty.
#[verifier::external_body]
fn random_between(low: u8, high: u8) -> (r: u8)
    requires
        low <= high,
    ensures
        low <= r <= high,
{
    rand::thread_rng().gen_range(low..=high)
}

/// Whether every character of `key` is a capital letter.
pub open spec fn capitals(key: Seq<char>) -> bool {
    forall|i: int| 0 <= i < key.len() ==> is_upper(#[trigger] key[i])
}

/// The capital letters `A` to `Z`.
pub open spec fn standard_letters() -> Seq<char> {
    Seq::new(26, |i: int| (65 + i) as u8 as char)
}

impl OneTimePadDecryptor {
    #[verifier::type_invariant]
    spec fn valid(self) -> bool {
        self.key@.len() > 0
    }

    /// The key.
    pub closed spec fn key(&self) -> Seq<char> {
        self.key@
    }

    /// Decrypts `ciphertext` with the key, as the Vigenère cipher over the letters `A`
    /// to `Z` does. Fails where the text holds an alphabetic character that is no
    /// Latin letter.
    pub fn decrypt(self, ciphertext: &str) -> (r: Result<String, CipherError>)
        ensures
            exists|a: Alphabet|
                a.chars() == standard_letters() && !a.is_cased() && (match #[trigger] keyed_text(
                    a,
                    self.key(),
                    ciphertext@,
                    0,
                    true,
                ) {
                    Some(out) => r is Ok && r->Ok_0@ == out,
                    None => r is Err && r->Err_0 == CipherError::CharacterNotInAlphabet,
                }),
    {
        proof {
            use_type_invariant(&self);
        }
        let alphabet = Alphabet::default();
        let r = run_keyed(&alphabet, &self.key, ciphertext, true);
        proof {
            assert(match keyed_text(alphabet, self.key(), ciphertext@, 0, true) {
                Some(out) => r is Ok && r->Ok_0@ == out,
                None => r is Err && r->Err_0 == CipherError::CharacterNotInAlphabet,
            });
        }
        r
    }
}

impl OneTimePad {
    /// Encrypts `plaintext` under a random key of capital letters, one for each
    /// character of the text, as the Vigenère cipher over the letters `A` to `Z`
    /// does, and returns the ciphertext with what decrypts it. Fails with
    /// `EmptyKeyOrAlphabet` for the empty text, and with `CharacterNotInAlphabet`
    /// where the text holds an alphabetic character that is no Latin letter.
    pub fn encrypt(plaintext: &str) -> (r: Result<(String, OneTimePadDecryptor), CipherError>)
        ensures
            plaintext@.len() == 0 ==> r is Err && r->Err_0 == CipherError::EmptyKeyOrAlphabet,
            plaintext@.len() > 0 ==> exists|a: Alphabet, key: Seq<char>|
                a.chars() == standard_letters() && !a.is_cased() && capitals(key) && key.len()
                    == plaintext@.len() && (match #[trigger] keyed_text(a, key, plaintext@, 0, false) {
                    Some(out) => r is Ok && r->Ok_0.0@ == out && r->Ok_0.1.key() == key,
                    None => r is Err && r->Err_0 == CipherError::CharacterNotInAlphabet,
                }),
    {
        let chars = chars_of(plaintext);
        if chars.len() == 0 {
            return Err(CipherError::EmptyKeyOrAlphabet);
        }
        let mut key: Vec<char> = Vec::new();
        let mut i: usize = 0;
        while i < chars.len()
            invariant
                i <= chars.len(),
                key@.len() == i,
                capitals(key@),
            decreases chars.len() - i,
        {
            key.push(random_between(65, 90) as char);
            i += 1;
        }
        let alphabet = Alphabet::default();
        let made = run_keyed(&alphabet, &key, plaintext, false);
        let ghost used = key@;
        let r = match made {
            Ok(ciphertext) => Ok((ciphertext, OneTimePadDecryptor { key })),
            Err(error) => Err(error),
        };
        proof {
            assert(match keyed_text(alphabet, used, plaintext@, 0, false) {
                Some(out) => r is Ok && r->Ok_0.0@ == out && r->Ok_0.1.key() == used,
                None => r is Err && r->Err_0 == CipherError::CharacterNotInAlphabet,
            });
        }
        r
    }
}

} // verus!
