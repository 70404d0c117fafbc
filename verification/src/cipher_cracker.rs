//! The unwrapping of layered encryption: a text is classified and decrypted, and what
//! comes out is classified and decrypted again until it reads as English.

use vstd::prelude::*;
use crate::alphabet::{capital_alphabet, Alphabet};
use crate::analysis::{index_of_coincidence, ioc_of};
use crate::base64::{decoded64, Base64};
use crate::cipher_type::{classified, lemma_ioc_small, CipherType};
use crate::dictionary::Dictionary;
use crate::error::CipherError;
use crate::gronsfeld_cracker::{cracked, search_key};
use crate::octal::OctalCipher;
use crate::one_time_pad::standard_letters;
use crate::radix::decoded;
use crate::score::{score_of, PossiblePlaintext};
use crate::text::{all_ascii, chars_of, upper_text};

verus! {

/// The score from which on a plaintext is taken for English: 0.8.
pub const ENGLISH_SCORE: u64 = 800_000_000;

/// Whether the index of coincidence of `s` is at least 0.04 and at most 0.05, as a
/// polyalphabetic substitution with a short key leaves it.
pub open spec fn flat_coincidence(s: Seq<char>) -> bool {
    4 * ioc_of(s).1 <= 100 * ioc_of(s).0 && 100 * ioc_of(s).0 <= 5 * ioc_of(s).1
}

/// What one layer of decryption makes of `text`, by its family: an octal or a Base64
/// text is decoded; a substitution whose index of coincidence is flat is taken for a
/// Gronsfeld cipher over the alphabet `a` and its key is searched for. Any other text
/// fails with `UnsupportedCipherType`, and a text that is not decoded with
/// `InvalidArgument`.
pub open spec fn peeled(list: Seq<Seq<char>>, a: Alphabet, text: Seq<char>) -> Result<Seq<char>, CipherError> {
    match classified(text) {
        CipherType::Octal => match decoded(text, 8) {
            Some(plain) => Ok(plain),
            None => Err(CipherError::InvalidArgument),
        },
        CipherType::Base64 => match decoded64(text) {
            Some(plain) => Ok(plain),
            None => Err(CipherError::InvalidArgument),
        },
        CipherType::Substitution => if flat_coincidence(text) {
            cracked(list, a, None, text)
        } else {
            Err(CipherError::UnsupportedCipherType)
        },
        _ => Err(CipherError::UnsupportedCipherType),
    }
}

/// The plaintext under at most `layers` layers of encryption. A text of more than
/// 2^32 - 1 characters fails with `InvalidArgument`. A layer is peeled off; what a
/// key search found is the plaintext; what was decoded must be ASCII, and is the
/// plaintext if its score is at least 0.8, else the text of the next layer. The
/// search fails with `SearchExhausted` where the layers do not suffice.
pub open spec fn unwrapped(list: Seq<Seq<char>>, a: Alphabet, text: Seq<char>, layers: nat) -> Result<
    Seq<char>,
    CipherError,
>
    decreases layers,
{
    if layers == 0 {
        Err(CipherError::SearchExhausted)
    } else if text.len() > u32::MAX {
        Err(CipherError::InvalidArgument)
    } else {
        match peeled(list, a, text) {
            Err(error) => Err(error),
            Ok(plain) => if classified(text) == CipherType::Substitution {
                Ok(plain)
            } else if !all_ascii(plain) {
                Err(CipherError::UnsupportedCipherType)
            } else if plain.len() > u32::MAX {
                Err(CipherError::InvalidArgument)
            } else if score_of(list, plain) >= 800_000_000 {
                Ok(plain)
            } else {
                unwrapped(list, a, plain, (layers - 1) as nat)
            },
        }
    }
}

/// A search for the plaintext of a text, with what is known of its cipher.
pub struct CipherCracker {
    key: Option<String>,
    alphabet: Option<Alphabet>,
}

impl CipherCracker {
    /// The key, if it is known.
    pub closed spec fn known_key(&self) -> Option<Seq<char>> {
        match self.key {
            Some(key) => Some(key@),
            None => None,
        }
    }

    /// The alphabet, if it is known.
    pub closed spec fn known_alphabet(&self) -> Option<Alphabet> {
        self.alphabet
    }

    /// A search that knows nothing of the cipher.
    pub fn new() -> (cracker: Self)
        ensures
            cracker.known_key() is None,
            cracker.known_alphabet() is None,
    {
        CipherCracker { key: None, alphabet: None }
    }

    /// This search, knowing the key.
    pub fn with_known_key(self, key: &str) -> (cracker: Self)
        ensures
            cracker.known_key() == Some(key@),
            cracker.known_alphabet() == self.known_alphabet(),
    {
        CipherCracker { key: Some(key.to_owned()), alphabet: self.alphabet }
    }

    /// This search, knowing the alphabet, which is put in capitals and must then be
    /// 26 capital letters, none of them twice.
    pub fn with_known_alphabet(self, alphabet: &str) -> (r: Result<Self, CipherError>)
        ensures
            !capital_alphabet(upper_text(alphabet@)) ==> r is Err && r->Err_0 == CipherError::InvalidAlphabet,
            capital_alphabet(upper_text(alphabet@)) ==> r is Ok && r->Ok_0.known_key() == self.known_key()
                && r->Ok_0.known_alphabet() is Some && r->Ok_0.known_alphabet()->Some_0.chars() == upper_text(
                alphabet@,
            ),
    {
        match Alphabet::caseless(alphabet) {
            Ok(made) => Ok(CipherCracker { key: self.key, alphabet: Some(made) }),
            Err(error) => Err(error),
        }
    }

    /// The plaintext of `ciphertext` under at most `max_layers` layers of encryption;
    /// see [`unwrapped`]. The key search works over the letters `A` to `Z`.
    pub fn crack(&self, ciphertext: &str, dictionary: &Dictionary, max_layers: usize) -> (r: Result<
        String,
        CipherError,
    >)
        ensures
            exists|a: Alphabet|
                a.chars() == standard_letters() && !a.is_cased() && (match #[trigger] unwrapped(
                    dictionary@,
                    a,
                    ciphertext@,
                    max_layers as nat,
                ) {
                    Ok(plain) => r is Ok && r->Ok_0@ == plain,
                    Err(error) => r is Err && r->Err_0 == error,
                }),
    {
        let alphabet = Alphabet::default();
        let r = unwrap(&alphabet, ciphertext, dictionary, max_layers);
        proof {
            assert(match unwrapped(dictionary@, alphabet, ciphertext@, max_layers as nat) {
                Ok(plain) => r is Ok && r->Ok_0@ == plain,
                Err(error) => r is Err && r->Err_0 == error,
            });
        }
        r
    }
}

/// What one layer of decryption makes of `text`.
fn peel(alphabet: &Alphabet, text: &str, dictionary: &Dictionary) -> (r: Result<(String, bool), CipherError>)
    requires
        alphabet.chars() == standard_letters(),
        !alphabet.is_cased(),
        text@.len() <= u32::MAX,
    ensures
        match peeled(dictionary@, *alphabet, text@) {
            Ok(plain) => r is Ok && r->Ok_0.0@ == plain && r->Ok_0.1 == (classified(text@)
                == CipherType::Substitution),
            Err(error) => r is Err && r->Err_0 == error,
        },
{
    match CipherType::best_match(text) {
        Some(CipherType::Octal) => match OctalCipher::decrypt(text) {
            Ok(plain) => Ok((plain, false)),
            Err(error) => Err(error),
        },
        Some(CipherType::Base64) => match Base64::decrypt(text) {
            Ok(plain) => Ok((plain, false)),
            Err(error) => Err(error),
        },
        Some(CipherType::Substitution) => {
            let ioc = index_of_coincidence(text);
            proof {
                lemma_ioc_small(text@);
            }
            if 4 * ioc.denominator <= 100 * ioc.numerator && 100 * ioc.numerator <= 5 * ioc.denominator {
                proof {
                    lemma_standard();
                }
                let found = search_key(alphabet, text, dictionary);
                match found {
                    Ok(plain) => Ok((plain, true)),
                    Err(error) => Err(error),
                }
            } else {
                Err(CipherError::UnsupportedCipherType)
            }
        },
        _ => Err(CipherError::UnsupportedCipherType),
    }
}

/// The letters `A` to `Z` spell the standard alphabet.
pub proof fn lemma_standard()
    ensures
        upper_text("ABCDEFGHIJKLMNOPQRSTUVWXYZ"@) == standard_letters(),
        capital_alphabet(standard_letters()),
{
    reveal_strlit("ABCDEFGHIJKLMNOPQRSTUVWXYZ");
    let s = "ABCDEFGHIJKLMNOPQRSTUVWXYZ"@;
    assert(all_ascii(s));
    assert(crate::text::ascii_upper_seq(s) =~= standard_letters());
}

/// The plaintext of `ciphertext` under at most `layers` layers of encryption.
fn unwrap(alphabet: &Alphabet, ciphertext: &str, dictionary: &Dictionary, layers: usize) -> (r: Result<
    String,
    CipherError,
>)
    requires
        alphabet.chars() == standard_letters(),
        !alphabet.is_cased(),
    ensures
        match unwrapped(dictionary@, *alphabet, ciphertext@, layers as nat) {
            Ok(plain) => r is Ok && r->Ok_0@ == plain,
            Err(error) => r is Err && r->Err_0 == error,
        },
{
    let mut text: String = ciphertext.to_owned();
    let mut left: usize = layers;
    let ghost goal = unwrapped(dictionary@, *alphabet, ciphertext@, layers as nat);
    while left > 0
        invariant
            alphabet.chars() == standard_letters(),
            !alphabet.is_cased(),
            goal == unwrapped(dictionary@, *alphabet, ciphertext@, layers as nat),
            goal == unwrapped(dictionary@, *alphabet, text@, left as nat),
        decreases left,
    {
        let chars = chars_of(text.as_str());
        if chars.len() > 0xffff_ffff {
            return Err(CipherError::InvalidArgument);
        }
        let (plain, final_layer) = match peel(alphabet, text.as_str(), dictionary) {
            Ok(made) => made,
            Err(error) => {
                return Err(error);
            },
        };
        if final_layer {
            return Ok(plain);
        }
        let made = chars_of(plain.as_str());
        if !only_ascii(&made) {
            return Err(CipherError::UnsupportedCipherType);
        }
        if made.len() > 0xffff_ffff {
            return Err(CipherError::InvalidArgument);
        }
        if PossiblePlaintext::new(plain.as_str()).score(dictionary) >= ENGLISH_SCORE {
            return Ok(plain);
        }
        text = plain;
        left -= 1;
    }
    Err(CipherError::SearchExhausted)
}

/// Whether every character lies in the ASCII range.
fn only_ascii(chars: &Vec<char>) -> (b: bool)
    ensures
        b == all_ascii(chars@),
{
    let mut i: usize = 0;
    while i < chars.len()
        invariant
            i <= chars.len(),
            forall|k: int| 0 <= k < i ==> (#[trigger] chars@[k] as u32) < 128,
        decreases chars.len() - i,
    {
        if chars[i] as u32 >= 128 {
            return false;
        }
        i += 1;
    }
    true
}

} // verus!
