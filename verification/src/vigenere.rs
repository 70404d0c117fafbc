//! The Vigenère cipher: each letter is moved along the alphabet by the letter of a
//! repeating key.

use vstd::prelude::*;
use crate::alphabet::{capital_alphabet, Alphabet};
use crate::error::CipherError;
use crate::text::{
    alphabetic, ascii_lower, ascii_upper, chars_of, is_alphabetic, is_uppercase, string_of,
    to_lower_letter, to_upper_letter, upper_text, uppercase_letter,
};

verus! {

/// The letter that `c` becomes under the key letter `k`: the alphabet's letter as many
/// places after the place of `c` as the key letter is from the first, or before it
/// when decrypting, in capitals if `c` is upper case and in small letters if not.
/// Nothing where the alphabet lacks `c` or the key letter.
pub open spec fn keyed_letter(a: Alphabet, c: char, k: char, back: bool) -> Option<char> {
    match (a.place(c), a.place(k)) {
        (Some(p), Some(q)) => {
            let at = if back {
                (p - q + 26) % 26
            } else {
                (p + q - 2) % 26
            };
            if uppercase_letter(c) {
                Some(ascii_upper(a.chars()[at]))
            } else {
                Some(ascii_lower(a.chars()[at]))
            }
        },
        _ => None,
    }
}

/// `head` put before a text, where there is a text.
pub open spec fn after(head: Seq<char>, tail: Option<Seq<char>>) -> Option<Seq<char>> {
    match tail {
        Some(t) => Some(head + t),
        None => None,
    }
}

/// The text that `text` becomes under the key, of which `used` letters were used
/// already: each alphabetic character is replaced by its keyed letter and uses up one
/// letter of the key, which starts again when it ends; any other character stays.
/// Nothing where the alphabet lacks an alphabetic character of the text or the key
/// letter that falls to it.
pub open spec fn keyed_text(a: Alphabet, key: Seq<char>, text: Seq<char>, used: int, back: bool) -> Option<
    Seq<char>,
>
    decreases text.len(),
{
    if text.len() == 0 {
        Some(Seq::empty())
    } else if !alphabetic(text[0]) {
        after(seq![text[0]], keyed_text(a, key, text.drop_first(), used, back))
    } else {
        match keyed_letter(a, text[0], key[used % (key.len() as int)], back) {
            Some(letter) => after(seq![letter], keyed_text(a, key, text.drop_first(), used + 1, back)),
            None => None,
        }
    }
}

/// Runs `text` through the cipher with the given alphabet and key.
pub fn run_keyed(alphabet: &Alphabet, key: &Vec<char>, text: &str, back: bool) -> (r: Result<
    String,
    CipherError,
>)
    requires
        alphabet.wf(),
        key@.len() > 0,
    ensures
        match keyed_text(*alphabet, key@, text@, 0, back) {
            Some(out) => r is Ok && r->Ok_0@ == out,
            None => r is Err && r->Err_0 == CipherError::CharacterNotInAlphabet,
        },
{
    let chars = chars_of(text);
    let mut out: Vec<char> = Vec::new();
    let mut used: usize = 0;
    let mut i: usize = 0;
    let ghost whole = keyed_text(*alphabet, key@, text@, 0, back);
    assert(chars@.skip(0) == chars@);
    assert(after(out@, whole) == whole) by {
        if whole is Some {
            assert(out@ + whole->Some_0 =~= whole->Some_0);
        }
    }
    while i < chars.len()
        invariant
            i <= chars.len(),
            used <= i,
            used < key@.len(),
            alphabet.wf(),
            whole == keyed_text(*alphabet, key@, text@, 0, back),
            whole == after(out@, keyed_text(*alphabet, key@, chars@.skip(i as int), used as int, back)),
        decreases chars.len() - i,
    {
        let c = chars[i];
        let ghost rest = chars@.skip(i as int);
        let ghost before = out@;
        assert(rest.len() > 0 && rest[0] == c);
        assert(rest.drop_first() == chars@.skip(i + 1));
        if !is_alphabetic(c) {
            out.push(c);
            proof {
                let tail = keyed_text(*alphabet, key@, rest.drop_first(), used as int, back);
                if tail is Some {
                    assert(out@ + tail->Some_0 =~= before + (seq![c] + tail->Some_0));
                }
            }
        } else {
            let k = key[used];
            proof {
                let n = key@.len() as int;
                let u = used as int;
                assert(u % n == u) by (nonlinear_arith)
                    requires
                        0 <= u < n,
                ;
            }
            assert(k == key@[used as int % (key@.len() as int)]);
            let letter = match (alphabet.index_of(c), alphabet.index_of(k)) {
                (Some(p), Some(q)) => {
                    let at = if back {
                        p.sub_mod(q.get() - 1)
                    } else {
                        p.add_mod(q.get() - 1)
                    };
                    let found = *alphabet.letter_at(at);
                    if is_uppercase(c) {
                        to_upper_letter(found)
                    } else {
                        to_lower_letter(found)
                    }
                },
                _ => {
                    proof {
                        assert(keyed_letter(*alphabet, c, k, back) is None);
                        assert(keyed_text(*alphabet, key@, rest, used as int, back) is None);
                    }
                    return Err(CipherError::CharacterNotInAlphabet);
                },
            };
            assert(Some(letter) == keyed_letter(*alphabet, c, k, back));
            out.push(letter);
            proof {
                let next = if used + 1 == key@.len() {
                    0int
                } else {
                    used + 1
                };
                let tail = keyed_text(*alphabet, key@, rest.drop_first(), used + 1, back);
                let n = key@.len() as int;
                let u = used as int;
                assert((u + 1) % n == next % n) by (nonlinear_arith)
                    requires
                        0 <= u < n,
                        next == (if u + 1 == n {
                            0int
                        } else {
                            u + 1
                        }),
                ;
                lemma_key_wraps(*alphabet, key@, rest.drop_first(), used + 1, next, back);
                if tail is Some {
                    assert(out@ + tail->Some_0 =~= before + (seq![letter] + tail->Some_0));
                }
            }
            used = if used + 1 == key.len() {
                0
            } else {
                used + 1
            };
        }
        i += 1;
    }
    assert(chars@.skip(chars.len() as int).len() == 0);
    assert(out@ + Seq::<char>::empty() =~= out@);
    Ok(string_of(&out))
}

/// The text that results depends on the number of key letters used only by its
/// remainder on division by the key's length.
pub proof fn lemma_key_wraps(a: Alphabet, key: Seq<char>, text: Seq<char>, used: int, other: int, back: bool)
    requires
        key.len() > 0,
        0 <= used,
        0 <= other,
        used % (key.len() as int) == other % (key.len() as int),
    ensures
        keyed_text(a, key, text, used, back) == keyed_text(a, key, text, other, back),
    decreases text.len(),
{
    if text.len() > 0 {
        if !alphabetic(text[0]) {
            lemma_key_wraps(a, key, text.drop_first(), used, other, back);
        } else {
            let n = key.len() as int;
            assert((used + 1) % n == (other + 1) % n) by (nonlinear_arith)
                requires
                    n > 0,
                    used % n == other % n,
            ;
            lemma_key_wraps(a, key, text.drop_first(), used + 1, other + 1, back);
        }
    }
}

/// A Vigenère cipher with its alphabet and its key.
pub struct Vigenere {
    alphabet: Alphabet,
    key: Vec<char>,
}

impl Vigenere {
    #[verifier::type_invariant]
    spec fn valid(self) -> bool {
        self.alphabet.wf() && self.key@.len() > 0
    }

    /// The alphabet of this cipher.
    pub closed spec fn alphabet(&self) -> Alphabet {
        self.alphabet
    }

    /// The key of this cipher.
    pub closed spec fn key(&self) -> Seq<char> {
        self.key@
    }

    /// A builder with neither key nor alphabet.
    #[allow(clippy::new_ret_no_self)]
    pub fn new() -> (r: Result<IncompleteVigenere, CipherError>)
        ensures
            r is Ok,
            r->Ok_0.key() is None,
            r->Ok_0.alphabet() is None,
    {
        Ok(IncompleteVigenere { key: None, alphabet: None })
    }

    /// Encrypts `plaintext`; see [`keyed_text`]. Fails where the alphabet lacks an
    /// alphabetic character of the text or a letter of the key that is used.
    pub fn encrypt(&self, plaintext: &str) -> (r: Result<String, CipherError>)
        ensures
            match keyed_text(self.alphabet(), self.key(), plaintext@, 0, false) {
                Some(out) => r is Ok && r->Ok_0@ == out,
                None => r is Err && r->Err_0 == CipherError::CharacterNotInAlphabet,
            },
    {
        proof {
            use_type_invariant(self);
        }
        run_keyed(&self.alphabet, &self.key, plaintext, false)
    }

    /// Decrypts `ciphertext`; see [`keyed_text`]. Fails where the alphabet lacks an
    /// alphabetic character of the text or a letter of the key that is used.
    pub fn decrypt(&self, ciphertext: &str) -> (r: Result<String, CipherError>)
        ensures
            match keyed_text(self.alphabet(), self.key(), ciphertext@, 0, true) {
                Some(out) => r is Ok && r->Ok_0@ == out,
                None => r is Err && r->Err_0 == CipherError::CharacterNotInAlphabet,
            },
    {
        proof {
            use_type_invariant(self);
        }
        run_keyed(&self.alphabet, &self.key, ciphertext, true)
    }
}

/// A Vigenère cipher in the making: its key and its alphabet, as far as they are set.
#[derive(Debug)]
pub struct IncompleteVigenere {
    key: Option<Vec<char>>,
    alphabet: Option<Alphabet>,
}

impl IncompleteVigenere {
    #[verifier::type_invariant]
    spec fn valid(self) -> bool {
        self.alphabet is Some ==> self.alphabet->Some_0.wf()
    }

    /// The key, if it is set.
    pub closed spec fn key(&self) -> Option<Seq<char>> {
        match self.key {
            Some(key) => Some(key@),
            None => None,
        }
    }

    /// The alphabet, if it is set.
    pub closed spec fn alphabet(&self) -> Option<Alphabet> {
        self.alphabet
    }
}

/// The steps by which a Vigenère cipher is built. A step on a builder that has failed
/// hands the failure on.
pub trait VigenereBuilder: Sized {
    /// The key and the alphabet set so far, or the failure of an earlier step.
    spec fn state(self) -> Result<(Option<Seq<char>>, Option<Alphabet>), CipherError>;

    /// Sets the alphabet, which is put in capitals and must then be 26 capital
    /// letters, none of them twice.
    fn alphabet(self, alphabet: &str) -> (r: Result<IncompleteVigenere, CipherError>)
        ensures
            self.state() is Err ==> r is Err && r->Err_0 == self.state()->Err_0,
            self.state() is Ok && !capital_alphabet(upper_text(alphabet@)) ==> r is Err && r->Err_0
                == CipherError::InvalidAlphabet,
            self.state() is Ok && capital_alphabet(upper_text(alphabet@)) ==> r is Ok && r->Ok_0.key()
                == self.state()->Ok_0.0 && r->Ok_0.alphabet() is Some && r->Ok_0.alphabet()->Some_0.chars()
                == upper_text(alphabet@) && !r->Ok_0.alphabet()->Some_0.is_cased(),
    ;

    /// Sets the key.
    fn key(self, key: &str) -> (r: Result<IncompleteVigenere, CipherError>)
        ensures
            self.state() is Err ==> r is Err && r->Err_0 == self.state()->Err_0,
            self.state() is Ok ==> r is Ok && r->Ok_0.key() == Some(key@) && r->Ok_0.alphabet()
                == self.state()->Ok_0.1,
    ;

    /// The cipher with the key and the alphabet that were set. Fails where one of
    /// them was not set, or the key is empty.
    fn build(self) -> (r: Result<Vigenere, CipherError>)
        ensures
            self.state() is Err ==> r is Err && r->Err_0 == self.state()->Err_0,
            self.state() is Ok && complete(self.state()->Ok_0) ==> r is Ok && r->Ok_0.key()
                == self.state()->Ok_0.0->Some_0 && r->Ok_0.alphabet() == self.state()->Ok_0.1->Some_0,
            self.state() is Ok && !complete(self.state()->Ok_0) ==> r is Err && r->Err_0
                == CipherError::EmptyKeyOrAlphabet,
    ;
}

/// Whether a key with a letter or more and an alphabet are set.
pub open spec fn complete(state: (Option<Seq<char>>, Option<Alphabet>)) -> bool {
    state.0 is Some && state.0->Some_0.len() > 0 && state.1 is Some
}

impl VigenereBuilder for Result<IncompleteVigenere, CipherError> {
    open spec fn state(self) -> Result<(Option<Seq<char>>, Option<Alphabet>), CipherError> {
        match self {
            Ok(vigenere) => Ok((vigenere.key(), vigenere.alphabet())),
            Err(error) => Err(error),
        }
    }

    fn alphabet(self, alphabet: &str) -> (r: Result<IncompleteVigenere, CipherError>) {
        match self {
            Err(error) => Err(error),
            Ok(vigenere) => match Alphabet::caseless(alphabet) {
                Ok(made) => Ok(IncompleteVigenere { key: vigenere.key, alphabet: Some(made) }),
                Err(error) => Err(error),
            },
        }
    }

    fn key(self, key: &str) -> (r: Result<IncompleteVigenere, CipherError>) {
        match self {
            Err(error) => Err(error),
            Ok(vigenere) => {
                proof {
                    use_type_invariant(&vigenere);
                }
                Ok(IncompleteVigenere { key: Some(chars_of(key)), alphabet: vigenere.alphabet })
            },
        }
    }

    fn build(self) -> (r: Result<Vigenere, CipherError>) {
        match self {
            Err(error) => Err(error),
            Ok(vigenere) => {
                proof {
                    use_type_invariant(&vigenere);
                }
                match (vigenere.key, vigenere.alphabet) {
                    (Some(key), Some(alphabet)) => {
                        if key.len() == 0 {
                            Err(CipherError::EmptyKeyOrAlphabet)
                        } else {
                            Ok(Vigenere { alphabet, key })
                        }
                    },
                    _ => Err(CipherError::EmptyKeyOrAlphabet),
                }
            },
        }
    }
}

} // verus!
