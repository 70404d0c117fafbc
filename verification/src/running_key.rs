//! The running-key cipher: a Vigenère cipher whose key is as long as the text.

use vstd::prelude::*;
use crate::alphabet::{capital_alphabet, Alphabet};
use crate::error::CipherError;
use crate::text::{byte_len, byte_length, chars_of, upper_text};
use crate::vigenere::{complete, keyed_text, run_keyed};

verus! {

/// A running-key cipher with its alphabet and its key.
pub struct RunningKey {
    alphabet: Alphabet,
    key: Vec<char>,
}

/// The text that `text` becomes under a running key: what the Vigenère cipher makes
/// of it, provided that the key has at least as many bytes as the text.
pub open spec fn running_text(a: Alphabet, key: Seq<char>, text: Seq<char>, back: bool) -> Result<
    Seq<char>,
    CipherError,
> {
    if byte_len(key) < byte_len(text) {
        Err(CipherError::InvalidArgument)
    } else {
        match keyed_text(a, key, text, 0, back) {
            Some(out) => Ok(out),
            None => Err(CipherError::CharacterNotInAlphabet),
        }
    }
}

impl RunningKey {
    #[verifier::type_invariant]
    spec fn valid(self) -> bool {
        self.alphabet.wf() && self.key@.len() > 0
    }

    /// The alphabet of this cipher.
    pub closed spec fn alphabet(&self) -> Alphabet {
        self.alphabet
    }

    /// The key of this cipher.
    pub closed spec fn key(&self) -> Seq<char> {
        self.key@
    }

    /// A builder with neither key nor alphabet.
    #[allow(clippy::new_ret_no_self)]
    pub fn new() -> (r: Result<IncompleteRunningKey, CipherError>)
        ensures
            r is Ok,
            r->Ok_0.key() is None,
            r->Ok_0.alphabet() is None,
    {
        Ok(IncompleteRunningKey { key: None, alphabet: None })
    }

    /// Encrypts `plaintext` as the Vigenère cipher does. Fails with `InvalidArgument`
    /// where the key has fewer bytes than the text, and with `CharacterNotInAlphabet`
    /// where the alphabet lacks an alphabetic character of the text or a letter of
    /// the key that is used.
    pub fn encrypt(&self, plaintext: &str) -> (r: Result<String, CipherError>)
        ensures
            match running_text(self.alphabet(), self.key(), plaintext@, false) {
                Ok(out) => r is Ok && r->Ok_0@ == out,
                Err(error) => r is Err && r->Err_0 == error,
            },
    {
        self.run(plaintext, false)
    }

    /// Decrypts `ciphertext` as the Vigenère cipher does; fails as
    /// [`RunningKey::encrypt`] does.
    pub fn decrypt(&self, ciphertext: &str) -> (r: Result<String, CipherError>)
        ensures
            match running_text(self.alphabet(), self.key(), ciphertext@, true) {
                Ok(out) => r is Ok && r->Ok_0@ == out,
                Err(error) => r is Err && r->Err_0 == error,
            },
    {
        self.run(ciphertext, true)
    }

    fn run(&self, text: &str, back: bool) -> (r: Result<String, CipherError>)
        ensures
            match running_text(self.alphabet(), self.key(), text@, back) {
                Ok(out) => r is Ok && r->Ok_0@ == out,
                Err(error) => r is Err && r->Err_0 == error,
            },
    {
        proof {
            use_type_invariant(self);
        }
        let chars = chars_of(text);
        if byte_length(&self.key) < byte_length(&chars) {
            return Err(CipherError::InvalidArgument);
        }
        run_keyed(&self.alphabet, &self.key, text, back)
    }
}

/// A running-key cipher in the making: its key and its alphabet, as far as they are set.
#[derive(Debug)]
pub struct IncompleteRunningKey {
    key: Option<Vec<char>>,
    alphabet: Option<Alphabet>,
}

impl IncompleteRunningKey {
    #[verifier::type_invariant]
    spec fn valid(self) -> bool {
        self.alphabet is Some ==> self.alphabet->Some_0.wf()
    }

    /// The key, if it is set.
    pub closed spec fn key(&self) -> Option<Seq<char>> {
        match self.key {
            Some(key) => Some(key@),
            None => None,
        }
    }

    /// The alphabet, if it is set.
    pub closed spec fn alphabet(&self) -> Option<Alphabet> {
        self.alphabet
    }
}

/// The steps by which a running-key cipher is built. A step on a builder that has failed
/// hands the failure on.
pub trait RunningKeyBuilder: Sized {
    /// The key and the alphabet set so far, or the failure of an earlier step.
    spec fn state(self) -> Result<(Option<Seq<char>>, Option<Alphabet>), CipherError>;

    /// Sets the alphabet, which is put in capitals and must then be 26 capital
    /// letters, none of them twice.
    fn alphabet(self, alphabet: &str) -> (r: Result<IncompleteRunningKey, CipherError>)
        ensures
            self.state() is Err ==> r is Err && r->Err_0 == self.state()->Err_0,
            self.state() is Ok && !capital_alphabet(upper_text(alphabet@)) ==> r is Err && r->Err_0
                == CipherError::InvalidAlphabet,
            self.state() is Ok && capital_alphabet(upper_text(alphabet@)) ==> r is Ok && r->Ok_0.key()
                == self.state()->Ok_0.0 && r->Ok_0.alphabet() is Some && r->Ok_0.alphabet()->Some_0.chars()
                == upper_text(alphabet@) && !r->Ok_0.alphabet()->Some_0.is_cased(),
    ;

    /// Sets the key.
    fn key(self, key: &str) -> (r: Result<IncompleteRunningKey, CipherError>)
        ensures
            self.state() is Err ==> r is Err && r->Err_0 == self.state()->Err_0,
            self.state() is Ok ==> r is Ok && r->Ok_0.key() == Some(key@) && r->Ok_0.alphabet()
                == self.state()->Ok_0.1,
    ;

    /// The cipher with the key and the alphabet that were set. Fails where one of
    /// them was not set, or the key is empty.
    fn build(self) -> (r: Result<RunningKey, CipherError>)
        ensures
            self.state() is Err ==> r is Err && r->Err_0 == self.state()->Err_0,
            self.state() is Ok && complete(self.state()->Ok_0) ==> r is Ok && r->Ok_0.key()
                == self.state()->Ok_0.0->Some_0 && r->Ok_0.alphabet() == self.state()->Ok_0.1->Some_0,
            self.state() is Ok && !complete(self.state()->Ok_0) ==> r is Err && r->Err_0
                == CipherError::EmptyKeyOrAlphabet,
    ;
}

impl RunningKeyBuilder for Result<IncompleteRunningKey, CipherError> {
    open spec fn state(self) -> Result<(Option<Seq<char>>, Option<Alphabet>), CipherError> {
        match self {
            Ok(running_key) => Ok((running_key.key(), running_key.alphabet())),
            Err(error) => Err(error),
        }
    }

    fn alphabet(self, alphabet: &str) -> (r: Result<IncompleteRunningKey, CipherError>) {
        match self {
            Err(error) => Err(error),
            Ok(running_key) => match Alphabet::caseless(alphabet) {
                Ok(made) => Ok(IncompleteRunningKey { key: running_key.key, alphabet: Some(made) }),
                Err(error) => Err(error),
            },
        }
    }

    fn key(self, key: &str) -> (r: Result<IncompleteRunningKey, CipherError>) {
        match self {
            Err(error) => Err(error),
            Ok(running_key) => {
                proof {
                    use_type_invariant(&running_key);
                }
                Ok(IncompleteRunningKey { key: Some(chars_of(key)), alphabet: running_key.alphabet })
            },
        }
    }

    fn build(self) -> (r: Result<RunningKey, CipherError>) {
        match self {
            Err(error) => Err(error),
            Ok(running_key) => {
                proof {
                    use_type_invariant(&running_key);
                }
                match (running_key.key, running_key.alphabet) {
                    (Some(key), Some(alphabet)) => {
                        if key.len() == 0 {
                            Err(CipherError::EmptyKeyOrAlphabet)
                        } else {
                            Ok(RunningKey { alphabet, key })
                        }
                    },
                    _ => Err(CipherError::EmptyKeyOrAlphabet),
                }
            },
        }
    }
}

} // verus!
