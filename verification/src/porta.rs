//! The Porta cipher: its key, its alphabet and the steps by which it is built.

use vstd::prelude::*;
use crate::alphabet::{capital_alphabet, Alphabet};
use crate::error::CipherError;
use crate::text::{chars_of, upper_text};
use crate::vigenere::complete;

verus! {

/// A Porta cipher with its key and its alphabet.
pub struct Porta {
    key: Vec<char>,
    alphabet: Alphabet,
}

impl Porta {
    #[verifier::type_invariant]
    spec fn valid(self) -> bool {
        self.alphabet.wf() && self.key@.len() > 0
    }

    /// The alphabet of this cipher.
    pub closed spec fn alphabet(&self) -> Alphabet {
        self.alphabet
    }

    /// The key of this cipher.
    pub closed spec fn key(&self) -> Seq<char> {
        self.key@
    }

    /// A builder with neither key nor alphabet.
    #[allow(clippy::new_ret_no_self)]
    pub fn new() -> (r: Result<IncompletePorta, CipherError>)
        ensures
            r is Ok,
            r->Ok_0.key() is None,
            r->Ok_0.alphabet() is None,
    {
        Ok(IncompletePorta { key: None, alphabet: None })
    }
}

/// A Porta cipher in the making: its key and its alphabet, as far as they are set.
#[derive(Debug)]
pub struct IncompletePorta {
    key: Option<Vec<char>>,
    alphabet: Option<Alphabet>,
}

impl IncompletePorta {
    #[verifier::type_invariant]
    spec fn valid(self) -> bool {
        self.alphabet is Some ==> self.alphabet->Some_0.wf()
    }

    /// The key, if it is set.
    pub closed spec fn key(&self) -> Option<Seq<char>> {
        match self.key {
            Some(key) => Some(key@),
            None => None,
        }
    }

    /// The alphabet, if it is set.
    pub closed spec fn alphabet(&self) -> Option<Alphabet> {
        self.alphabet
    }
}

/// The steps by which a porta cipher is built. A step on a builder that has failed
/// hands the failure on.
pub trait PortaBuilder: Sized {
    /// The key and the alphabet set so far, or the failure of an earlier step.
    spec fn state(self) -> Result<(Option<Seq<char>>, Option<Alphabet>), CipherError>;

    /// Sets the alphabet, which is put in capitals and must then be 26 capital
    /// letters, none of them twice.
    fn alphabet(self, alphabet: &str) -> (r: Result<IncompletePorta, CipherError>)
        ensures
            self.state() is Err ==> r is Err && r->Err_0 == self.state()->Err_0,
            self.state() is Ok && !capital_alphabet(upper_text(alphabet@)) ==> r is Err && r->Err_0
                == CipherError::InvalidAlphabet,
            self.state() is Ok && capital_alphabet(upper_text(alphabet@)) ==> r is Ok && r->Ok_0.key()
                == self.state()->Ok_0.0 && r->Ok_0.alphabet() is Some && r->Ok_0.alphabet()->Some_0.chars()
                == upper_text(alphabet@) && !r->Ok_0.alphabet()->Some_0.is_cased(),
    ;

    /// Sets the key.
    fn key(self, key: &str) -> (r: Result<IncompletePorta, CipherError>)
        ensures
            self.state() is Err ==> r is Err && r->Err_0 == self.state()->Err_0,
            self.state() is Ok ==> r is Ok && r->Ok_0.key() == Some(key@) && r->Ok_0.alphabet()
                == self.state()->Ok_0.1,
    ;

    /// The cipher with the key and the alphabet that were set. Fails where one of
    /// them was not set, or the key is empty.
    fn build(self) -> (r: Result<Porta, CipherError>)
        ensures
            self.state() is Err ==> r is Err && r->Err_0 == self.state()->Err_0,
            self.state() is Ok && complete(self.state()->Ok_0) ==> r is Ok && r->Ok_0.key()
                == self.state()->Ok_0.0->Some_0 && r->Ok_0.alphabet() == self.state()->Ok_0.1->Some_0,
            self.state() is Ok && !complete(self.state()->Ok_0) ==> r is Err && r->Err_0
                == CipherError::EmptyKeyOrAlphabet,
    ;
}

impl PortaBuilder for Result<IncompletePorta, CipherError> {
    open spec fn state(self) -> Result<(Option<Seq<char>>, Option<Alphabet>), CipherError> {
        match self {
            Ok(porta) => Ok((porta.key(), porta.alphabet())),
            Err(error) => Err(error),
        }
    }

    fn alphabet(self, alphabet: &str) -> (r: Result<IncompletePorta, CipherError>) {
        match self {
            Err(error) => Err(error),
            Ok(porta) => match Alphabet::caseless(alphabet) {
                Ok(made) => Ok(IncompletePorta { key: porta.key, alphabet: Some(made) }),
                Err(error) => Err(error),
            },
        }
    }

    fn key(self, key: &str) -> (r: Result<IncompletePorta, CipherError>) {
        match self {
            Err(error) => Err(error),
            Ok(porta) => {
                proof {
                    use_type_invariant(&porta);
                }
                Ok(IncompletePorta { key: Some(chars_of(key)), alphabet: porta.alphabet })
            },
        }
    }

    fn build(self) -> (r: Result<Porta, CipherError>) {
        match self {
            Err(error) => Err(error),
            Ok(porta) => {
                proof {
                    use_type_invariant(&porta);
                }
                match (porta.key, porta.alphabet) {
                    (Some(key), Some(alphabet)) => {
                        if key.len() == 0 {
                            Err(CipherError::EmptyKeyOrAlphabet)
                        } else {
                            Ok(Porta { key, alphabet })
                        }
                    },
                    _ => Err(CipherError::EmptyKeyOrAlphabet),
                }
            },
        }
    }
}

} // verus!
