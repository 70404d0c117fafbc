//! The Gronsfeld cipher: each letter is moved along the alphabet by a digit of a
//! repeating numeric key.

use vstd::prelude::*;
use crate::alphabet::{capital_alphabet, moved_back, moved_forward, Alphabet};
use crate::error::CipherError;
use crate::text::{
    alphabetic, ascii_lower, chars_of, is_alphabetic, is_lowercase, lowercase_letter, string_of,
    to_lower_letter, upper_text,
};
use crate::vigenere::after;

verus! {

/// The decimal digits of `n`, the most significant first; one digit 0 for 0.
pub open spec fn digits_of(n: nat) -> Seq<u8>
    decreases n,
{
    if n < 10 {
        seq![n as u8]
    } else {
        digits_of(n / 10).push((n % 10) as u8)
    }
}

/// The number that the decimal digits `s` spell.
pub open spec fn number_of(s: Seq<char>) -> nat
    decreases s.len(),
{
    if s.len() == 0 {
        0
    } else {
        number_of(s.drop_last()) * 10 + (s.last() as nat - 48) as nat
    }
}

/// Whether every character of `s` is a decimal digit.
pub open spec fn all_digits(s: Seq<char>) -> bool {
    forall|i: int| 0 <= i < s.len() ==> '0' <= #[trigger] s[i] <= '9'
}

/// The digits of a numeral: the numeral without the plus sign that may lead it.
pub open spec fn unsigned(s: Seq<char>) -> Seq<char> {
    if s.len() > 0 && s[0] == '+' {
        s.drop_first()
    } else {
        s
    }
}

/// The key that the numeral `s` spells: `s` is decimal digits, one or more, which may
/// follow a plus sign, and the number is one of 128 bits. Nothing for any other text.
pub open spec fn key_of(s: Seq<char>) -> Option<u128> {
    if unsigned(s).len() > 0 && all_digits(unsigned(s)) && number_of(unsigned(s)) <= u128::MAX {
        Some(number_of(unsigned(s)) as u128)
    } else {
        None
    }
}

/// The letter that `c` becomes under the key digit `d`: the alphabet's letter `d`
/// places after the place of `c`, or before it when decrypting, in small letters if
/// `c` is lower case. Nothing where the alphabet lacks `c`.
pub open spec fn digit_letter(a: Alphabet, c: char, d: u8, back: bool) -> Option<char> {
    match a.place(c) {
        Some(p) => {
            let at = if back {
                moved_back(p, d as int)
            } else {
                moved_forward(p, d as int)
            };
            if lowercase_letter(c) {
                Some(ascii_lower(a.chars()[at - 1]))
            } else {
                Some(a.chars()[at - 1])
            }
        },
        None => None,
    }
}

/// The text that `text` becomes under the digits of the key, of which `used` were used
/// already: each alphabetic character is replaced by its keyed letter and uses up one
/// digit of the key, which starts again when it ends; any other character stays.
/// Nothing where the alphabet lacks an alphabetic character of the text.
pub open spec fn digit_text(a: Alphabet, digits: Seq<u8>, text: Seq<char>, used: int, back: bool) -> Option<
    Seq<char>,
>
    decreases text.len(),
{
    if text.len() == 0 {
        Some(Seq::empty())
    } else if !alphabetic(text[0]) {
        after(seq![text[0]], digit_text(a, digits, text.drop_first(), used, back))
    } else {
        match digit_letter(a, text[0], digits[used % (digits.len() as int)], back) {
            Some(letter) => after(seq![letter], digit_text(a, digits, text.drop_first(), used + 1, back)),
            None => None,
        }
    }
}

/// The text that results depends on the number of digits used only by its remainder
/// on division by the number of digits.
pub proof fn lemma_digits_wrap(a: Alphabet, digits: Seq<u8>, text: Seq<char>, used: int, other: int, back: bool)
    requires
        digits.len() > 0,
        0 <= used,
        0 <= other,
        used % (digits.len() as int) == other % (digits.len() as int),
    ensures
        digit_text(a, digits, text, used, back) == digit_text(a, digits, text, other, back),
    decreases text.len(),
{
    if text.len() > 0 {
        if !alphabetic(text[0]) {
            lemma_digits_wrap(a, digits, text.drop_first(), used, other, back);
        } else {
            let n = digits.len() as int;
            assert((used + 1) % n == (other + 1) % n) by (nonlinear_arith)
                requires
                    n > 0,
                    used % n == other % n,
            ;
            lemma_digits_wrap(a, digits, text.drop_first(), used + 1, other + 1, back);
        }
    }
}

/// A number has at least one digit, and each digit is below 10.
pub proof fn lemma_digits_of(n: nat)
    ensures
        digits_of(n).len() > 0,
        forall|i: int| 0 <= i < digits_of(n).len() ==> #[trigger] digits_of(n)[i] < 10,
    decreases n,
{
    if n >= 10 {
        lemma_digits_of(n / 10);
    }
}

/// The decimal digits of `key`, the most significant first.
pub fn key_digits(key: u128) -> (digits: Vec<u8>)
    ensures
        digits@ == digits_of(key as nat),
        digits@.len() > 0,
        forall|i: int| 0 <= i < digits@.len() ==> #[trigger] digits@[i] < 10,
{
    let mut reversed: Vec<u8> = Vec::new();
    let mut n = key;
    reversed.push((n % 10) as u8);
    n = n / 10;
    let ghost mut rest = key as nat / 10;
    let ghost mut tail: Seq<u8> = seq![(key % 10) as u8];
    proof {
        assert(digits_of(key as nat) == if key < 10 {
            tail
        } else {
            digits_of(rest) + tail
        }) by {
            if key >= 10 {
                assert(digits_of(rest).push((key % 10) as u8) =~= digits_of(rest) + tail);
            }
        }
    }
    while n > 0
        invariant
            n == rest,
            reversed@.len() == tail.len(),
            tail.len() > 0,
            forall|i: int| 0 <= i < tail.len() ==> #[trigger] reversed@[i] == tail[tail.len() - 1 - i],
            digits_of(key as nat) == if rest == 0 {
                tail
            } else {
                digits_of(rest) + tail
            },
        decreases n,
    {
        let d = (n % 10) as u8;
        reversed.push(d);
        proof {
            let before = tail;
            tail = seq![d] + before;
            let next = rest / 10;
            assert(digits_of(rest) == if rest < 10 {
                seq![d]
            } else {
                digits_of(next).push(d)
            });
            if rest < 10 {
                assert(next == 0);
                assert(digits_of(rest) + before =~= tail);
            } else {
                assert(digits_of(next).push(d) + before =~= digits_of(next) + tail);
            }
            rest = next;
        }
        n = n / 10;
    }
    let mut digits: Vec<u8> = Vec::new();
    let mut i: usize = reversed.len();
    while i > 0
        invariant
            i <= reversed.len(),
            reversed@.len() == tail.len(),
            forall|k: int| 0 <= k < tail.len() ==> #[trigger] reversed@[k] == tail[tail.len() - 1 - k],
            digits@ == tail.take(reversed@.len() - i),
        decreases i,
    {
        i -= 1;
        digits.push(reversed[i]);
        assert(digits@ =~= tail.take(reversed@.len() - i));
    }
    proof {
        assert(tail.take(tail.len() as int) == tail);
        lemma_digits_of(key as nat);
    }
    digits
}

/// The key that the numeral `text` spells; see [`key_of`].
pub fn parse_key(text: &str) -> (r: Result<u128, CipherError>)
    ensures
        match key_of(text@) {
            Some(key) => r == Ok::<u128, CipherError>(key),
            None => r == Err::<u128, CipherError>(CipherError::InvalidArgument),
        },
{
    let chars = chars_of(text);
    let start: usize = if chars.len() > 0 && chars[0] == '+' {
        1
    } else {
        0
    };
    let ghost body = unsigned(text@);
    assert(body == chars@.skip(start as int));
    if start == chars.len() {
        return Err(CipherError::InvalidArgument);
    }
    let mut value: u128 = 0;
    let mut i: usize = start;
    assert(body.take(0) =~= Seq::<char>::empty());
    while i < chars.len()
        invariant
            start <= i <= chars.len(),
            chars@ == text@,
            body == chars@.skip(start as int),
            body == unsigned(text@),
            body.len() > 0,
            all_digits(body.take(i - start)),
            value == number_of(body.take(i - start)),
        decreases chars.len() - i,
    {
        let c = chars[i];
        let ghost now = body.take(i - start + 1);
        proof {
            assert(now.drop_last() == body.take(i - start));
            assert(now.last() == c);
            assert(body[i - start] == c);
        }
        if !('0' <= c && c <= '9') {
            return Err(CipherError::InvalidArgument);
        }
        let d = (c as u8 - 48) as u128;
        if value > (u128::MAX - d) / 10 {
            proof {
                assert(number_of(now) > u128::MAX);
                lemma_number_grows(body, i - start + 1);
            }
            return Err(CipherError::InvalidArgument);
        }
        value = value * 10 + d;
        proof {
            assert forall|k: int| 0 <= k < now.len() implies '0' <= #[trigger] now[k] <= '9' by {
                if k < now.len() - 1 {
                    assert(body.take(i - start)[k] == now[k]);
                }
            }
        }
        i += 1;
    }
    assert(body.take(body.len() as int) == body);
    Ok(value)
}

/// The number that digits spell is no less than the number that the first of them spell.
pub proof fn lemma_number_grows(s: Seq<char>, k: int)
    requires
        0 <= k <= s.len(),
    ensures
        number_of(s.take(k)) <= number_of(s),
    decreases s.len() - k,
{
    if k < s.len() {
        lemma_number_grows(s, k + 1);
        assert(s.take(k + 1).drop_last() == s.take(k));
    } else {
        assert(s.take(k) == s);
    }
}

/// Runs `text` through the cipher with the given alphabet and key digits.
pub fn run_digits(alphabet: &Alphabet, digits: &Vec<u8>, text: &str, back: bool) -> (r: Result<
    String,
    CipherError,
>)
    requires
        alphabet.wf(),
        digits@.len() > 0,
    ensures
        match digit_text(*alphabet, digits@, text@, 0, back) {
            Some(out) => r is Ok && r->Ok_0@ == out,
            None => r is Err && r->Err_0 == CipherError::CharacterNotInAlphabet,
        },
{
    let chars = chars_of(text);
    let mut out: Vec<char> = Vec::new();
    let mut used: usize = 0;
    let mut i: usize = 0;
    let ghost whole = digit_text(*alphabet, digits@, text@, 0, back);
    assert(chars@.skip(0) == chars@);
    assert(after(out@, whole) == whole) by {
        if whole is Some {
            assert(out@ + whole->Some_0 =~= whole->Some_0);
        }
    }
    while i < chars.len()
        invariant
            i <= chars.len(),
            used <= i,
            used < digits@.len(),
            alphabet.wf(),
            whole == digit_text(*alphabet, digits@, text@, 0, back),
            whole == after(out@, digit_text(*alphabet, digits@, chars@.skip(i as int), used as int, back)),
        decreases chars.len() - i,
    {
        let c = chars[i];
        let ghost rest = chars@.skip(i as int);
        let ghost before = out@;
        assert(rest.len() > 0 && rest[0] == c);
        assert(rest.drop_first() == chars@.skip(i + 1));
        if !is_alphabetic(c) {
            out.push(c);
            proof {
                let tail = digit_text(*alphabet, digits@, rest.drop_first(), used as int, back);
                if tail is Some {
                    assert(out@ + tail->Some_0 =~= before + (seq![c] + tail->Some_0));
                }
            }
        } else {
            let d = digits[used];
            proof {
                let n = digits@.len() as int;
                let u = used as int;
                assert(u % n == u) by (nonlinear_arith)
                    requires
                        0 <= u < n,
                ;
            }
            let letter = match alphabet.index_of(c) {
                Some(p) => {
                    let at = if back {
                        p.sub_mod(d)
                    } else {
                        p.add_mod(d)
                    };
                    let found = *alphabet.letter_at(at);
                    if is_lowercase(c) {
                        to_lower_letter(found)
                    } else {
                        found
                    }
                },
                None => {
                    proof {
                        assert(digit_letter(*alphabet, c, d, back) is None);
                        assert(digit_text(*alphabet, digits@, rest, used as int, back) is None);
                    }
                    return Err(CipherError::CharacterNotInAlphabet);
                },
            };
            assert(Some(letter) == digit_letter(*alphabet, c, d, back));
            out.push(letter);
            proof {
                let next = if used + 1 == digits@.len() {
                    0int
                } else {
                    used + 1
                };
                let tail = digit_text(*alphabet, digits@, rest.drop_first(), used + 1, back);
                let n = digits@.len() as int;
                let u = used as int;
                assert((u + 1) % n == next % n) by (nonlinear_arith)
                    requires
                        0 <= u < n,
                        next == (if u + 1 == n {
                            0int
                        } else {
                            u + 1
                        }),
                ;
                lemma_digits_wrap(*alphabet, digits@, rest.drop_first(), used + 1, next, back);
                if tail is Some {
                    assert(out@ + tail->Some_0 =~= before + (seq![letter] + tail->Some_0));
                }
            }
            used = if used + 1 == digits.len() {
                0
            } else {
                used + 1
            };
        }
        i += 1;
    }
    assert(chars@.skip(chars.len() as int).len() == 0);
    assert(out@ + Seq::<char>::empty() =~= out@);
    Ok(string_of(&out))
}

/// A Gronsfeld cipher with its alphabet and its key.
pub struct Gronsfeld {
    alphabet: Alphabet,
    key: u128,
}

impl Gronsfeld {
    #[verifier::type_invariant]
    spec fn valid(self) -> bool {
        self.alphabet.wf()
    }

    /// The alphabet of this cipher.
    pub closed spec fn alphabet(&self) -> Alphabet {
        self.alphabet
    }

    /// The key of this cipher.
    pub closed spec fn key(&self) -> u128 {
        self.key
    }

    /// A builder with neither key nor alphabet.
    #[allow(clippy::new_ret_no_self)]
    pub fn new() -> (r: Result<IncompleteGronsfeld, CipherError>)
        ensures
            r is Ok,
            r->Ok_0.key() is None,
            r->Ok_0.alphabet() is None,
    {
        Ok(IncompleteGronsfeld { alphabet: None, key: None })
    }

    /// Encrypts `plaintext`; see [`digit_text`]. Fails where the alphabet lacks an
    /// alphabetic character of the text.
    pub fn encrypt(&self, plaintext: &str) -> (r: Result<String, CipherError>)
        ensures
            match digit_text(self.alphabet(), digits_of(self.key() as nat), plaintext@, 0, false) {
                Some(out) => r is Ok && r->Ok_0@ == out,
                None => r is Err && r->Err_0 == CipherError::CharacterNotInAlphabet,
            },
    {
        proof {
            use_type_invariant(self);
        }
        let digits = key_digits(self.key);
        run_digits(&self.alphabet, &digits, plaintext, false)
    }

    /// Decrypts `ciphertext`; see [`digit_text`]. Fails where the alphabet lacks an
    /// alphabetic character of the text.
    pub fn decrypt(&self, ciphertext: &str) -> (r: Result<String, CipherError>)
        ensures
            match digit_text(self.alphabet(), digits_of(self.key() as nat), ciphertext@, 0, true) {
                Some(out) => r is Ok && r->Ok_0@ == out,
                None => r is Err && r->Err_0 == CipherError::CharacterNotInAlphabet,
            },
    {
        proof {
            use_type_invariant(self);
        }
        let digits = key_digits(self.key);
        run_digits(&self.alphabet, &digits, ciphertext, true)
    }
}

/// A Gronsfeld cipher in the making: its alphabet and its key, as far as they are set.
#[derive(Debug)]
pub struct IncompleteGronsfeld {
    alphabet: Option<Alphabet>,
    key: Option<u128>,
}

impl IncompleteGronsfeld {
    #[verifier::type_invariant]
    spec fn valid(self) -> bool {
        self.alphabet is Some ==> self.alphabet->Some_0.wf()
    }

    /// The key, if it is set.
    pub closed spec fn key(&self) -> Option<u128> {
        self.key
    }

    /// The alphabet, if it is set.
    pub closed spec fn alphabet(&self) -> Option<Alphabet> {
        self.alphabet
    }
}

/// The steps by which a Gronsfeld cipher is built. A step on a builder that has failed
/// hands the failure on.
pub trait GronsfeldBuilder: Sized {
    /// The key and the alphabet set so far, or the failure of an earlier step.
    spec fn state(self) -> Result<(Option<u128>, Option<Alphabet>), CipherError>;

    /// Sets the alphabet, which is put in capitals and must then be 26 capital
    /// letters, none of them twice.
    fn alphabet(self, alphabet: &str) -> (r: Result<IncompleteGronsfeld, CipherError>)
        ensures
            self.state() is Err ==> r is Err && r->Err_0 == self.state()->Err_0,
            self.state() is Ok && !capital_alphabet(upper_text(alphabet@)) ==> r is Err && r->Err_0
                == CipherError::InvalidAlphabet,
            self.state() is Ok && capital_alphabet(upper_text(alphabet@)) ==> r is Ok && r->Ok_0.key()
                == self.state()->Ok_0.0 && r->Ok_0.alphabet() is Some && r->Ok_0.alphabet()->Some_0.chars()
                == upper_text(alphabet@) && !r->Ok_0.alphabet()->Some_0.is_cased(),
    ;

    /// Sets the key.
    fn key(self, key: u128) -> (r: Result<IncompleteGronsfeld, CipherError>)
        ensures
            self.state() is Err ==> r is Err && r->Err_0 == self.state()->Err_0,
            self.state() is Ok ==> r is Ok && r->Ok_0.key() == Some(key) && r->Ok_0.alphabet()
                == self.state()->Ok_0.1,
    ;

    /// Sets the key from a numeral: decimal digits, which may follow a plus sign.
    /// Zeros that lead the numeral do not count as digits of the key.
    fn key_str(self, key: &str) -> (r: Result<IncompleteGronsfeld, CipherError>)
        ensures
            self.state() is Err ==> r is Err && r->Err_0 == self.state()->Err_0,
            self.state() is Ok && key_of(key@) is None ==> r is Err && r->Err_0
                == CipherError::InvalidArgument,
            self.state() is Ok && key_of(key@) is Some ==> r is Ok && r->Ok_0.key() == key_of(key@)
                && r->Ok_0.alphabet() == self.state()->Ok_0.1,
    ;

    /// The cipher with the key and the alphabet that were set. Fails where one of
    /// them was not set.
    fn build(self) -> (r: Result<Gronsfeld, CipherError>)
        ensures
            self.state() is Err ==> r is Err && r->Err_0 == self.state()->Err_0,
            self.state() is Ok && self.state()->Ok_0.0 is Some && self.state()->Ok_0.1 is Some ==> r is Ok
                && r->Ok_0.key() == self.state()->Ok_0.0->Some_0 && r->Ok_0.alphabet()
                == self.state()->Ok_0.1->Some_0,
            self.state() is Ok && !(self.state()->Ok_0.0 is Some && self.state()->Ok_0.1 is Some) ==> r is Err
                && r->Err_0 == CipherError::EmptyKeyOrAlphabet,
    ;
}

impl GronsfeldBuilder for Result<IncompleteGronsfeld, CipherError> {
    open spec fn state(self) -> Result<(Option<u128>, Option<Alphabet>), CipherError> {
        match self {
            Ok(gronsfeld) => Ok((gronsfeld.key(), gronsfeld.alphabet())),
            Err(error) => Err(error),
        }
    }

    fn alphabet(self, alphabet: &str) -> (r: Result<IncompleteGronsfeld, CipherError>) {
        match self {
            Err(error) => Err(error),
            Ok(gronsfeld) => match Alphabet::caseless(alphabet) {
                Ok(made) => Ok(IncompleteGronsfeld { alphabet: Some(made), key: gronsfeld.key }),
                Err(error) => Err(error),
            },
        }
    }

    fn key(self, key: u128) -> (r: Result<IncompleteGronsfeld, CipherError>) {
        match self {
            Err(error) => Err(error),
            Ok(gronsfeld) => {
                proof {
                    use_type_invariant(&gronsfeld);
                }
                Ok(IncompleteGronsfeld { alphabet: gronsfeld.alphabet, key: Some(key) })
            },
        }
    }

    fn key_str(self, key: &str) -> (r: Result<IncompleteGronsfeld, CipherError>) {
        match self {
            Err(error) => Err(error),
            Ok(gronsfeld) => {
                proof {
                    use_type_invariant(&gronsfeld);
                }
                match parse_key(key) {
                    Ok(number) => Ok(IncompleteGronsfeld { alphabet: gronsfeld.alphabet, key: Some(number) }),
                    Err(error) => Err(error),
                }
            },
        }
    }

    fn build(self) -> (r: Result<Gronsfeld, CipherError>) {
        match self {
            Err(error) => Err(error),
            Ok(gronsfeld) => {
                proof {
                    use_type_invariant(&gronsfeld);
                }
                match (gronsfeld.alphabet, gronsfeld.key) {
                    (Some(alphabet), Some(key)) => Ok(Gronsfeld { alphabet, key }),
                    _ => Err(CipherError::EmptyKeyOrAlphabet),
                }
            },
        }
    }
}

} // verus!
