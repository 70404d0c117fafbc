//! The families of ciphers, and the rule that picks the likeliest for a text.

use vstd::prelude::*;
use crate::analysis::{index_of_coincidence, ioc_of, lemma_letter_count_bounds, letters_in};
use crate::character_set::CharacterSet;
use crate::text::{
    chars_of, is_lowercase, is_uppercase, is_whitespace, lowercase_letter, uppercase_letter, whitespace,
};

verus! {

/// A family of ciphers or encodings.
#[derive(Debug, Clone, Copy, PartialEq, Eq, Structural)]
pub enum CipherType {
    Transposition,
    Substitution,
    Base64,
    Morse,
    Hex,
    Octal,
}

/// Whether `c` may stand in Morse code: a dash, a dot, a slash or white space.
pub open spec fn morse_sign(c: char) -> bool {
    c == '-' || c == '.' || c == '/' || whitespace(c)
}

/// Whether every character of `s` may stand in Morse code.
pub open spec fn all_morse(s: Seq<char>) -> bool {
    forall|i: int| 0 <= i < s.len() ==> morse_sign(#[trigger] s[i])
}

/// Whether every character of `s` is one of the characters of `among`.
pub open spec fn all_among(s: Seq<char>, among: Seq<char>) -> bool {
    s.to_set().subset_of(among.to_set())
}

/// How many characters of `s` are upper-case letters.
pub open spec fn capitals_in(s: Seq<char>) -> int
    decreases s.len(),
{
    if s.len() == 0 {
        0
    } else {
        capitals_in(s.drop_last()) + if uppercase_letter(s.last()) {
            1int
        } else {
            0int
        }
    }
}

/// How many characters of `s` are lower-case letters.
pub open spec fn smalls_in(s: Seq<char>) -> int
    decreases s.len(),
{
    if s.len() == 0 {
        0
    } else {
        smalls_in(s.drop_last()) + if lowercase_letter(s.last()) {
            1int
        } else {
            0int
        }
    }
}

/// Whether the index of coincidence of `s` is at least 0.6 and at most 0.75, as a
/// transposition of few distinct letters has it.
pub open spec fn high_coincidence(s: Seq<char>) -> bool {
    6 * ioc_of(s).1 <= 10 * ioc_of(s).0 && 4 * ioc_of(s).0 <= 3 * ioc_of(s).1
}

/// The family that a text most likely belongs to. The first rule that applies decides:
/// Morse signs only; octal digits only; hexadecimal digits only; then, where the
/// upper-case letters are fewer than a tenth of the lower-case ones, a transposition if
/// the index of coincidence is high and a substitution if not; else Base64, whose
/// characters include every letter and digit that a text can hold.
pub open spec fn classified(s: Seq<char>) -> CipherType {
    if all_morse(s) {
        CipherType::Morse
    } else if all_among(s, "01234567"@) {
        CipherType::Octal
    } else if all_among(s, "0123456789ABCDEFabcdef"@) {
        CipherType::Hex
    } else if 10 * capitals_in(s) < smalls_in(s) {
        if high_coincidence(s) {
            CipherType::Transposition
        } else {
            CipherType::Substitution
        }
    } else {
        CipherType::Base64
    }
}

/// The counts of upper-case and lower-case letters are no more than the text is long.
pub proof fn lemma_case_counts(s: Seq<char>)
    ensures
        0 <= capitals_in(s) <= s.len(),
        0 <= smalls_in(s) <= s.len(),
    decreases s.len(),
{
    if s.len() > 0 {
        lemma_case_counts(s.drop_last());
    }
}

impl CipherType {
    /// The family that `ciphertext` most likely belongs to; see [`classified`]. The
    /// result is never `None`.
    pub fn best_match(ciphertext: &str) -> (r: Option<Self>)
        ensures
            r == Some(classified(ciphertext@)),
    {
        let raw = CharacterSet::raw(ciphertext);
        let chars = chars_of(ciphertext);
        if only_morse(&chars) {
            return Some(CipherType::Morse);
        }
        if CharacterSet::octal().is_superset_of(&raw) {
            return Some(CipherType::Octal);
        }
        if CharacterSet::hex().is_superset_of(&raw) {
            return Some(CipherType::Hex);
        }
        let mut capitals: u64 = 0;
        let mut smalls: u64 = 0;
        let mut i: usize = 0;
        assert(chars@.take(0) =~= Seq::<char>::empty());
        while i < chars.len()
            invariant
                i <= chars.len(),
                capitals == capitals_in(chars@.take(i as int)),
                smalls == smalls_in(chars@.take(i as int)),
                capitals <= i,
                smalls <= i,
            decreases chars.len() - i,
        {
            assert(chars@.take(i + 1).drop_last() == chars@.take(i as int));
            if is_uppercase(chars[i]) {
                capitals += 1;
            }
            if is_lowercase(chars[i]) {
                smalls += 1;
            }
            i += 1;
        }
        assert(chars@.take(chars.len() as int) == chars@);
        if (capitals as u128) * 10 < smalls as u128 {
            let ioc = index_of_coincidence(ciphertext);
            // The two bounds are compared by quotient and remainder, so that no product
            // leaves 128 bits however long the text is.
            let n = ioc.numerator;
            let d = ioc.denominator;
            let at_least = n >= 3 * (d / 5) + (3 * (d % 5) + 4) / 5;
            let at_most = n <= 3 * (d / 4) + (3 * (d % 4)) / 4;
            assert(at_least == (6 * d <= 10 * n));
            assert(at_most == (4 * n <= 3 * d));
            if at_least && at_most {
                return Some(CipherType::Transposition);
            } else {
                return Some(CipherType::Substitution);
            }
        }
        Some(CipherType::Base64)
    }
}

/// Whether every character of `chars` may stand in Morse code.
fn only_morse(chars: &Vec<char>) -> (b: bool)
    ensures
        b == all_morse(chars@),
{
    let mut i: usize = 0;
    while i < chars.len()
        invariant
            i <= chars.len(),
            forall|k: int| 0 <= k < i ==> morse_sign(#[trigger] chars@[k]),
        decreases chars.len() - i,
    {
        let c = chars[i];
        if !(c == '-' || c == '.' || c == '/' || is_whitespace(c)) {
            return false;
        }
        i += 1;
    }
    true
}

/// The index of coincidence of a text of at most 2^32 characters has a denominator
/// below 2^64.
pub proof fn lemma_ioc_small(s: Seq<char>)
    requires
        s.len() <= u32::MAX,
    ensures
        0 < ioc_of(s).1 <= 0xffff_ffff_0000_0000,
{
    lemma_letter_count_bounds(s, 0);
    let t = letters_in(s);
    if t >= 2 {
        assert(0 < t * (t - 1) <= 0xffff_ffff_0000_0000) by (nonlinear_arith)
            requires
                2 <= t <= 0xffff_ffff,
        ;
    }
}

} // verus!
