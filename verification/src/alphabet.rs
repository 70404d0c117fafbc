//! Ordered alphabets of symbols, and the validated indices by which their letters are found.

use std::ops::Range;
use vstd::prelude::*;
use crate::error::CipherError;
use crate::text::{
    ascii_upper, ascii_upper_seq, chars_of, find_char, first_place, is_letter, is_upper, lemma_first_place, lemma_first_place_is, to_upper_letter, to_uppercase, upper_text,
};

verus! {

/// A place in an alphabet of 26 letters, counted from 1: a number from 1 to 26.
#[derive(Clone, Copy, Debug, PartialEq, Eq, Structural, PartialOrd, Ord, Hash)]
pub struct AlphabetIndex(u8);

/// The number from 1 to 26 that lies `n` places after `v`, wrapping round after 26.
pub open spec fn moved_forward(v: int, n: int) -> int {
    (v - 1 + n) % 26 + 1
}

/// The number from 1 to 26 that lies `n` places before `v`, wrapping round before 1.
pub open spec fn moved_back(v: int, n: int) -> int {
    (v - 1 + 26 - n % 26) % 26 + 1
}

impl AlphabetIndex {
    #[verifier::type_invariant]
    spec fn in_range(self) -> bool {
        1 <= self.0 <= 26
    }

    /// The number that this index stands for.
    pub closed spec fn value(self) -> int {
        self.0 as int
    }

    /// The index for `index`, which must be from 1 to 26.
    pub fn new(index: u8) -> (r: Result<Self, CipherError>)
        ensures
            1 <= index <= 26 ==> r is Ok && r->Ok_0.value() == index,
            !(1 <= index <= 26) ==> r == Err::<Self, CipherError>(CipherError::InvalidArgument),
    {
        if 1 <= index && index <= 26 {
            Ok(Self(index))
        } else {
            Err(CipherError::InvalidArgument)
        }
    }

    /// The number that this index stands for.
    pub fn get(&self) -> (v: u8)
        ensures
            v == self.value(),
            1 <= v <= 26,
    {
        proof {
            use_type_invariant(self);
        }
        self.0
    }

    /// The index `n` places after this one, wrapping round after 26.
    pub fn add_mod(self, n: u8) -> (r: AlphabetIndex)
        ensures
            r.value() == moved_forward(self.value(), n as int),
    {
        proof {
            use_type_invariant(self);
        }
        AlphabetIndex(((self.0 as u16 - 1 + n as u16) % 26) as u8 + 1)
    }

    /// The index `n` places before this one, wrapping round before 1.
    pub fn sub_mod(self, n: u8) -> (r: AlphabetIndex)
        ensures
            r.value() == moved_back(self.value(), n as int),
    {
        proof {
            use_type_invariant(self);
        }
        AlphabetIndex(((self.0 as u16 - 1 + 26 - (n % 26) as u16) % 26) as u8 + 1)
    }
}

/// Whether no character occurs twice in `s`.
pub open spec fn distinct_chars(s: Seq<char>) -> bool {
    forall|i: int, j: int| 0 <= i < j < s.len() ==> s[i] != s[j]
}

/// Whether `s` spells a cased alphabet: 26 Latin letters, none of them twice.
pub open spec fn cased_alphabet(s: Seq<char>) -> bool {
    &&& s.len() == 26
    &&& forall|i: int| 0 <= i < s.len() ==> is_letter(#[trigger] s[i])
    &&& distinct_chars(s)
}

/// Whether `s` spells a caseless alphabet: 26 capital letters, none of them twice.
pub open spec fn capital_alphabet(s: Seq<char>) -> bool {
    &&& s.len() == 26
    &&& forall|i: int| 0 <= i < s.len() ==> is_upper(#[trigger] s[i])
    &&& distinct_chars(s)
}

/// The characters of `s` without repetitions, each at the place of its first occurrence,
/// given the characters `seen` before `s`.
pub open spec fn unique_after(seen: Seq<char>, s: Seq<char>) -> Seq<char>
    decreases s.len(),
{
    if s.len() == 0 {
        seen
    } else if seen.contains(s[0]) {
        unique_after(seen, s.drop_first())
    } else {
        unique_after(seen.push(s[0]), s.drop_first())
    }
}

/// The characters of `s` without repetitions, in the order in which they first occur.
pub open spec fn unique_chars(s: Seq<char>) -> Seq<char> {
    unique_after(Seq::empty(), s)
}

/// The characters with the code points from `start` up to 127.
pub open spec fn ascii_from(start: int) -> Seq<char> {
    if start < 128 {
        Seq::new((128 - start) as nat, |i: int| (start + i) as u8 as char)
    } else {
        Seq::empty()
    }
}

/// An ordered alphabet. A caseless alphabet finds small letters at the places of
/// their capitals.
#[derive(PartialEq, Eq, Hash, Clone, Debug)]
pub struct Alphabet {
    characters: Vec<char>,
    cased: bool,
}

impl Alphabet {
    /// The characters of this alphabet, in order.
    pub closed spec fn chars(&self) -> Seq<char> {
        self.characters@
    }

    /// Whether this alphabet tells capitals from small letters.
    pub closed spec fn is_cased(&self) -> bool {
        self.cased
    }

    /// Whether this is an alphabet for a cipher: 26 Latin letters, none twice, and all
    /// of them capitals where the alphabet is caseless.
    pub open spec fn wf(&self) -> bool {
        if self.is_cased() {
            cased_alphabet(self.chars())
        } else {
            capital_alphabet(self.chars())
        }
    }

    /// The character that is looked for when `character` is asked for: its capital in
    /// a caseless alphabet, itself in a cased one.
    pub open spec fn folded(&self, character: char) -> char {
        if self.is_cased() {
            character
        } else {
            ascii_upper(character)
        }
    }

    /// The place of `character` counted from 1, if it is found among the first 26
    /// characters of this alphabet.
    pub open spec fn place(&self, character: char) -> Option<int> {
        let at = first_place(self.chars(), self.folded(character));
        if at < self.chars().len() && at < 26 {
            Some(at + 1)
        } else {
            None
        }
    }

    /// The alphabet that `alphabet` spells, with capitals and small letters told apart.
    /// Fails unless `alphabet` is 26 Latin letters, none of them twice.
    pub fn cased(alphabet: &str) -> (r: Result<Self, CipherError>)
        ensures
            cased_alphabet(alphabet@) ==> r is Ok && r->Ok_0.chars() == alphabet@ && r->Ok_0.is_cased()
                && r->Ok_0.wf(),
            !cased_alphabet(alphabet@) ==> r is Err && r->Err_0 == CipherError::InvalidAlphabet,
    {
        let chars = chars_of(alphabet);
        if validate(&chars, true) {
            Ok(Self { characters: chars, cased: true })
        } else {
            Err(CipherError::InvalidAlphabet)
        }
    }

    /// The alphabet that `alphabet` spells once it is put in capitals. Fails unless that
    /// gives 26 capital letters, none of them twice.
    pub fn caseless(alphabet: &str) -> (r: Result<Self, CipherError>)
        ensures
            capital_alphabet(upper_text(alphabet@)) ==> r is Ok && r->Ok_0.chars() == upper_text(
                alphabet@,
            ) && !r->Ok_0.is_cased() && r->Ok_0.wf(),
            !capital_alphabet(upper_text(alphabet@)) ==> r is Err && r->Err_0
                == CipherError::InvalidAlphabet,
    {
        let upper = to_uppercase(alphabet);
        let chars = chars_of(upper.as_str());
        if validate(&chars, false) {
            Ok(Self { characters: chars, cased: false })
        } else {
            Err(CipherError::InvalidAlphabet)
        }
    }

    /// The alphabet of the characters of `text`, each once, in the order in which they
    /// first occur.
    pub fn of_cased(text: &str) -> (a: Self)
        ensures
            a.chars() == unique_chars(text@),
            a.is_cased(),
    {
        let chars = chars_of(text);
        Self { characters: unique_of(&chars), cased: true }
    }

    /// The alphabet of the ASCII characters from `range.start` on. Fails unless the
    /// range ends after the last ASCII character, 127.
    pub fn from_ascii_range(range: Range<u8>) -> (r: Result<Self, CipherError>)
        ensures
            range.end == 128 ==> r is Ok && r->Ok_0.chars() == ascii_from(range.start as int)
                && r->Ok_0.is_cased(),
            range.end != 128 ==> r is Err && r->Err_0 == CipherError::InvalidAlphabet,
    {
        if range.end != 128 {
            return Err(CipherError::InvalidAlphabet);
        }
        let mut characters: Vec<char> = Vec::new();
        if range.start >= 128 {
            assert(characters@ =~= ascii_from(range.start as int));
            return Ok(Self { characters, cased: true });
        }
        let start = range.start;
        let mut code: u8 = start;
        while code < 128
            invariant
                start <= code <= 128,
                characters@ == Seq::new((code - start) as nat, |i: int| (start + i) as u8 as char),
            decreases 128 - code,
        {
            characters.push(code as char);
            code += 1;
            assert(characters@ =~= Seq::new((code - start) as nat, |i: int| (start + i) as u8 as char));
        }
        assert(characters@ =~= ascii_from(range.start as int));
        Ok(Self { characters, cased: true })
    }

    /// The small letters `a` to `z`.
    pub fn lowercase_letters() -> (a: Self)
        ensures
            a.chars() == unique_chars("abcdefghijklmnopqrstuvwxyz"@),
            a.is_cased(),
    {
        Self::of_cased("abcdefghijklmnopqrstuvwxyz")
    }

    /// The capital letters `A` to `Z`, capitals and small letters told apart.
    pub fn capital_letters() -> (a: Self)
        ensures
            a.chars() == unique_chars("ABCDEFGHIJKLMNOPQRSTUVWXYZ"@),
            a.is_cased(),
    {
        Self::of_cased("ABCDEFGHIJKLMNOPQRSTUVWXYZ")
    }

    /// The capital letters followed by the small letters.
    pub fn letters() -> (a: Self)
        ensures
            a.chars() == unique_chars(
                unique_chars("ABCDEFGHIJKLMNOPQRSTUVWXYZ"@) + unique_chars("abcdefghijklmnopqrstuvwxyz"@),
            ),
            a.is_cased(),
    {
        Self::capital_letters().union(&Self::lowercase_letters())
    }

    /// The digits, `1` to `9` and then `0`.
    pub fn numbers() -> (a: Self)
        ensures
            a.chars() == unique_chars("1234567890"@),
            a.is_cased(),
    {
        Self::of_cased("1234567890")
    }

    /// The letters followed by the digits.
    pub fn letters_and_numbers() -> (a: Self)
        ensures
            a.chars() == unique_chars(
                unique_chars(
                    unique_chars("ABCDEFGHIJKLMNOPQRSTUVWXYZ"@) + unique_chars(
                        "abcdefghijklmnopqrstuvwxyz"@,
                    ),
                ) + unique_chars("1234567890"@),
            ),
            a.is_cased(),
    {
        Self::letters().union(&Self::numbers())
    }

    /// The characters of Base64 in the order of their values: capitals, small
    /// letters, digits, `+` and `/`.
    pub fn base_64() -> (a: Self)
        ensures
            a.chars() == unique_chars(
                "ABCDEFGHIJKLMNOPQRSTUVWXYZabcdefghijklmnopqrstuvwxyz0123456789+/"@,
            ),
            a.is_cased(),
    {
        Self::of_cased("ABCDEFGHIJKLMNOPQRSTUVWXYZabcdefghijklmnopqrstuvwxyz0123456789+/")
    }

    /// The 128 characters of ASCII.
    pub fn ascii() -> (a: Self)
        ensures
            a.chars() == ascii_from(0),
            a.is_cased(),
    {
        let mut characters: Vec<char> = Vec::new();
        let mut code: u8 = 0;
        while code < 128
            invariant
                code <= 128,
                characters@ == Seq::new(code as nat, |i: int| i as u8 as char),
            decreases 128 - code,
        {
            characters.push(code as char);
            code += 1;
            assert(characters@ =~= Seq::new(code as nat, |i: int| i as u8 as char));
        }
        assert(characters@ =~= ascii_from(0));
        Self { characters, cased: true }
    }

    /// The index of coincidence that is expected of a long random text over this
    /// alphabet, which must hold a character: one over the number of its characters.
    pub fn random_index_of_coincidence(&self) -> (r: crate::analysis::Ratio)
        requires
            self.chars().len() > 0,
        ensures
            r.numerator == 1,
            r.denominator == self.chars().len(),
    {
        crate::analysis::Ratio { numerator: 1, denominator: self.characters.len() as u128 }
    }

    /// The characters of this alphabet, in order.
    pub fn characters(&self) -> (s: &[char])
        ensures
            s@ == self.chars(),
    {
        self.characters.as_slice()
    }

    /// The place of `character`, counted from 1; `None` where the alphabet does not
    /// hold it among its first 26 characters. A caseless alphabet looks for the capital
    /// of `character`.
    pub fn index_of(&self, character: char) -> (r: Option<AlphabetIndex>)
        ensures
            self.place(character) is Some ==> r is Some && r->Some_0.value() == self.place(character)->Some_0,
            self.place(character) is None ==> r is None,
    {
        let wanted = if self.cased {
            character
        } else {
            to_upper_letter(character)
        };
        let at = find_char(&self.characters, wanted);
        if at < self.characters.len() && at < 26 {
            Some(AlphabetIndex(at as u8 + 1))
        } else {
            None
        }
    }

    /// The letter at the place `index`, counted from 1.
    pub fn letter_at(&self, index: AlphabetIndex) -> (c: &char)
        requires
            index.value() <= self.chars().len(),
        ensures
            *c == self.chars()[index.value() - 1],
    {
        &self.characters[(index.get() - 1) as usize]
    }

    /// The characters of this alphabet followed by those of `other` that it does not
    /// hold, each once.
    pub fn union(&self, other: &Self) -> (a: Self)
        ensures
            a.chars() == unique_chars(self.chars() + other.chars()),
            a.is_cased(),
    {
        let mut all: Vec<char> = Vec::new();
        let mut i: usize = 0;
        while i < self.characters.len()
            invariant
                i <= self.characters.len(),
                all@ == self.characters@.take(i as int),
            decreases self.characters.len() - i,
        {
            all.push(self.characters[i]);
            assert(self.characters@.take(i + 1) =~= self.characters@.take(i as int).push(
                self.characters@[i as int],
            ));
            i += 1;
        }
        let mut j: usize = 0;
        assert(self.characters@.take(self.characters.len() as int) == self.characters@);
        assert(all@ =~= self.characters@ + other.characters@.take(0));
        while j < other.characters.len()
            invariant
                j <= other.characters.len(),
                all@ == self.characters@ + other.characters@.take(j as int),
            decreases other.characters.len() - j,
        {
            all.push(other.characters[j]);
            assert(self.characters@ + other.characters@.take(j + 1) =~= (self.characters@
                + other.characters@.take(j as int)).push(other.characters@[j as int]));
            j += 1;
        }
        assert(other.characters@.take(other.characters.len() as int) == other.characters@);
        Self { characters: unique_of(&all), cased: true }
    }

    /// This alphabet turned by `shift` places and put in capitals: its letter at each
    /// place is the capital of the letter that stood `shift` places later, wrapping
    /// round after the 26th. The alphabet must be 26 Latin letters whose capitals all
    /// differ. The result is caseless.
    pub fn shift(&self, shift: u8) -> (a: Self)
        requires
            capital_alphabet(ascii_upper_seq(self.chars())),
        ensures
            a.chars() == Seq::new(26, |i: int| ascii_upper(self.chars()[(i + shift) % 26])),
            !a.is_cased(),
            a.wf(),
    {
        let mut characters: Vec<char> = Vec::new();
        let mut i: usize = 0;
        let ghost upper = ascii_upper_seq(self.chars());
        while i < 26
            invariant
                i <= 26,
                self.characters@.len() == 26,
                characters@ == Seq::new(i as nat, |k: int| ascii_upper(self.characters@[(k + shift) % 26])),
            decreases 26 - i,
        {
            characters.push(to_upper_letter(self.characters[(i + shift as usize) % 26]));
            assert(characters@ =~= Seq::new(
                (i + 1) as nat,
                |k: int| ascii_upper(self.characters@[(k + shift) % 26]),
            ));
            i += 1;
        }
        let a = Self { characters, cased: false };
        proof {
            assert forall|x: int| 0 <= x < 26 implies is_upper(#[trigger] a.chars()[x]) by {
                let p = (x + shift) % 26;
                assert(is_upper(upper[p]));
            }
            assert forall|x: int, y: int| 0 <= x < y < 26 implies a.chars()[x] != a.chars()[y] by {
                let p = (x + shift) % 26;
                let q = (y + shift) % 26;
                assert(p != q);
                assert(a.chars()[x] == upper[p] && a.chars()[y] == upper[q]);
                if p < q {
                    assert(upper[p] != upper[q]);
                } else {
                    assert(upper[q] != upper[p]);
                }
            }
        }
        a
    }
}

impl Default for Alphabet {
    /// The capital letters `A` to `Z`, caseless.
    fn default() -> (a: Self)
        ensures
            a.chars() == Seq::new(26, |i: int| (65 + i) as u8 as char),
            !a.is_cased(),
            a.wf(),
    {
        let mut characters: Vec<char> = Vec::new();
        let mut i: u8 = 0;
        while i < 26
            invariant
                i <= 26,
                characters@ == Seq::new(i as nat, |k: int| (65 + k) as u8 as char),
            decreases 26 - i,
        {
            characters.push((65 + i) as char);
            assert(characters@ =~= Seq::new((i + 1) as nat, |k: int| (65 + k) as u8 as char));
            i += 1;
        }
        Alphabet { characters, cased: false }
    }
}

/// Whether `chars` spells an alphabet: 26 Latin letters, none twice, and capitals only
/// unless `cased`.
fn validate(chars: &Vec<char>, cased: bool) -> (ok: bool)
    ensures
        ok == (if cased {
            cased_alphabet(chars@)
        } else {
            capital_alphabet(chars@)
        }),
{
    if chars.len() != 26 {
        return false;
    }
    let mut i: usize = 0;
    while i < 26
        invariant
            i <= 26,
            chars.len() == 26,
            forall|k: int| 0 <= k < i ==> (if cased {
                is_letter(#[trigger] chars@[k])
            } else {
                is_upper(chars@[k])
            }),
            forall|k: int, l: int| 0 <= k < l < i ==> chars@[k] != chars@[l],
        decreases 26 - i,
    {
        let c = chars[i];
        let capital = 'A' <= c && c <= 'Z';
        let small = 'a' <= c && c <= 'z';
        if !(capital || (cased && small)) {
            return false;
        }
        let mut j: usize = 0;
        while j < i
            invariant
                j <= i,
                i < 26,
                chars.len() == 26,
                c == chars@[i as int],
                forall|k: int| 0 <= k < j ==> chars@[k] != c,
            decreases i - j,
        {
            if chars[j] == c {
                return false;
            }
            j += 1;
        }
        i += 1;
    }
    true
}

/// The characters of `chars` without repetitions, in the order in which they first occur.
fn unique_of(chars: &Vec<char>) -> (unique: Vec<char>)
    ensures
        unique@ == unique_chars(chars@),
{
    let mut unique: Vec<char> = Vec::new();
    let mut i: usize = 0;
    assert(chars@.skip(0) == chars@);
    while i < chars.len()
        invariant
            i <= chars.len(),
            unique_after(unique@, chars@.skip(i as int)) == unique_chars(chars@),
        decreases chars.len() - i,
    {
        let c = chars[i];
        let ghost rest = chars@.skip(i as int);
        assert(rest.len() > 0 && rest[0] == c);
        assert(rest.drop_first() == chars@.skip(i + 1));
        let at = find_char(&unique, c);
        proof {
            lemma_first_place(unique@, c);
        }
        if at == unique.len() {
            unique.push(c);
        }
        i += 1;
    }
    assert(chars@.skip(chars.len() as int).len() == 0);
    unique
}

/// In an alphabet for a cipher, looking a letter up and taking the letter at the place
/// found gives the letter back, and every letter of the alphabet is found at its place.
pub proof fn law_index_letter_round_trip(a: Alphabet, i: int)
    requires
        a.wf(),
        0 <= i < 26,
    ensures
        a.place(a.chars()[i]) == Some(i + 1),
        a.chars()[a.place(a.chars()[i])->Some_0 - 1] == a.chars()[i],
{
    let c = a.chars()[i];
    assert(a.folded(c) == c) by {
        if !a.is_cased() {
            assert(is_upper(a.chars()[i]));
        }
    }
    lemma_first_place_is(a.chars(), c, i);
}

} // verus!
