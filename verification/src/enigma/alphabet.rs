//! Orderings of the 26 capital letters, and indices into them.

use vstd::prelude::*;
use vstd::string::{StrSliceExecFns, StringSliceAdditionalSpecFns};
use crate::error::CipherError;
use crate::text::{chars_of, is_letter, ascii_upper, to_upper_letter, low_byte, low_byte_of};

verus! {

/// Whether `code` is the code of a capital letter `A` to `Z`.
pub open spec fn is_upper_code(code: u8) -> bool {
    65 <= code && code <= 90
}

/// Whether `code` is the code of a Latin letter of either case.
pub open spec fn is_letter_code(code: u8) -> bool {
    (65 <= code && code <= 90) || (97 <= code && code <= 122)
}

/// Whether `i` is the first place at which `s` holds `v`.
pub open spec fn is_first_at(s: Seq<u8>, v: u8, i: int) -> bool {
    &&& 0 <= i < s.len()
    &&& s[i] == v
    &&& forall|j: int| 0 <= j < i ==> s[j] != v
}

/// The first place at which `s` holds `v`, where it holds `v` at all.
#[verifier::opaque]
pub open spec fn position(s: Seq<u8>, v: u8) -> int {
    choose|i: int| is_first_at(s, v, i)
}

/// Whether no code occurs twice in `s`.
pub open spec fn distinct(s: Seq<u8>) -> bool {
    forall|i: int, j: int| 0 <= i < j < s.len() ==> s[i] != s[j]
}

/// The first place of a code is unique, so any first place is `position`.
pub proof fn lemma_position(s: Seq<u8>, v: u8, i: int)
    requires
        is_first_at(s, v, i),
    ensures
        position(s, v) == i,
{
    reveal(position);
    let p = position(s, v);
    assert(is_first_at(s, v, p));
    if p < i {
        assert(s[p] != v);
    } else if i < p {
        assert(s[i] != v);
    }
}

/// A code that `s` holds has a first place.
pub proof fn lemma_position_exists(s: Seq<u8>, v: u8)
    requires
        s.contains(v),
    ensures
        is_first_at(s, v, position(s, v)),
    decreases s.len(),
{
    reveal(position);
    let k = choose|k: int| 0 <= k < s.len() && s[k] == v;
    lemma_first_before(s, v, k);
}

proof fn lemma_first_before(s: Seq<u8>, v: u8, k: int)
    requires
        0 <= k < s.len(),
        s[k] == v,
    ensures
        exists|i: int| is_first_at(s, v, i),
    decreases k,
{
    if exists|j: int| 0 <= j < k && s[j] == v {
        let j = choose|j: int| 0 <= j < k && s[j] == v;
        lemma_first_before(s, v, j);
    } else {
        assert(is_first_at(s, v, k));
    }
}

/// A position in an alphabet of 26 letters: a number from 0 to 25.
#[derive(Clone, Copy, Debug, PartialEq, Eq, Structural, PartialOrd, Ord, Hash)]
pub struct AlphabetIndex(u8);

impl AlphabetIndex {
    #[verifier::type_invariant]
    spec fn in_range(self) -> bool {
        self.0 < 26
    }

    /// The number that this index stands for.
    pub closed spec fn value(self) -> int {
        self.0 as int
    }

    /// The index for `value`, which must be below 26.
    pub fn try_from(value: u8) -> (r: Result<Self, CipherError>)
        ensures
            value < 26 ==> r is Ok && r->Ok_0.value() == value,
            value >= 26 ==> r == Err::<Self, CipherError>(CipherError::InvalidConfiguration),
    {
        if value < 26 {
            Ok(Self(value))
        } else {
            Err(CipherError::InvalidConfiguration)
        }
    }

    /// The index for a signed `value`, which must be at least 0 and below 26.
    pub fn try_from_i32(value: i32) -> (r: Result<Self, CipherError>)
        ensures
            0 <= value < 26 ==> r is Ok && r->Ok_0.value() == value,
            !(0 <= value < 26) ==> r == Err::<Self, CipherError>(CipherError::InvalidConfiguration),
    {
        if 0 <= value && value < 26 {
            Ok(Self(value as u8))
        } else {
            Err(CipherError::InvalidConfiguration)
        }
    }

    /// The number that this index stands for.
    pub fn get(&self) -> (v: u8)
        ensures
            v == self.value(),
            v < 26,
    {
        proof {
            use_type_invariant(self);
        }
        self.0
    }

    /// This index moved forward by `rhs` places, wrapping round after 25.
    pub fn add_mod(self, rhs: AlphabetIndex) -> (r: AlphabetIndex)
        ensures
            r.value() == (self.value() + rhs.value()) % 26,
    {
        proof {
            use_type_invariant(self);
            use_type_invariant(rhs);
        }
        AlphabetIndex((self.0 + rhs.0) % 26)
    }

    /// This index moved back by `rhs` places, wrapping round before 0.
    pub fn sub_mod(self, rhs: AlphabetIndex) -> (r: AlphabetIndex)
        ensures
            r.value() == (self.value() - rhs.value() + 26) % 26,
    {
        proof {
            use_type_invariant(self);
            use_type_invariant(rhs);
        }
        AlphabetIndex((self.0 + 26 - rhs.0) % 26)
    }

    /// This index moved forward by one place, wrapping round after 25.
    pub fn next(self) -> (r: AlphabetIndex)
        ensures
            r.value() == (self.value() + 1) % 26,
    {
        proof {
            use_type_invariant(self);
        }
        AlphabetIndex((self.0 + 1) % 26)
    }
}

/// Three numbers turned into three alphabet indices, all or none.
pub trait IntoAlphabetIndex: Sized {
    /// The three numbers that are to become indices.
    spec fn numbers(self) -> (int, int, int);

    /// The indices of the three numbers; fails unless each is at least 0 and below 26.
    fn try_into_alphabet_index(self) -> (r: Result<(AlphabetIndex, AlphabetIndex, AlphabetIndex), CipherError>)
        ensures
            valid_triple(self.numbers()) ==> r is Ok && triple_values(r->Ok_0) == self.numbers(),
            !valid_triple(self.numbers()) ==> r == Err::<(AlphabetIndex, AlphabetIndex, AlphabetIndex), CipherError>(
                CipherError::InvalidConfiguration,
            ),
    ;
}

/// Whether each of three numbers is at least 0 and below 26.
pub open spec fn valid_triple(n: (int, int, int)) -> bool {
    0 <= n.0 < 26 && 0 <= n.1 < 26 && 0 <= n.2 < 26
}

/// The numbers that three indices stand for.
pub open spec fn triple_values(t: (AlphabetIndex, AlphabetIndex, AlphabetIndex)) -> (int, int, int) {
    (t.0.value(), t.1.value(), t.2.value())
}

impl IntoAlphabetIndex for (u8, u8, u8) {
    open spec fn numbers(self) -> (int, int, int) {
        (self.0 as int, self.1 as int, self.2 as int)
    }

    fn try_into_alphabet_index(self) -> (r: Result<(AlphabetIndex, AlphabetIndex, AlphabetIndex), CipherError>) {
        if self.0 < 26 && self.1 < 26 && self.2 < 26 {
            Ok((AlphabetIndex(self.0), AlphabetIndex(self.1), AlphabetIndex(self.2)))
        } else {
            Err(CipherError::InvalidConfiguration)
        }
    }
}

impl IntoAlphabetIndex for (i32, i32, i32) {
    open spec fn numbers(self) -> (int, int, int) {
        (self.0 as int, self.1 as int, self.2 as int)
    }

    fn try_into_alphabet_index(self) -> (r: Result<(AlphabetIndex, AlphabetIndex, AlphabetIndex), CipherError>) {
        if 0 <= self.0 && self.0 < 26 && 0 <= self.1 && self.1 < 26 && 0 <= self.2 && self.2 < 26 {
            Ok((AlphabetIndex(self.0 as u8), AlphabetIndex(self.1 as u8), AlphabetIndex(self.2 as u8)))
        } else {
            Err(CipherError::InvalidConfiguration)
        }
    }
}

/// The codes of the characters of `s`, each cut to its lowest eight bits.
pub open spec fn codes_of(s: Seq<char>) -> Seq<u8> {
    Seq::new(s.len(), |i: int| low_byte_of(s[i]))
}

/// The characters whose code points are the codes of `s`.
pub open spec fn letters_of(s: Seq<u8>) -> Seq<char> {
    Seq::new(s.len(), |i: int| s[i] as char)
}

/// Whether `s` spells an alphabet: 26 Latin letters, none of them twice.
pub open spec fn is_alphabet_text(s: Seq<char>) -> bool {
    &&& s.len() == 26
    &&& forall|i: int| 0 <= i < s.len() ==> is_letter(#[trigger] s[i])
    &&& forall|i: int, j: int| 0 <= i < j < s.len() ==> s[i] != s[j]
}

/// Whether `s` holds the code of each capital letter `A` to `Z` exactly once.
pub open spec fn permutation(s: Seq<u8>) -> bool {
    &&& s.len() == 26
    &&& forall|i: int| 0 <= i < 26 ==> is_upper_code(#[trigger] s[i])
    &&& distinct(s)
    &&& forall|code: u8| is_upper_code(code) ==> #[trigger] s.contains(code)
}

/// An ordering of letters, held as their codes.
#[derive(Clone, Debug)]
pub struct Alphabet {
    letters: Vec<u8>,
}

impl View for Alphabet {
    type V = Seq<u8>;

    closed spec fn view(&self) -> Seq<u8> {
        self.letters@
    }
}

impl Alphabet {
    /// Whether this alphabet holds 26 Latin letters, none of them twice.
    pub open spec fn wf(&self) -> bool {
        &&& self@.len() == 26
        &&& forall|i: int| 0 <= i < 26 ==> is_letter_code(#[trigger] self@[i])
        &&& distinct(self@)
    }

    /// Whether this alphabet holds each capital letter `A` to `Z` exactly once.
    pub open spec fn is_permutation(&self) -> bool {
        permutation(self@)
    }

    /// The letters `A` to `Z` in their usual order.
    pub fn standard() -> (a: Alphabet)
        ensures
            a@ == Seq::new(26, |i: int| (65 + i) as u8),
            a.is_permutation(),
    {
        let mut letters: Vec<u8> = Vec::new();
        let mut i: u8 = 0;
        while i < 26
            invariant
                i <= 26,
                letters@ == Seq::new(i as nat, |k: int| (65 + k) as u8),
            decreases 26 - i,
        {
            letters.push(65 + i);
            i += 1;
        }
        let a = Alphabet { letters };
        proof {
            assert forall|code: u8| is_upper_code(code) implies #[trigger] a@.contains(code) by {
                assert(a@[code - 65] == code);
            }
        }
        a
    }

    /// The alphabet that `alphabet` spells, which must be 26 Latin letters with none repeated.
    pub fn new(alphabet: &str) -> (r: Result<Alphabet, CipherError>)
        ensures
            is_alphabet_text(alphabet@) ==> r is Ok && r->Ok_0@ == codes_of(alphabet@) && r->Ok_0.wf(),
            !is_alphabet_text(alphabet@) ==> r is Err && r->Err_0 == CipherError::InvalidAlphabet,
    {
        let chars = chars_of(alphabet);
        if chars.len() != 26 {
            return Err(CipherError::InvalidAlphabet);
        }
        let mut letters: Vec<u8> = Vec::new();
        let mut i: usize = 0;
        while i < 26
            invariant
                i <= 26,
                chars@ == alphabet@,
                chars.len() == 26,
                letters@ == codes_of(alphabet@.take(i as int)),
                forall|k: int| 0 <= k < i ==> is_letter(#[trigger] alphabet@[k]),
                forall|k: int, l: int| 0 <= k < l < i ==> alphabet@[k] != alphabet@[l],
            decreases 26 - i,
        {
            let c = chars[i];
            if !(('A' <= c && c <= 'Z') || ('a' <= c && c <= 'z')) {
                return Err(CipherError::InvalidAlphabet);
            }
            let mut j: usize = 0;
            while j < i
                invariant
                    j <= i,
                    i < 26,
                    chars@ == alphabet@,
                    chars.len() == 26,
                    c == chars@[i as int],
                    forall|k: int| 0 <= k < j ==> alphabet@[k] != c,
                decreases i - j,
            {
                if chars[j] == c {
                    return Err(CipherError::InvalidAlphabet);
                }
                j += 1;
            }
            letters.push(low_byte(c));
            assert(alphabet@.take(i + 1).drop_last() == alphabet@.take(i as int));
            assert(letters@ =~= codes_of(alphabet@.take(i + 1)));
            i += 1;
        }
        assert(alphabet@.take(26) == alphabet@);
        let a = Alphabet { letters };
        assert(a.wf()) by {
            assert forall|k: int, l: int| 0 <= k < l < 26 implies a@[k] != a@[l] by {
                assert(is_letter(alphabet@[k]) && is_letter(alphabet@[l]));
                assert(alphabet@[k] != alphabet@[l]);
            }
            assert forall|k: int| 0 <= k < 26 implies is_letter_code(#[trigger] a@[k]) by {
                assert(is_letter(alphabet@[k]));
            }
        }
        Ok(a)
    }

    /// The alphabet made of the bytes of `alphabet`, whatever they are.
    pub fn new_unchecked(alphabet: &str) -> (a: Alphabet)
        ensures
            a@ == alphabet.spec_bytes(),
    {
        Alphabet { letters: alphabet.as_bytes_vec() }
    }

    /// The place of `letter` in this alphabet, capitals and small letters alike;
    /// `None` for a character whose capital the alphabet does not hold.
    pub fn index_of(&self, letter: char) -> (r: Option<AlphabetIndex>)
        requires
            self@.len() <= 26,
        ensures
            (is_letter(letter) && self@.contains(low_byte_of(ascii_upper(letter)))) ==> r is Some
                && r->Some_0.value() == position(self@, low_byte_of(ascii_upper(letter))),
            !(is_letter(letter) && self@.contains(low_byte_of(ascii_upper(letter)))) ==> r is None,
    {
        let upper = to_upper_letter(letter);
        if !('A' <= upper && upper <= 'Z') {
            return None;
        }
        let code = low_byte(upper);
        let mut i: usize = 0;
        while i < self.letters.len()
            invariant
                i <= self.letters.len(),
                self.letters.len() <= 26,
                self@ == self.letters@,
                is_letter(letter),
                code == low_byte_of(ascii_upper(letter)),
                forall|j: int| 0 <= j < i ==> self.letters@[j] != code,
            decreases self.letters.len() - i,
        {
            if self.letters[i] == code {
                proof {
                    lemma_position(self@, code, i as int);
                }
                return Some(AlphabetIndex(i as u8));
            }
            i += 1;
        }
        None
    }

    /// The place of `letter` in this alphabet, which must hold it.
    pub fn unchecked_index_of(&self, letter: char) -> (r: u8)
        requires
            self@.len() <= 256,
            self@.contains(low_byte_of(letter)),
        ensures
            r == position(self@, low_byte_of(letter)),
            is_first_at(self@, low_byte_of(letter), r as int),
    {
        let code = low_byte(letter);
        let mut i: usize = 0;
        while i < self.letters.len()
            invariant
                i <= self.letters.len(),
                self.letters.len() <= 256,
                self@ == self.letters@,
                code == low_byte_of(letter),
                self.letters@.contains(code),
                forall|j: int| 0 <= j < i ==> self.letters@[j] != code,
            decreases self.letters.len() - i,
        {
            if self.letters[i] == code {
                proof {
                    lemma_position(self@, code, i as int);
                }
                return i as u8;
            }
            i += 1;
        }
        proof {
            let k = choose|k: int| 0 <= k < self.letters@.len() && self.letters@[k] == code;
            assert(false);
        }
        0
    }

    /// The letter at `index`.
    pub fn letter_at(&self, index: AlphabetIndex) -> (c: char)
        requires
            self@.len() == 26,
        ensures
            c == self@[index.value()] as char,
    {
        self.letters[index.get() as usize] as char
    }

    /// The letters of this alphabet in order, as a string.
    pub fn letters(&self) -> (s: String)
        requires
            forall|i: int| 0 <= i < self@.len() ==> #[trigger] self@[i] < 128,
        ensures
            s@ == letters_of(self@),
    {
        let mut s = String::new();
        let mut i: usize = 0;
        while i < self.letters.len()
            invariant
                i <= self.letters.len(),
                s@ == letters_of(self.letters@.take(i as int)),
            decreases self.letters.len() - i,
        {
            s.push(self.letters[i] as char);
            assert(self.letters@.take(i + 1).drop_last() == self.letters@.take(i as int));
            assert(s@ =~= letters_of(self.letters@.take(i + 1)));
            i += 1;
        }
        assert(self.letters@.take(self.letters.len() as int) == self.letters@);
        s
    }

    /// The letter at `index`, which must be a place of this alphabet.
    pub fn unchecked_letter_at(&self, index: u8) -> (c: char)
        requires
            index < self@.len(),
        ensures
            c == self@[index as int] as char,
    {
        self.letters[index as usize] as char
    }
}

/// Whether one of the first `n` codes of `w` is `code`.
pub open spec fn found_below(w: Seq<u8>, code: u8, n: nat) -> bool
    decreases n,
{
    n > 0 && (w[n - 1] == code || found_below(w, code, (n - 1) as nat))
}

/// A code found among the first `n` codes of `w` is held by `w`.
pub proof fn lemma_found_below(w: Seq<u8>, code: u8, n: nat)
    requires
        n <= w.len(),
        found_below(w, code, n),
    ensures
        w.contains(code),
    decreases n,
{
    if w[n - 1] == code {
    } else {
        lemma_found_below(w, code, (n - 1) as nat);
    }
}

/// A text whose codes hold each capital once spells an alphabet.
pub proof fn lemma_permutation_text(s: Seq<char>)
    requires
        s.len() == 26,
        forall|i: int| 0 <= i < 26 ==> 'A' <= #[trigger] s[i] <= 'Z',
        permutation(codes_of(s)),
    ensures
        is_alphabet_text(s),
{
    assert forall|i: int, j: int| 0 <= i < j < s.len() implies s[i] != s[j] by {
        assert(codes_of(s)[i] != codes_of(s)[j]);
    }
}

/// Whether `s` is 26 capital letters whose codes hold each capital once.
pub open spec fn capital_permutation(s: Seq<char>) -> bool {
    &&& s.len() == 26
    &&& forall|i: int| 0 <= i < 26 ==> 'A' <= #[trigger] s[i] <= 'Z'
    &&& permutation(codes_of(s))
}

/// Codes that are capitals, differ pairwise and are all found in a search are a permutation.
pub proof fn lemma_searched_permutation(s: Seq<char>)
    requires
        s.len() == 26,
        forall|i: int| 0 <= i < 26 ==> 'A' <= #[trigger] s[i] <= 'Z',
        forall|i: int, j: int| 0 <= i < j < 26 ==> s[i] != s[j],
        forall|code: u8| 65 <= code <= 90 ==> #[trigger] found_below(codes_of(s), code, 26),
    ensures
        capital_permutation(s),
{
    let w = codes_of(s);
    assert forall|code: u8| 65 <= code <= 90 implies #[trigger] w.contains(code) by {
        assert(found_below(w, code, 26));
        lemma_found_below(w, code, 26);
    }
    assert forall|i: int, j: int| 0 <= i < j < 26 implies w[i] != w[j] by {
        assert('A' <= s[i] <= 'Z' && 'A' <= s[j] <= 'Z');
    }
    assert forall|i: int| 0 <= i < 26 implies 65 <= #[trigger] w[i] <= 90 by {
        assert('A' <= s[i] <= 'Z');
    }
}

} // verus!
