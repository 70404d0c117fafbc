//! Unordered sets of characters, and the reference sets that texts are held against.

use vstd::prelude::*;
use crate::text::{
    alphabetic, alphanumeric, chars_of, find_char, first_place, is_alphabetic, is_alphanumeric,
    is_letter, lemma_first_place,
};

verus! {

/// Whether `c` is a Latin letter or a digit.
pub open spec fn is_letter_or_digit(c: char) -> bool {
    is_letter(c) || ('0' <= c && c <= '9')
}

/// An unordered set of characters.
#[derive(Debug)]
pub struct CharacterSet {
    characters: Vec<char>,
}

impl Clone for CharacterSet {
    fn clone(&self) -> (set: Self)
        ensures
            set@ == self@,
    {
        proof {
            use_type_invariant(self);
        }
        let mut characters: Vec<char> = Vec::new();
        let mut i: usize = 0;
        while i < self.characters.len()
            invariant
                i <= self.characters.len(),
                characters@ == self.characters@.take(i as int),
            decreases self.characters.len() - i,
        {
            characters.push(self.characters[i]);
            assert(self.characters@.take(i + 1) =~= self.characters@.take(i as int).push(
                self.characters@[i as int],
            ));
            i += 1;
        }
        assert(self.characters@.take(self.characters.len() as int) == self.characters@);
        CharacterSet { characters }
    }
}

impl View for CharacterSet {
    type V = Set<char>;

    closed spec fn view(&self) -> Set<char> {
        self.characters@.to_set()
    }
}

impl CharacterSet {
    #[verifier::type_invariant]
    spec fn no_repeats(self) -> bool {
        self.characters@.no_duplicates()
    }

    /// The set of the Latin letters and digits that occur in `text`.
    pub fn of(text: &str) -> (set: Self)
        ensures
            forall|c: char| set@.contains(c) <==> (text@.contains(c) && is_letter_or_digit(c)),
    {
        let chars = chars_of(text);
        let mut characters: Vec<char> = Vec::new();
        let mut i: usize = 0;
        while i < chars.len()
            invariant
                i <= chars.len(),
                chars@ == text@,
                characters@.no_duplicates(),
                forall|c: char|
                    #[trigger] characters@.contains(c) <==> (chars@.take(i as int).contains(c)
                        && is_letter_or_digit(c)),
            decreases chars.len() - i,
        {
            let c = chars[i];
            let ghost before = characters@;
            let keep = ('a' <= c && c <= 'z') || ('A' <= c && c <= 'Z') || ('0' <= c && c <= '9');
            let at = find_char(&characters, c);
            proof {
                lemma_found(characters@, c);
            }
            if keep && at == characters.len() {
                characters.push(c);
            }
            proof {
                lemma_taken(chars@, i as int);
                assert forall|d: char|
                    #[trigger] characters@.contains(d) <==> (chars@.take(i + 1).contains(d)
                        && is_letter_or_digit(d)) by {
                    assert(before.contains(d) <==> (chars@.take(i as int).contains(d) && is_letter_or_digit(d)));
                    lemma_pushed(before, characters@, c, d);
                }
            }
            i += 1;
        }
        assert(chars@.take(chars.len() as int) == chars@);
        let set = Self { characters };
        proof {
            assert forall|c: char| set@.contains(c) <==> (text@.contains(c) && is_letter_or_digit(c)) by {
                lemma_found(set.characters@, c);
                assert(set.characters@.contains(c) <==> (chars@.contains(c) && is_letter_or_digit(c)));
            }
        }
        set
    }

    /// The set of all characters that occur in `text`.
    pub fn raw(text: &str) -> (set: Self)
        ensures
            forall|c: char| set@.contains(c) <==> text@.contains(c),
            set@ == text@.to_set(),
    {
        let chars = chars_of(text);
        let mut characters: Vec<char> = Vec::new();
        let mut i: usize = 0;
        while i < chars.len()
            invariant
                i <= chars.len(),
                chars@ == text@,
                characters@.no_duplicates(),
                forall|c: char| #[trigger] characters@.contains(c) <==> chars@.take(i as int).contains(c),
            decreases chars.len() - i,
        {
            let c = chars[i];
            let ghost before = characters@;
            let at = find_char(&characters, c);
            proof {
                lemma_found(characters@, c);
            }
            if at == characters.len() {
                characters.push(c);
            }
            proof {
                lemma_taken(chars@, i as int);
                assert forall|d: char| characters@.contains(d) <==> chars@.take(i + 1).contains(d) by {
                    lemma_pushed(before, characters@, c, d);
                }
            }
            i += 1;
        }
        assert(chars@.take(chars.len() as int) == chars@);
        let set = Self { characters };
        proof {
            assert forall|c: char| set@.contains(c) <==> text@.contains(c) by {
                lemma_found(set.characters@, c);
            }
            assert(set@ =~= text@.to_set());
        }
        set
    }

    /// Whether the set holds `character`.
    pub fn contains(&self, character: char) -> (b: bool)
        ensures
            b == self@.contains(character),
    {
        let at = find_char(&self.characters, character);
        proof {
            lemma_found(self.characters@, character);
        }
        at < self.characters.len()
    }

    /// The characters of the set, each once, in no particular order.
    pub fn characters(&self) -> (s: &[char])
        ensures
            s@.no_duplicates(),
            s@.to_set() == self@,
    {
        proof {
            use_type_invariant(self);
        }
        self.characters.as_slice()
    }

    /// Whether every character of the set is alphabetic.
    pub fn is_alphabetic(&self) -> (b: bool)
        ensures
            b == forall|c: char| self@.contains(c) ==> alphabetic(c),
    {
        let mut i: usize = 0;
        while i < self.characters.len()
            invariant
                i <= self.characters.len(),
                forall|k: int| 0 <= k < i ==> alphabetic(#[trigger] self.characters@[k]),
            decreases self.characters.len() - i,
        {
            if !is_alphabetic(self.characters[i]) {
                assert(self@.contains(self.characters@[i as int]));
                return false;
            }
            i += 1;
        }
        true
    }

    /// Whether every character of the set is alphabetic or numeric.
    pub fn is_alphanumeric(&self) -> (b: bool)
        ensures
            b == forall|c: char| self@.contains(c) ==> alphanumeric(c),
    {
        let mut i: usize = 0;
        while i < self.characters.len()
            invariant
                i <= self.characters.len(),
                forall|k: int| 0 <= k < i ==> alphanumeric(#[trigger] self.characters@[k]),
            decreases self.characters.len() - i,
        {
            if !is_alphanumeric(self.characters[i]) {
                assert(self@.contains(self.characters@[i as int]));
                return false;
            }
            i += 1;
        }
        true
    }

    /// Whether every character of `other` is in this set.
    pub fn is_superset_of(&self, other: &CharacterSet) -> (b: bool)
        ensures
            b == other@.subset_of(self@),
    {
        let mut i: usize = 0;
        while i < other.characters.len()
            invariant
                i <= other.characters.len(),
                forall|k: int| 0 <= k < i ==> self@.contains(#[trigger] other.characters@[k]),
            decreases other.characters.len() - i,
        {
            if !self.contains(other.characters[i]) {
                assert(other@.contains(other.characters@[i as int]));
                return false;
            }
            i += 1;
        }
        true
    }

    /// The set of the characters that are in this set or in `other`.
    pub fn union(self, other: CharacterSet) -> (set: CharacterSet)
        ensures
            set@ == self@.union(other@),
    {
        proof {
            use_type_invariant(&self);
        }
        let mut characters = self.characters;
        let ghost mine = characters@;
        let mut i: usize = 0;
        while i < other.characters.len()
            invariant
                i <= other.characters.len(),
                characters@.no_duplicates(),
                forall|c: char|
                    #[trigger] characters@.contains(c) <==> (mine.contains(c) || other.characters@.take(
                        i as int,
                    ).contains(c)),
            decreases other.characters.len() - i,
        {
            let c = other.characters[i];
            let ghost before = characters@;
            let at = find_char(&characters, c);
            proof {
                lemma_found(characters@, c);
            }
            if at == characters.len() {
                characters.push(c);
            }
            proof {
                lemma_taken(other.characters@, i as int);
                assert forall|d: char|
                    #[trigger] characters@.contains(d) <==> (mine.contains(d) || other.characters@.take(
                        i + 1,
                    ).contains(d)) by {
                    assert(before.contains(d) <==> (mine.contains(d) || other.characters@.take(i as int).contains(
                        d,
                    )));
                    lemma_pushed(before, characters@, c, d);
                }
            }
            i += 1;
        }
        assert(other.characters@.take(other.characters.len() as int) == other.characters@);
        let set = CharacterSet { characters };
        proof {
            assert forall|d: char| set@.contains(d) <==> self@.union(other@).contains(d) by {
                lemma_found(set.characters@, d);
                lemma_found(mine, d);
                lemma_found(other.characters@, d);
            }
            assert(set@ =~= self@.union(other@));
        }
        set
    }

    /// The small letters `a` to `z`.
    pub fn lowercase_alphabetic() -> (set: Self)
        ensures
            set@ == "abcdefghijklmnopqrstuvwxyz"@.to_set(),
    {
        Self::raw("abcdefghijklmnopqrstuvwxyz")
    }

    /// The capital letters `A` to `Z`.
    pub fn uppercase_alphabetic() -> (set: Self)
        ensures
            set@ == "ABCDEFGHIJKLMNOPQRSTUVWXYZ"@.to_set(),
    {
        Self::raw("ABCDEFGHIJKLMNOPQRSTUVWXYZ")
    }

    /// The Latin letters of both cases.
    pub fn alphabetic() -> (set: Self)
        ensures
            set@ == "abcdefghijklmnopqrstuvwxyzABCDEFGHIJKLMNOPQRSTUVWXYZ"@.to_set(),
    {
        Self::raw("abcdefghijklmnopqrstuvwxyzABCDEFGHIJKLMNOPQRSTUVWXYZ")
    }

    /// The characters of Base64 text: letters, digits, `+` and `/`.
    pub fn base_64() -> (set: Self)
        ensures
            set@ == "abcdefghijklmnopqrstuvwxyzABCDEFGHIJKLMNOPQRSTUVWXYZ0123456789+/"@.to_set(),
    {
        Self::raw("abcdefghijklmnopqrstuvwxyzABCDEFGHIJKLMNOPQRSTUVWXYZ0123456789+/")
    }

    /// The signs of Morse code: `-`, `.` and `/`.
    pub fn morse() -> (set: Self)
        ensures
            set@ == "-./"@.to_set(),
    {
        Self::raw("-./")
    }

    /// The digits `0` to `9`.
    pub fn numeric() -> (set: Self)
        ensures
            set@ == "0123456789"@.to_set(),
    {
        Self::raw("0123456789")
    }

    /// The Latin letters and the digits.
    pub fn alphanumeric() -> (set: Self)
        ensures
            set@ == "abcdefghijklmnopqrstuvwxyzABCDEFGHIJKLMNOPQRSTUVWXYZ0123456789"@.to_set(),
    {
        Self::raw("abcdefghijklmnopqrstuvwxyzABCDEFGHIJKLMNOPQRSTUVWXYZ0123456789")
    }

    /// The hexadecimal digits of both cases.
    pub fn hex() -> (set: Self)
        ensures
            set@ == "0123456789ABCDEFabcdef"@.to_set(),
    {
        Self::raw("0123456789ABCDEFabcdef")
    }

    /// The octal digits `0` to `7`.
    pub fn octal() -> (set: Self)
        ensures
            set@ == "01234567"@.to_set(),
    {
        Self::raw("01234567")
    }

    /// The binary digits `0` and `1`.
    pub fn binary() -> (set: Self)
        ensures
            set@ == "01"@.to_set(),
    {
        Self::raw("01")
    }
}

/// A list holds a character exactly if the character's first place is in the list.
proof fn lemma_found(s: Seq<char>, c: char)
    ensures
        s.contains(c) <==> first_place(s, c) < s.len(),
        s.to_set().contains(c) <==> s.contains(c),
{
    lemma_first_place(s, c);
    if first_place(s, c) < s.len() {
        assert(s[first_place(s, c)] == c);
    }
}

/// The characters before place `i + 1` are those before place `i` and the one at `i`.
proof fn lemma_taken(s: Seq<char>, i: int)
    requires
        0 <= i < s.len(),
    ensures
        forall|d: char| s.take(i + 1).contains(d) <==> (s.take(i).contains(d) || d == s[i]),
{
    let a = s.take(i);
    let b = s.take(i + 1);
    assert forall|d: char| b.contains(d) <==> (a.contains(d) || d == s[i]) by {
        if a.contains(d) {
            let k = choose|k: int| 0 <= k < a.len() && a[k] == d;
            assert(b[k] == d);
        }
        if d == s[i] {
            assert(b[i] == d);
        }
        if b.contains(d) {
            let k = choose|k: int| 0 <= k < b.len() && b[k] == d;
            if k < i {
                assert(a[k] == d);
            }
        }
    }
}

/// What a list holds after `c` was pushed to it, or left out.
proof fn lemma_pushed(before: Seq<char>, after: Seq<char>, c: char, d: char)
    requires
        after == before || after == before.push(c),
    ensures
        after.contains(d) <==> (before.contains(d) || (d == c && after != before)),
        before.no_duplicates() && !before.contains(c) ==> after.no_duplicates(),
{
    if after != before {
        assert(after == before.push(c));
        if before.contains(d) {
            let k = choose|k: int| 0 <= k < before.len() && before[k] == d;
            assert(after[k] == d);
        }
        if d == c {
            assert(after[before.len() as int] == d);
        }
        if after.contains(d) {
            let k = choose|k: int| 0 <= k < after.len() && after[k] == d;
            if k < before.len() {
                assert(before[k] == d);
            }
        }
    }
}

} // verus!
