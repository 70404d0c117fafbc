//! Character and string primitives shared by every cipher in the crate.

use vstd::prelude::*;

verus! {

/// Whether `c` is one of the capital letters `A` to `Z`.
pub open spec fn is_upper(c: char) -> bool {
    'A' <= c && c <= 'Z'
}

/// Whether `c` is one of the small letters `a` to `z`.
pub open spec fn is_lower(c: char) -> bool {
    'a' <= c && c <= 'z'
}

/// Whether `c` is one of the 52 Latin letters.
pub open spec fn is_letter(c: char) -> bool {
    is_upper(c) || is_lower(c)
}

/// `String::push` appends one character to the end of the string.
pub assume_specification[ String::push ](s: &mut String, c: char)
    ensures
        final(s)@ == old(s)@.push(c),
;

/// The characters of `s`, in order.
pub fn chars_of(s: &str) -> (v: Vec<char>)
    ensures
        v@ == s@,
{
    broadcast use vstd::string::axiom_spec_iter;

    let mut v: Vec<char> = Vec::new();
    for c in it: s.chars()
        invariant
            it.seq() == s@,
            v@ == s@.take(it.index()),
    {
        v.push(c);
    }
    v
}

/// The string made of the characters of `v`, in order.
pub fn string_of(v: &Vec<char>) -> (s: String)
    ensures
        s@ == v@,
{
    let mut s = String::new();
    let mut i: usize = 0;
    while i < v.len()
        invariant
            i <= v.len(),
            s@ == v@.take(i as int),
        decreases v.len() - i,
    {
        s.push(v[i]);
        i += 1;
    }
    s
}

/// `c` with a small Latin letter replaced by its capital; any other character unchanged.
pub open spec fn ascii_upper(c: char) -> char {
    if is_lower(c) {
        ((c as u8) - 32) as char
    } else {
        c
    }
}

/// `c` with a capital Latin letter replaced by its small form; any other character unchanged.
pub open spec fn ascii_lower(c: char) -> char {
    if is_upper(c) {
        ((c as u8) + 32) as char
    } else {
        c
    }
}

/// `s` with every small Latin letter replaced by its capital.
pub open spec fn ascii_upper_seq(s: Seq<char>) -> Seq<char> {
    Seq::new(s.len(), |i: int| ascii_upper(s[i]))
}

/// Whether every character of `s` lies in the ASCII range.
pub open spec fn all_ascii(s: Seq<char>) -> bool {
    forall|i: int| 0 <= i < s.len() ==> (#[trigger] s[i] as u32) < 128
}

/// `c` with a small Latin letter replaced by its capital.
pub fn to_upper_letter(c: char) -> (r: char)
    ensures
        r == ascii_upper(c),
{
    if 'a' <= c && c <= 'z' {
        ((c as u8) - 32) as char
    } else {
        c
    }
}

/// `c` with a capital Latin letter replaced by its small form.
pub fn to_lower_letter(c: char) -> (r: char)
    ensures
        r == ascii_lower(c),
{
    if 'A' <= c && c <= 'Z' {
        ((c as u8) + 32) as char
    } else {
        c
    }
}

/// The lowest eight bits of the code point of `c`.
pub open spec fn low_byte_of(c: char) -> u8 {
    ((c as u32) % 256) as u8
}

/// The lowest eight bits of the code point of `c`.
pub fn low_byte(c: char) -> (b: u8)
    ensures
        b == low_byte_of(c),
{
    let code: u32 = c as u32;
    (code % 256) as u8
}

/// The Unicode upper-case form of a string, as `str::to_uppercase` computes it.
pub uninterp spec fn uppercase_of(s: Seq<char>) -> Seq<char>;

/// The Unicode lower-case form of a string, as `str::to_lowercase` computes it.
pub uninterp spec fn lowercase_of(s: Seq<char>) -> Seq<char>;

/// Whether a character has the Unicode `Alphabetic` property, as `char::is_alphabetic` tells.
pub uninterp spec fn alphabetic(c: char) -> bool;

/// Whether a character has the Unicode `Uppercase` property, as `char::is_uppercase` tells.
pub uninterp spec fn uppercase_letter(c: char) -> bool;

/// Whether a character has the Unicode `Lowercase` property, as `char::is_lowercase` tells.
pub uninterp spec fn lowercase_letter(c: char) -> bool;

/// The upper-case form of a text: on ASCII text the small Latin letters become
/// capitals and nothing else changes; on other text it is Unicode's mapping.
pub open spec fn upper_text(s: Seq<char>) -> Seq<char> {
    if all_ascii(s) {
        ascii_upper_seq(s)
    } else {
        uppercase_of(s)
    }
}

/// Calls `str::to_uppercase`. On a string of ASCII characters the result is the string
/// with `a` to `z` replaced by `A` to `Z`; on any other string it is named by
/// [`uppercase_of`].
#[verifier::external_body]
pub(crate) fn to_uppercase(s: &str) -> (r: String)
    ensures
        all_ascii(s@) ==> r@ == ascii_upper_seq(s@),
        !all_ascii(s@) ==> r@ == uppercase_of(s@),
{
    s.to_uppercase()
}

/// `s` with every capital Latin letter replaced by its small form.
pub open spec fn ascii_lower_seq(s: Seq<char>) -> Seq<char> {
    Seq::new(s.len(), |i: int| ascii_lower(s[i]))
}

/// The lower-case form of a text: on ASCII text the capital Latin letters become
/// small and nothing else changes; on other text it is Unicode's mapping.
pub open spec fn lower_text(s: Seq<char>) -> Seq<char> {
    if all_ascii(s) {
        ascii_lower_seq(s)
    } else {
        lowercase_of(s)
    }
}

/// Calls `str::to_lowercase`. On a string of ASCII characters the result is the string
/// with `A` to `Z` replaced by `a` to `z`; on any other string it is named by
/// [`lowercase_of`].
#[verifier::external_body]
pub(crate) fn to_lowercase(s: &str) -> (r: String)
    ensures
        all_ascii(s@) ==> r@ == ascii_lower_seq(s@),
        !all_ascii(s@) ==> r@ == lowercase_of(s@),
{
    s.to_lowercase()
}

/// Whether two strings hold the same characters.
pub fn same_text(a: &str, b: &str) -> (r: bool)
    ensures
        r == (a@ == b@),
{
    let x = chars_of(a);
    let y = chars_of(b);
    if x.len() != y.len() {
        return false;
    }
    let mut i: usize = 0;
    while i < x.len()
        invariant
            i <= x.len(),
            x.len() == y.len(),
            x@ == a@,
            y@ == b@,
            forall|k: int| 0 <= k < i ==> x@[k] == y@[k],
        decreases x.len() - i,
    {
        if x[i] != y[i] {
            return false;
        }
        i += 1;
    }
    assert(x@ =~= y@);
    true
}

/// Calls `char::is_alphabetic`, whose result is named by [`alphabetic`].
#[verifier::external_body]
pub(crate) fn is_alphabetic(c: char) -> (b: bool)
    ensures
        b == alphabetic(c),
{
    c.is_alphabetic()
}

/// Calls `char::is_uppercase`, whose result is named by [`uppercase_letter`].
#[verifier::external_body]
pub(crate) fn is_uppercase(c: char) -> (b: bool)
    ensures
        b == uppercase_letter(c),
{
    c.is_uppercase()
}

/// Calls `char::is_lowercase`, whose result is named by [`lowercase_letter`].
#[verifier::external_body]
pub(crate) fn is_lowercase(c: char) -> (b: bool)
    ensures
        b == lowercase_letter(c),
{
    c.is_lowercase()
}

/// Whether a character is alphabetic or numeric in Unicode's terms, as `char::is_alphanumeric` tells.
pub uninterp spec fn alphanumeric(c: char) -> bool;

/// Calls `char::is_alphanumeric`, whose result is named by [`alphanumeric`].
#[verifier::external_body]
pub(crate) fn is_alphanumeric(c: char) -> (b: bool)
    ensures
        b == alphanumeric(c),
{
    c.is_alphanumeric()
}

/// Whether a character has the Unicode `White_Space` property, as `char::is_whitespace` tells.
pub uninterp spec fn whitespace(c: char) -> bool;

/// Calls `char::is_whitespace`, whose result is named by [`whitespace`].
#[verifier::external_body]
pub(crate) fn is_whitespace(c: char) -> (b: bool)
    ensures
        b == whitespace(c),
{
    c.is_whitespace()
}

/// The word in progress as a list of words: itself if it has a character, else nothing.
pub open spec fn finished(word: Seq<char>) -> Seq<Seq<char>> {
    if word.len() > 0 {
        seq![word]
    } else {
        Seq::empty()
    }
}

/// The words of `s` when `word` holds the characters read since the last white space.
pub open spec fn words_after(s: Seq<char>, word: Seq<char>) -> Seq<Seq<char>>
    decreases s.len(),
{
    if s.len() == 0 {
        finished(word)
    } else if whitespace(s[0]) {
        finished(word) + words_after(s.drop_first(), Seq::empty())
    } else {
        words_after(s.drop_first(), word.push(s[0]))
    }
}

/// The words of `s`: its longest runs of characters that are not white space, in order.
pub open spec fn words(s: Seq<char>) -> Seq<Seq<char>> {
    words_after(s, Seq::empty())
}

/// The words of a list of character vectors, as sequences.
pub open spec fn word_views(v: Seq<Vec<char>>) -> Seq<Seq<char>> {
    Seq::new(v.len(), |i: int| v[i]@)
}

/// Splits `s` at white space into its words.
pub fn split_words(s: &str) -> (v: Vec<Vec<char>>)
    ensures
        word_views(v@) == words(s@),
{
    let chars = chars_of(s);
    let mut v: Vec<Vec<char>> = Vec::new();
    let mut word: Vec<char> = Vec::new();
    let mut i: usize = 0;
    assert(chars@.skip(0) == chars@);
    assert(word_views(v@) + words(s@) =~= words(s@));
    while i < chars.len()
        invariant
            i <= chars.len(),
            chars@ == s@,
            word_views(v@) + words_after(chars@.skip(i as int), word@) == words(s@),
        decreases chars.len() - i,
    {
        let c = chars[i];
        let ghost rest = chars@.skip(i as int);
        let ghost done = word_views(v@);
        let ghost current = word@;
        assert(rest.len() > 0 && rest[0] == c);
        assert(rest.drop_first() == chars@.skip(i + 1));
        if is_whitespace(c) {
            if word.len() > 0 {
                v.push(word);
                word = Vec::new();
                assert(word_views(v@) =~= done + seq![current]);
            }
            assert(word@ =~= Seq::<char>::empty());
            assert(word_views(v@) =~= done + finished(current));
            assert(words_after(rest, current) == finished(current) + words_after(
                rest.drop_first(),
                Seq::empty(),
            ));
            assert(word_views(v@) + words_after(rest.drop_first(), Seq::empty()) =~= done + (finished(
                current,
            ) + words_after(rest.drop_first(), Seq::empty())));
        } else {
            word.push(c);
            assert(!whitespace(rest[0]));
            assert(word@ == current.push(c));
            assert(words_after(rest, current) == words_after(rest.drop_first(), current.push(rest[0])));
        }
        i += 1;
    }
    assert(chars@.skip(chars.len() as int).len() == 0);
    let ghost done = word_views(v@);
    let ghost current = word@;
    if word.len() > 0 {
        v.push(word);
        assert(word_views(v@) =~= done + seq![current]);
    }
    assert(word_views(v@) =~= done + finished(current));
    v
}

/// The first place at which `s` holds `c`, or the length of `s` where it does not hold `c`.
pub open spec fn first_place(s: Seq<char>, c: char) -> int
    decreases s.len(),
{
    if s.len() == 0 {
        0
    } else if s[0] == c {
        0
    } else {
        1 + first_place(s.drop_first(), c)
    }
}

/// `first_place` is the first place of `c`, and the length where there is none.
pub proof fn lemma_first_place(s: Seq<char>, c: char)
    ensures
        0 <= first_place(s, c) <= s.len(),
        first_place(s, c) < s.len() ==> s[first_place(s, c)] == c,
        forall|j: int| 0 <= j < first_place(s, c) ==> s[j] != c,
    decreases s.len(),
{
    if s.len() > 0 && s[0] != c {
        let rest = s.drop_first();
        lemma_first_place(rest, c);
        assert forall|j: int| 0 <= j < first_place(s, c) implies s[j] != c by {
            if j > 0 {
                assert(s[j] == rest[j - 1]);
            }
        }
    }
}

/// A place that holds `c` and has no `c` before it is the first place of `c`.
pub proof fn lemma_first_place_is(s: Seq<char>, c: char, i: int)
    requires
        0 <= i <= s.len(),
        i < s.len() ==> s[i] == c,
        forall|j: int| 0 <= j < i ==> s[j] != c,
    ensures
        first_place(s, c) == i,
{
    lemma_first_place(s, c);
    let p = first_place(s, c);
    if p < i {
        assert(s[p] != c);
    } else if i < p {
        assert(s[i] != c);
    }
}

/// The first place of `c` in `v`, or the length of `v` where `v` does not hold `c`.
pub fn find_char(v: &Vec<char>, c: char) -> (i: usize)
    ensures
        i == first_place(v@, c),
        i <= v.len(),
        i < v.len() ==> v@[i as int] == c,
{
    let mut i: usize = 0;
    while i < v.len()
        invariant
            i <= v.len(),
            forall|j: int| 0 <= j < i ==> v@[j] != c,
        decreases v.len() - i,
    {
        if v[i] == c {
            proof {
                lemma_first_place_is(v@, c, i as int);
            }
            return i;
        }
        i += 1;
    }
    proof {
        lemma_first_place_is(v@, c, i as int);
    }
    i
}

/// The number of bytes that the character takes in UTF-8.
pub open spec fn utf8_width(c: char) -> int {
    if (c as u32) < 0x80 {
        1
    } else if (c as u32) < 0x800 {
        2
    } else if (c as u32) < 0x1_0000 {
        3
    } else {
        4
    }
}

/// The number of bytes that the text takes in UTF-8.
pub open spec fn byte_len(s: Seq<char>) -> int
    decreases s.len(),
{
    if s.len() == 0 {
        0
    } else {
        byte_len(s.drop_last()) + utf8_width(s.last())
    }
}

/// The number of bytes that the character takes in UTF-8.
pub fn width_of(c: char) -> (w: usize)
    ensures
        w == utf8_width(c),
{
    let code = c as u32;
    if code < 0x80 {
        1
    } else if code < 0x800 {
        2
    } else if code < 0x1_0000 {
        3
    } else {
        4
    }
}

/// The number of bytes that the characters take in UTF-8.
pub fn byte_length(chars: &Vec<char>) -> (n: u128)
    ensures
        n == byte_len(chars@),
{
    let mut n: u128 = 0;
    let mut i: usize = 0;
    assert(chars@.take(0) =~= Seq::<char>::empty());
    while i < chars.len()
        invariant
            i <= chars.len(),
            n == byte_len(chars@.take(i as int)),
            n <= 4 * i,
        decreases chars.len() - i,
    {
        assert(chars@.take(i + 1).drop_last() == chars@.take(i as int));
        assert(chars@.take(i + 1).last() == chars@[i as int]);
        n = n + width_of(chars[i]) as u128;
        i += 1;
    }
    assert(chars@.take(chars.len() as int) == chars@);
    n
}

} // verus!
