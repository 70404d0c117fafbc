//! The index of coincidence of a text, as an exact fraction.

use vstd::prelude::*;
use crate::alphabet::Alphabet;
use crate::text::{ascii_lower, chars_of, is_letter, to_lower_letter};

verus! {

/// A fraction of two natural numbers; the denominator is never 0.
#[derive(Clone, Copy, Debug, PartialEq, Eq, Structural)]
pub struct Ratio {
    pub numerator: u128,
    pub denominator: u128,
}

/// The number of a Latin letter in the alphabet, from 0 for `a` or `A` to 25 for `z`
/// or `Z`; -1 for any other character.
pub open spec fn letter_rank(c: char) -> int {
    if is_letter(c) {
        ascii_lower(c) as int - 97
    } else {
        -1
    }
}

/// How many characters of `s` are the letter with rank `l`, in either case.
pub open spec fn letter_count(s: Seq<char>, l: int) -> int
    decreases s.len(),
{
    if s.len() == 0 {
        0
    } else {
        letter_count(s.drop_last(), l) + if letter_rank(s.last()) == l {
            1int
        } else {
            0int
        }
    }
}

/// How many characters of `s` are Latin letters.
pub open spec fn letters_in(s: Seq<char>) -> int
    decreases s.len(),
{
    if s.len() == 0 {
        0
    } else {
        letters_in(s.drop_last()) + if is_letter(s.last()) {
            1int
        } else {
            0int
        }
    }
}

/// The number of ordered pairs of places of `s` that hold the same letter, among the
/// letters with a rank below `n`: the sum of `count * (count - 1)` over those letters.
pub open spec fn coincidences(s: Seq<char>, n: int) -> int
    decreases n,
{
    if n <= 0 {
        0
    } else {
        coincidences(s, n - 1) + letter_count(s, n - 1) * (letter_count(s, n - 1) - 1)
    }
}

/// How many characters of `s` are letters with a rank below `n`.
pub open spec fn letters_below(s: Seq<char>, n: int) -> int
    decreases n,
{
    if n <= 0 {
        0
    } else {
        letters_below(s, n - 1) + letter_count(s, n - 1)
    }
}

/// The index of coincidence of `s`: the chance that two letters drawn from `s` without
/// replacement are the same, capitals and small letters alike; 0 where `s` has fewer
/// than two letters. The pair is numerator and denominator.
pub open spec fn ioc_of(s: Seq<char>) -> (int, int) {
    if letters_in(s) < 2 {
        (0, 1)
    } else {
        (coincidences(s, 26), letters_in(s) * (letters_in(s) - 1))
    }
}

/// A count of a letter is never negative and never more than the text is long.
pub proof fn lemma_letter_count_bounds(s: Seq<char>, l: int)
    ensures
        0 <= letter_count(s, l) <= s.len(),
        0 <= letters_in(s) <= s.len(),
    decreases s.len(),
{
    if s.len() > 0 {
        lemma_letter_count_bounds(s.drop_last(), l);
    }
}

/// The letters with a rank below `n` are as many as the counts up to `n` taken together:
/// a character that is added changes one count or none.
proof fn lemma_letters_below_step(s: Seq<char>, n: int)
    requires
        s.len() > 0,
        0 <= n <= 26,
    ensures
        letters_below(s, n) == letters_below(s.drop_last(), n) + if 0 <= letter_rank(s.last()) < n {
            1int
        } else {
            0int
        },
    decreases n,
{
    if n > 0 {
        lemma_letters_below_step(s, n - 1);
    }
}

/// Every letter has one of the 26 ranks, so the counts of all ranks taken together are
/// the number of letters.
pub proof fn lemma_letters_total(s: Seq<char>)
    ensures
        letters_below(s, 26) == letters_in(s),
    decreases s.len(),
{
    if s.len() == 0 {
        lemma_letters_below_empty(s, 26);
    } else {
        lemma_letters_total(s.drop_last());
        lemma_letters_below_step(s, 26);
    }
}

proof fn lemma_letters_below_empty(s: Seq<char>, n: int)
    requires
        s.len() == 0,
    ensures
        letters_below(s, n) == 0,
    decreases n,
{
    if n > 0 {
        lemma_letters_below_empty(s, n - 1);
    }
}

/// Pairs within two groups are no more than pairs within the groups taken together.
proof fn lemma_pairs_add(a: int, b: int)
    requires
        a >= 0,
        b >= 0,
    ensures
        a * (a - 1) + b * (b - 1) <= (a + b) * (a + b - 1),
        0 <= a * (a - 1) || a == 0,
{
    assert((a + b) * (a + b - 1) == a * (a - 1) + b * (b - 1) + 2 * (a * b)) by (nonlinear_arith);
    assert(a * b >= 0) by (nonlinear_arith)
        requires
            a >= 0,
            b >= 0,
    ;
    assert(a * (a - 1) >= 0 || a == 0) by (nonlinear_arith)
        requires
            a >= 0,
    ;
}

/// The coincidences among the letters below rank `n` are no more than the ordered
/// pairs of those letters.
pub proof fn lemma_coincidences_bound(s: Seq<char>, n: int)
    requires
        0 <= n <= 26,
    ensures
        0 <= coincidences(s, n) <= letters_below(s, n) * (letters_below(s, n) - 1) || letters_below(s, n)
            == 0,
        0 <= coincidences(s, n),
        letters_below(s, n) == 0 ==> coincidences(s, n) == 0,
        0 <= letters_below(s, n),
    decreases n,
{
    if n > 0 {
        lemma_coincidences_bound(s, n - 1);
        lemma_letter_count_bounds(s, n - 1);
        let a = letters_below(s, n - 1);
        let b = letter_count(s, n - 1);
        lemma_pairs_add(a, b);
        lemma_pairs_add(b, 0);
        if a == 0 {
            assert(coincidences(s, n - 1) == 0);
        }
        if b == 0 {
            assert(b * (b - 1) == 0);
        }
    }
}

/// The index of coincidence of `text`, as a fraction: the number of ordered pairs of
/// equal letters over the number of ordered pairs of letters, capitals and small
/// letters alike; 0 over 1 where the text has fewer than two letters.
pub fn index_of_coincidence(text: &str) -> (r: Ratio)
    ensures
        r.numerator == ioc_of(text@).0,
        r.denominator == ioc_of(text@).1,
        r.denominator > 0,
        r.numerator <= r.denominator,
{
    let chars = chars_of(text);
    let mut counts: Vec<u64> = Vec::new();
    let mut l: usize = 0;
    while l < 26
        invariant
            l <= 26,
            counts@.len() == l,
            forall|k: int| 0 <= k < l ==> counts@[k] == 0,
        decreases 26 - l,
    {
        counts.push(0);
        l += 1;
    }
    let mut total: u64 = 0;
    let mut i: usize = 0;
    assert(chars@.take(0) =~= Seq::<char>::empty());
    while i < chars.len()
        invariant
            i <= chars.len(),
            chars@ == text@,
            counts@.len() == 26,
            forall|k: int| 0 <= k < 26 ==> counts@[k] == letter_count(chars@.take(i as int), k),
            total == letters_in(chars@.take(i as int)),
        decreases chars.len() - i,
    {
        let c = chars[i];
        let ghost before = chars@.take(i as int);
        let ghost now = chars@.take(i + 1);
        proof {
            assert(now.drop_last() == before);
            assert(now.last() == c);
            lemma_letter_count_bounds(now, 0);
            assert forall|k: int| 0 <= k < 26 implies 0 <= #[trigger] letter_count(now, k) <= now.len() by {
                lemma_letter_count_bounds(now, k);
            }
        }
        if ('A' <= c && c <= 'Z') || ('a' <= c && c <= 'z') {
            let rank = (to_lower_letter(c) as u8 - 97) as usize;
            let old = counts[rank];
            proof {
                assert(letter_rank(c) == rank);
                assert(letter_count(now, rank as int) == letter_count(before, rank as int) + 1);
                lemma_letter_count_bounds(now, rank as int);
            }
            counts.set(rank, old + 1);
            total = total + 1;
        }
        i += 1;
    }
    assert(chars@.take(chars.len() as int) == chars@);
    if total < 2 {
        return Ratio { numerator: 0, denominator: 1 };
    }
    let mut numerator: u128 = 0;
    let mut n: usize = 0;
    let ghost s = text@;
    let mut below: u128 = 0;
    while n < 26
        invariant
            n <= 26,
            counts@.len() == 26,
            forall|k: int| 0 <= k < 26 ==> counts@[k] == letter_count(s, k),
            numerator == coincidences(s, n as int),
            below == letters_below(s, n as int),
            below <= u64::MAX,
            total == letters_in(s),
        decreases 26 - n,
    {
        let count = counts[n] as u128;
        proof {
            lemma_coincidences_bound(s, n as int + 1);
            lemma_coincidences_bound(s, n as int);
            lemma_letters_total(s);
            lemma_letters_below_mono(s, n as int + 1);
            lemma_letter_count_bounds(s, n as int);
            lemma_square_bound(letters_below(s, n as int + 1));
            lemma_square_bound(count as int);
        }
        if count > 0 {
            numerator = numerator + count * (count - 1);
        } else {
            assert(count * (count - 1) == 0);
        }
        below = below + count;
        n += 1;
    }
    proof {
        lemma_letters_total(s);
        lemma_coincidences_bound(s, 26);
        lemma_square_bound(total as int);
    }
    let wide = total as u128;
    Ratio { numerator, denominator: wide * (wide - 1) }
}

/// The letters below a rank are no more than all letters.
proof fn lemma_letters_below_mono(s: Seq<char>, n: int)
    requires
        0 <= n <= 26,
    ensures
        0 <= letters_below(s, n) <= letters_below(s, 26),
    decreases 26 - n,
{
    lemma_coincidences_bound(s, n);
    if n < 26 {
        lemma_letters_below_mono(s, n + 1);
        lemma_letter_count_bounds(s, n);
    }
}

/// The ordered pairs among at most 2^64 things fit in 128 bits.
proof fn lemma_square_bound(t: int)
    requires
        0 <= t <= u64::MAX,
    ensures
        t == 0 || 0 <= t * (t - 1) <= u128::MAX,
        t >= 2 ==> t * (t - 1) > 0,
{
    if t > 0 {
        assert(0 <= t * (t - 1) <= 0xffff_ffff_ffff_ffff * 0xffff_ffff_ffff_ffff) by (nonlinear_arith)
            requires
                1 <= t <= 0xffff_ffff_ffff_ffff,
        ;
        assert(t >= 2 ==> t * (t - 1) > 0) by (nonlinear_arith);
    }
}

/// A text in which one letter is repeated, in whatever case, and that has two
/// characters or more, has the index of coincidence 1: numerator and denominator agree.
pub proof fn law_ioc_of_repeated_letter(s: Seq<char>, rank: int)
    requires
        s.len() >= 2,
        0 <= rank < 26,
        forall|i: int| 0 <= i < s.len() ==> letter_rank(#[trigger] s[i]) == rank,
    ensures
        ioc_of(s).0 == ioc_of(s).1,
        ioc_of(s).1 > 0,
{
    lemma_repeated_counts(s, rank);
    lemma_one_letter_coincidences(s, rank, 26);
    let n = s.len() as int;
    assert(n * (n - 1) > 0) by (nonlinear_arith)
        requires
            n >= 2,
    ;
}

/// A text with fewer than two letters has the index of coincidence 0.
pub proof fn law_ioc_of_few_letters(s: Seq<char>)
    requires
        letters_in(s) < 2,
    ensures
        ioc_of(s).0 == 0,
        ioc_of(s).1 == 1,
{
}

proof fn lemma_repeated_counts(s: Seq<char>, rank: int)
    requires
        0 <= rank < 26,
        forall|i: int| 0 <= i < s.len() ==> letter_rank(#[trigger] s[i]) == rank,
    ensures
        letters_in(s) == s.len(),
        forall|l: int| #[trigger] letter_count(s, l) == if l == rank { s.len() as int } else { 0 },
    decreases s.len(),
{
    if s.len() > 0 {
        let rest = s.drop_last();
        assert forall|i: int| 0 <= i < rest.len() implies letter_rank(#[trigger] rest[i]) == rank by {
            assert(rest[i] == s[i]);
        }
        lemma_repeated_counts(rest, rank);
        assert(letter_rank(s.last()) == rank);
        assert forall|l: int| #[trigger] letter_count(s, l) == if l == rank { s.len() as int } else { 0 } by {
            assert(letter_count(rest, l) == if l == rank { rest.len() as int } else { 0 });
        }
    } else {
        assert forall|l: int| #[trigger] letter_count(s, l) == if l == rank { s.len() as int } else { 0 } by {}
    }
}

proof fn lemma_one_letter_coincidences(s: Seq<char>, rank: int, n: int)
    requires
        0 <= rank < 26,
        0 <= n <= 26,
        forall|l: int| #[trigger] letter_count(s, l) == if l == rank { s.len() as int } else { 0 },
    ensures
        coincidences(s, n) == if rank < n { s.len() * (s.len() - 1) } else { 0 },
    decreases n,
{
    if n > 0 {
        lemma_one_letter_coincidences(s, rank, n - 1);
        assert(letter_count(s, n - 1) == if n - 1 == rank { s.len() as int } else { 0 });
    }
}

/// The analysis of a text.
pub trait Analyze {
    /// The characters of the text.
    spec fn text(&self) -> Seq<char>;

    /// The index of coincidence of the text, as a fraction; see [`ioc_of`].
    fn index_of_coincidence(&self) -> (r: Ratio)
        ensures
            r.numerator == ioc_of(self.text()).0,
            r.denominator == ioc_of(self.text()).1,
            r.denominator > 0,
            r.numerator <= r.denominator,
    ;

    /// The index of coincidence of the text; another name of
    /// [`Analyze::index_of_coincidence`].
    fn ioc(&self) -> (r: Ratio)
        ensures
            r.numerator == ioc_of(self.text()).0,
            r.denominator == ioc_of(self.text()).1,
            r.denominator > 0,
            r.numerator <= r.denominator,
    ;

    /// The alphabet of the characters of the text, each once, in the order in which
    /// they first occur.
    fn alphabet(&self) -> (a: Alphabet)
        ensures
            a.chars() == crate::alphabet::unique_chars(self.text()),
            a.is_cased(),
    ;
}

impl Analyze for str {
    open spec fn text(&self) -> Seq<char> {
        self@
    }

    fn index_of_coincidence(&self) -> (r: Ratio) {
        index_of_coincidence(self)
    }

    fn ioc(&self) -> (r: Ratio) {
        index_of_coincidence(self)
    }

    fn alphabet(&self) -> (a: Alphabet) {
        Alphabet::of_cased(self)
    }
}

} // verus!
