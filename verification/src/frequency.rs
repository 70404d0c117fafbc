//! Frequencies of the characters of a text, the frequencies of English, and scores
//! that tell how close the two are.

use vstd::prelude::*;
use crate::alphabet::{unique_after, unique_chars};
use crate::order::{ranked, ranking};
use crate::error::CipherError;
use crate::text::{
    chars_of, find_char, first_place, lemma_first_place, lower_text, string_of, to_lowercase,
};

verus! {

/// How many times `c` occurs in `s`.
pub open spec fn occurrences(s: Seq<char>, c: char) -> int
    decreases s.len(),
{
    if s.len() == 0 {
        0
    } else {
        occurrences(s.drop_last(), c) + if s.last() == c {
            1int
        } else {
            0int
        }
    }
}

/// The characters of `s`, each once in the order in which they first occur, each with
/// the number of times it occurs.
pub open spec fn tally(s: Seq<char>) -> Seq<(char, usize)> {
    Seq::new(unique_chars(s).len(), |i: int| (unique_chars(s)[i], occurrences(s, unique_chars(s)[i]) as usize))
}

/// A character occurs no more often than the text is long.
pub proof fn lemma_occurrences_bound(s: Seq<char>, c: char)
    ensures
        0 <= occurrences(s, c) <= s.len(),
    decreases s.len(),
{
    if s.len() > 0 {
        lemma_occurrences_bound(s.drop_last(), c);
    }
}

/// How often each character of `chars` occurs, in the order in which they first occur.
pub fn tally_of(chars: &Vec<char>) -> (counts: Vec<(char, usize)>)
    ensures
        counts@ == tally(chars@),
        forall|k: int| 0 <= k < counts@.len() ==> 1 <= (#[trigger] counts@[k]).1 <= chars@.len(),
{
    let mut keys: Vec<char> = Vec::new();
    let mut counts: Vec<(char, usize)> = Vec::new();
    let mut i: usize = 0;
    assert(chars@.skip(0) == chars@);
    assert(chars@.take(0) =~= Seq::<char>::empty());
    while i < chars.len()
        invariant
            i <= chars.len(),
            keys@.len() == counts@.len(),
            unique_after(keys@, chars@.skip(i as int)) == unique_chars(chars@),
            forall|k: int|
                0 <= k < keys@.len() ==> (#[trigger] counts@[k]).0 == keys@[k] && counts@[k].1 == occurrences(
                    chars@.take(i as int),
                    keys@[k],
                ) && counts@[k].1 >= 1,
            forall|d: char| !keys@.contains(d) ==> #[trigger] occurrences(chars@.take(i as int), d) == 0,
            keys@.no_duplicates(),
        decreases chars.len() - i,
    {
        let c = chars[i];
        let ghost rest = chars@.skip(i as int);
        let ghost before = chars@.take(i as int);
        let ghost now = chars@.take(i + 1);
        let ghost old_keys = keys@;
        let ghost old_counts = counts@;
        proof {
            assert(rest.len() > 0 && rest[0] == c);
            assert(rest.drop_first() == chars@.skip(i + 1));
            assert(now.drop_last() == before && now.last() == c);
            lemma_first_place(keys@, c);
            lemma_occurrences_bound(now, c);
        }
        let at = find_char(&keys, c);
        if at < keys.len() {
            assert(keys@.contains(c));
            let n = counts[at].1;
            assert(n as int == occurrences(before, c));
            counts.set(at, (c, n + 1));
        } else {
            assert(!keys@.contains(c));
            assert(occurrences(before, c) == 0);
            keys.push(c);
            counts.push((c, 1));
        }
        proof {
            assert forall|k: int| 0 <= k < keys@.len() implies (#[trigger] counts@[k]).0 == keys@[k]
                && counts@[k].1 == occurrences(now, keys@[k]) && counts@[k].1 >= 1 by {
                if k < old_keys.len() {
                    assert(old_counts[k].0 == old_keys[k]);
                    if old_keys[k] != c {
                        assert(occurrences(now, old_keys[k]) == occurrences(before, old_keys[k]));
                    }
                }
            }
            assert forall|d: char| !keys@.contains(d) implies #[trigger] occurrences(now, d) == 0 by {
                if d == c {
                    if at < old_keys.len() {
                        assert(keys@[at as int] == c);
                    } else {
                        assert(keys@[old_keys.len() as int] == c);
                    }
                } else {
                    if old_keys.contains(d) {
                        let k = choose|k: int| 0 <= k < old_keys.len() && old_keys[k] == d;
                        assert(keys@[k] == d);
                    }
                    assert(occurrences(before, d) == 0);
                }
            }
        }
        i += 1;
    }
    proof {
        assert(chars@.skip(chars.len() as int).len() == 0);
        assert(chars@.take(chars.len() as int) == chars@);
        assert(keys@ == unique_chars(chars@));
        assert(counts@ =~= tally(chars@));
        assert forall|k: int| 0 <= k < counts@.len() implies 1 <= (#[trigger] counts@[k]).1
            <= chars@.len() by {
            lemma_occurrences_bound(chars@, keys@[k]);
        }
    }
    counts
}

/// How often each character of `text` occurs once the text is put in small letters,
/// in the order in which the characters first occur.
pub fn counts(text: &str) -> (counts: Vec<(char, usize)>)
    ensures
        counts@ == tally(lower_text(text@)),
{
    let lower = to_lowercase(text);
    let chars = chars_of(lower.as_str());
    tally_of(&chars)
}

/// How often each character of `text` occurs, capitals and small letters apart, in
/// the order in which the characters first occur.
pub fn cased_counts(text: &str) -> (counts: Vec<(char, usize)>)
    ensures
        counts@ == tally(text@),
{
    let chars = chars_of(text);
    tally_of(&chars)
}

/// One, in the unit of all scores: a score is a number of billionths, from 0 to this.
pub const UNIT: u64 = 1_000_000_000;

/// The widest gap between a frequency of a text and one of English, in hundred-thousandths:
/// 1 less the least frequency of English.
pub const SPAN: u64 = 99_926;

/// How often the letters `a` to `z` occur in English, in hundred-thousandths.
pub open spec fn english_weights() -> Seq<u64> {
    seq![
        8200u64, 1500, 2800, 4300, 12700, 2200, 2000, 6100, 7000, 150, 770, 4000, 2400, 6700, 7500,
        1900, 95, 6000, 6300, 9100, 2800, 980, 2400, 150, 2000, 74,
    ]
}

/// How often the 42 most frequent pairs of letters occur in English, in
/// hundred-thousandths, from `th` down to `ce`.
pub open spec fn bigram_weights() -> Seq<u64> {
    seq![
        3560u64, 3070, 2450, 2050, 1990, 1850, 1760, 1490, 1450, 1350, 1340, 1340, 1280, 1200, 1170,
        1170, 1130, 1120, 1090, 1070, 1050, 1050, 1040, 950, 930, 930, 870, 870, 830, 830, 830, 790,
        790, 760, 760, 730, 730, 700, 690, 690, 690, 650,
    ]
}

/// The frequencies of the small letters in English, in hundred-thousandths.
pub fn english_lowercase() -> (table: Vec<(char, u64)>)
    ensures
        table@.len() == 26,
        forall|i: int| 0 <= i < 26 ==> #[trigger] table@[i] == ((97 + i) as u8 as char, english_weights()[i]),
{
    lettered(&weights(), 97)
}

/// The frequencies of the capital letters in English, in hundred-thousandths.
pub fn english_uppercase() -> (table: Vec<(char, u64)>)
    ensures
        table@.len() == 26,
        forall|i: int| 0 <= i < 26 ==> #[trigger] table@[i] == ((65 + i) as u8 as char, english_weights()[i]),
{
    lettered(&weights(), 65)
}

/// The frequencies of the letters in English, small letters first and capitals after
/// them, in hundred-thousandths.
pub fn english() -> (table: Vec<(char, u64)>)
    ensures
        table@.len() == 52,
        forall|i: int| 0 <= i < 26 ==> #[trigger] table@[i] == ((97 + i) as u8 as char, english_weights()[i]),
        forall|i: int|
            0 <= i < 26 ==> #[trigger] table@[26 + i] == ((65 + i) as u8 as char, english_weights()[i]),
{
    let mut table = english_lowercase();
    let upper = english_uppercase();
    let mut i: usize = 0;
    while i < 26
        invariant
            i <= 26,
            upper@.len() == 26,
            table@.len() == 26 + i,
            forall|k: int| 0 <= k < 26 ==> #[trigger] table@[k] == ((97 + k) as u8 as char, english_weights()[k]),
            forall|k: int| 0 <= k < 26 ==> #[trigger] upper@[k] == ((65 + k) as u8 as char, english_weights()[k]),
            forall|k: int| 0 <= k < i ==> #[trigger] table@[26 + k] == upper@[k],
        decreases 26 - i,
    {
        table.push(upper[i]);
        i += 1;
    }
    table
}

/// The weights of the letters `a` to `z`.
fn weights() -> (v: Vec<u64>)
    ensures
        v@ == english_weights(),
{
    let v = vec![
        8200u64, 1500, 2800, 4300, 12700, 2200, 2000, 6100, 7000, 150, 770, 4000, 2400, 6700, 7500,
        1900, 95, 6000, 6300, 9100, 2800, 980, 2400, 150, 2000, 74,
    ];
    assert(v@ =~= english_weights());
    v
}

/// The weights of the most frequent pairs of letters.
fn pair_weights() -> (v: Vec<u64>)
    ensures
        v@ == bigram_weights(),
{
    let v = vec![
        3560u64, 3070, 2450, 2050, 1990, 1850, 1760, 1490, 1450, 1350, 1340, 1340, 1280, 1200, 1170,
        1170, 1130, 1120, 1090, 1070, 1050, 1050, 1040, 950, 930, 930, 870, 870, 830, 830, 830, 790,
        790, 760, 760, 730, 730, 700, 690, 690, 690, 650,
    ];
    assert(v@ =~= bigram_weights());
    v
}

/// The 26 weights, each with its letter, counted from the letter with the code `first`.
fn lettered(weights: &Vec<u64>, first: u8) -> (table: Vec<(char, u64)>)
    requires
        weights@.len() == 26,
        first <= 100,
    ensures
        table@.len() == 26,
        forall|i: int| 0 <= i < 26 ==> #[trigger] table@[i] == ((first + i) as u8 as char, weights@[i]),
{
    let mut table: Vec<(char, u64)> = Vec::new();
    let mut i: u8 = 0;
    while i < 26
        invariant
            i <= 26,
            first <= 100,
            weights@.len() == 26,
            table@.len() == i,
            forall|k: int| 0 <= k < i ==> #[trigger] table@[k] == ((first + k) as u8 as char, weights@[k]),
        decreases 26 - i,
    {
        table.push(((first + i) as char, weights[i as usize]));
        i += 1;
    }
    table
}

/// Whether every weight is a frequency that a gap can be measured against: at least
/// the least frequency of English, and no more than the widest gap.
pub open spec fn weights_in_span(weights: Seq<u64>) -> bool {
    forall|i: int| 0 <= i < weights.len() ==> 74 <= #[trigger] weights[i] <= 99_926
}

/// The keys in descending order.
pub open spec fn descending(keys: Seq<u64>) -> Seq<int> {
    Seq::new(keys.len(), |i: int| ranked(keys)[keys.len() - 1 - i].0 as int)
}

/// The gap between a character's share of a text, `count` of `len`, and a frequency
/// of `weight` hundred-thousandths, in hundred-thousandths of `len`.
pub open spec fn gap(count: int, weight: int, len: int) -> int {
    if count * 100_000 >= weight * len {
        count * 100_000 - weight * len
    } else {
        weight * len - count * 100_000
    }
}

/// The gaps between the first `k` counts and the first `k` weights, taken together.
pub open spec fn gaps(counts: Seq<int>, weights: Seq<int>, len: int, k: int) -> int
    decreases k,
{
    if k <= 0 {
        0
    } else {
        gaps(counts, weights, len, k - 1) + gap(counts[k - 1], weights[k - 1], len)
    }
}

/// The score of `k` frequencies whose gaps make `total` together: the mean of
/// `1 - gap / 0.99926` over them, in billionths and rounded down; 0 where there is
/// nothing to compare.
pub open spec fn fit(total: int, k: int, len: int) -> int {
    if k <= 0 || len <= 0 {
        0
    } else {
        ((k * 99_926 * len - total) * 1_000_000_000) / (k * 99_926 * len)
    }
}

/// The lesser of two numbers.
pub open spec fn lesser(a: int, b: int) -> int {
    if a <= b {
        a
    } else {
        b
    }
}

/// How well the shape of a distribution fits a reference: the counts of a text of
/// `len` characters and the weights of the reference are each put in descending
/// order, and the two are compared place by place, as far as the shorter goes.
pub open spec fn shape_score(counts: Seq<u64>, weights: Seq<u64>, len: int) -> int {
    let k = lesser(counts.len() as int, weights.len() as int);
    fit(gaps(descending(counts), descending(weights), len, k), k, len)
}

/// The counts of a tally, without the characters.
pub open spec fn counts_of(t: Seq<(char, usize)>) -> Seq<u64> {
    Seq::new(t.len(), |i: int| t[i].1 as u64)
}

/// How well the frequencies of the characters of `s`, whatever the characters are,
/// fit the shape of the frequencies of the letters in English.
pub open spec fn distribution_of(s: Seq<char>) -> int {
    shape_score(counts_of(tally(lower_text(s))), english_weights(), lower_text(s).len() as int)
}

/// How well the frequencies of the characters of `s` fit the shape of the frequencies
/// of the pairs of letters in English. The text's single characters are counted, not
/// its pairs.
pub open spec fn bigram_distribution_of(s: Seq<char>) -> int {
    shape_score(counts_of(tally(lower_text(s))), bigram_weights(), lower_text(s).len() as int)
}

/// The letters that have a frequency in English, numbered: `a` to `z` from 0, then
/// `A` to `Z` from 26.
pub open spec fn nth_letter(n: int) -> char {
    if n < 26 {
        (97 + n) as u8 as char
    } else {
        (65 + n - 26) as u8 as char
    }
}

/// How many of the first `j` letters occur in `s`.
pub open spec fn matched(s: Seq<char>, j: int) -> int
    decreases j,
{
    if j <= 0 {
        0
    } else {
        matched(s, j - 1) + if occurrences(s, nth_letter(j - 1)) > 0 {
            1int
        } else {
            0int
        }
    }
}

/// The gaps between the shares in `s` of those of the first `j` letters that occur in
/// `s` and the frequencies of the same letters in English, taken together.
pub open spec fn matched_gaps(s: Seq<char>, j: int) -> int
    decreases j,
{
    if j <= 0 {
        0
    } else {
        matched_gaps(s, j - 1) + if occurrences(s, nth_letter(j - 1)) > 0 {
            gap(occurrences(s, nth_letter(j - 1)), english_weights()[(j - 1) % 26] as int, s.len() as int)
        } else {
            0int
        }
    }
}

/// How well the frequency of each Latin letter of `s`, once `s` is put in small
/// letters, fits the frequency of the same letter in English; 0 where no letter occurs.
pub open spec fn character_of(s: Seq<char>) -> int {
    fit(matched_gaps(lower_text(s), 52), matched(lower_text(s), 52), lower_text(s).len() as int)
}

/// A gap is never wider than the span.
pub proof fn lemma_gap_bound(count: int, weight: int, len: int)
    requires
        0 <= count <= len,
        74 <= weight <= 99_926,
    ensures
        0 <= gap(count, weight, len) <= 99_926 * len,
{
    assert(74 * len <= weight * len <= 99_926 * len) by (nonlinear_arith)
        requires
            0 <= len,
            74 <= weight <= 99_926,
    ;
}

/// A fit is a score: at least 0 and at most one.
pub proof fn lemma_fit_bound(total: int, k: int, len: int)
    requires
        0 <= total <= k * 99_926 * len,
    ensures
        0 <= fit(total, k, len) <= 1_000_000_000,
{
    if k > 0 && len > 0 {
        let d = k * 99_926 * len;
        assert(d > 0) by (nonlinear_arith)
            requires
                k > 0,
                len > 0,
                d == k * 99_926 * len,
        ;
        let x = d - total;
        assert(0 <= (x * 1_000_000_000) / d <= 1_000_000_000) by (nonlinear_arith)
            requires
                0 <= x <= d,
                d > 0,
        ;
    }
}

/// The gap between a character's share of a text and a frequency of English.
fn gap_between(count: u64, weight: u64, len: u64) -> (g: u128)
    requires
        count <= len,
        74 <= weight <= 99_926,
    ensures
        g == gap(count as int, weight as int, len as int),
        g <= 99_926 * len,
{
    proof {
        lemma_gap_bound(count as int, weight as int, len as int);
        assert(weight * len <= 99_926 * len) by (nonlinear_arith)
            requires
                weight <= 99_926,
                len >= 0,
        ;
    }
    let share: u128 = count as u128 * 100_000;
    let expected: u128 = weight as u128 * len as u128;
    if share >= expected {
        share - expected
    } else {
        expected - share
    }
}

/// The score of `k` frequencies whose gaps make `total` together.
fn fit_of(total: u128, k: u64, len: u64) -> (score: u64)
    requires
        k <= 64,
        total <= k * 99_926 * len,
    ensures
        score == fit(total as int, k as int, len as int),
        score <= UNIT,
{
    if k == 0 || len == 0 {
        return 0;
    }
    proof {
        lemma_fit_bound(total as int, k as int, len as int);
        assert(0 < k * 99_926 * len <= 64 * 99_926 * 0xffff_ffff_ffff_ffff) by (nonlinear_arith)
            requires
                0 < k <= 64,
                0 < len <= 0xffff_ffff_ffff_ffff,
        ;
    }
    let whole: u128 = k as u128 * 99_926 * len as u128;
    (((whole - total) * 1_000_000_000) / whole) as u64
}

/// How well the shape of a distribution fits a reference.
fn shape(counts: &Vec<u64>, weights: &Vec<u64>, len: u64) -> (score: u64)
    requires
        forall|i: int| 0 <= i < counts@.len() ==> #[trigger] counts@[i] <= len,
        weights_in_span(weights@),
        weights@.len() <= 64,
    ensures
        score == shape_score(counts@, weights@, len as int),
        score <= UNIT,
{
    let ours = ranking(counts);
    let theirs = ranking(weights);
    let k = if counts.len() <= weights.len() {
        counts.len()
    } else {
        weights.len()
    };
    let ghost down = descending(counts@);
    let ghost refs = descending(weights@);
    let mut total: u128 = 0;
    let mut i: usize = 0;
    while i < k
        invariant
            i <= k,
            k == lesser(counts@.len() as int, weights@.len() as int),
            k <= 64,
            ours@ == ranked(counts@),
            theirs@ == ranked(weights@),
            ours@.len() == counts@.len(),
            theirs@.len() == weights@.len(),
            down == descending(counts@),
            refs == descending(weights@),
            forall|j: int|
                0 <= j < counts@.len() ==> (#[trigger] ours@[j]).1 < counts@.len() && ours@[j].0 == counts@[ours@[j].1 as int],
            forall|j: int|
                0 <= j < weights@.len() ==> (#[trigger] theirs@[j]).1 < weights@.len() && theirs@[j].0
                    == weights@[theirs@[j].1 as int],
            forall|j: int| 0 <= j < counts@.len() ==> #[trigger] counts@[j] <= len,
            weights_in_span(weights@),
            total == gaps(down, refs, len as int, i as int),
            total <= i * 99_926 * len,
        decreases k - i,
    {
        let count = ours[counts.len() - 1 - i].0;
        let weight = theirs[weights.len() - 1 - i].0;
        proof {
            let a = ours@[counts@.len() - 1 - i];
            let b = theirs@[weights@.len() - 1 - i];
            assert(counts@[a.1 as int] <= len);
            assert(74 <= weights@[b.1 as int] <= 99_926);
            assert(down[i as int] == count);
            assert(refs[i as int] == weight);
            assert((i + 1) * 99_926 * len == i * 99_926 * len + 99_926 * len) by (nonlinear_arith);
            assert(i * 99_926 * len <= 64 * 99_926 * 0xffff_ffff_ffff_ffff) by (nonlinear_arith)
                requires
                    0 <= i <= 64,
                    0 <= len <= 0xffff_ffff_ffff_ffff,
            ;
        }
        let g = gap_between(count, weight, len);
        total = total + g;
        i += 1;
    }
    fit_of(total, k as u64, len)
}

/// The counts of a tally as keys.
fn keys_of(tally: &Vec<(char, usize)>) -> (keys: Vec<u64>)
    ensures
        keys@ == counts_of(tally@),
{
    let mut keys: Vec<u64> = Vec::new();
    let mut i: usize = 0;
    while i < tally.len()
        invariant
            i <= tally.len(),
            keys@ == counts_of(tally@.take(i as int)),
        decreases tally.len() - i,
    {
        keys.push(tally[i].1 as u64);
        assert(keys@ =~= counts_of(tally@.take(i + 1)));
        i += 1;
    }
    assert(tally@.take(tally.len() as int) == tally@);
    keys
}

/// How well the frequencies of the characters of a text fit the shape of a reference.
fn shape_of_text(text: &str, weights: &Vec<u64>) -> (score: u64)
    requires
        weights_in_span(weights@),
        weights@.len() <= 64,
    ensures
        score == shape_score(counts_of(tally(lower_text(text@))), weights@, lower_text(text@).len() as int),
        score <= UNIT,
{
    let lower = to_lowercase(text);
    let chars = chars_of(lower.as_str());
    let tally = tally_of(&chars);
    let keys = keys_of(&tally);
    shape(&keys, weights, chars.len() as u64)
}

/// A score, in billionths, of how well the frequencies of the characters of `text` fit
/// the shape of the frequencies of English: the frequencies of the text, whatever the
/// characters, and those of the letters in English are each put in descending order
/// and compared place by place. A text that a substitution made of English scores
/// as the English did. The score of the empty text is 0.
pub fn distribution_score(text: &str) -> (score: u64)
    ensures
        score == distribution_of(text@),
        score <= UNIT,
{
    let reference = weights();
    proof {
        lemma_weights_in_span();
    }
    shape_of_text(text, &reference)
}

/// The score of [`distribution_score`], with the frequencies of the 42 most frequent
/// pairs of letters in English as the reference. The frequencies of the text are still
/// those of its single characters.
pub fn bigram_distribution_score(text: &str) -> (score: u64)
    ensures
        score == bigram_distribution_of(text@),
        score <= UNIT,
{
    let reference = pair_weights();
    proof {
        lemma_weights_in_span();
    }
    shape_of_text(text, &reference)
}

/// The frequencies of English can all be measured against.
pub proof fn lemma_weights_in_span()
    ensures
        weights_in_span(english_weights()),
        weights_in_span(bigram_weights()),
        english_weights().len() == 26,
        bigram_weights().len() == 42,
{
}

/// A score, in billionths, of how well the frequency of each Latin letter of `text`
/// fits the frequency of the same letter in English; 0 where the text holds no letter.
pub fn character_score(text: &str) -> (score: u64)
    ensures
        score == character_of(text@),
        score <= UNIT,
{
    let lower = to_lowercase(text);
    let chars = chars_of(lower.as_str());
    let reference = weights();
    let ghost s = chars@;
    let mut counts: Vec<u64> = Vec::new();
    let mut n: usize = 0;
    while n < 52
        invariant
            n <= 52,
            counts@.len() == n,
            forall|k: int| 0 <= k < n ==> #[trigger] counts@[k] == 0,
        decreases 52 - n,
    {
        counts.push(0);
        n += 1;
    }
    let mut i: usize = 0;
    assert(chars@.take(0) =~= Seq::<char>::empty());
    while i < chars.len()
        invariant
            i <= chars.len(),
            counts@.len() == 52,
            forall|k: int| 0 <= k < 52 ==> #[trigger] counts@[k] == occurrences(chars@.take(i as int), nth_letter(k)),
        decreases chars.len() - i,
    {
        let c = chars[i];
        let ghost before = chars@.take(i as int);
        let ghost now = chars@.take(i + 1);
        let ghost old_counts = counts@;
        proof {
            assert(now.drop_last() == before && now.last() == c);
        }
        if 'a' <= c && c <= 'z' {
            let slot = (c as u8 - 97) as usize;
            proof {
                assert(nth_letter(slot as int) == c);
                lemma_occurrences_bound(now, c);
            }
            let old = counts[slot];
            counts.set(slot, old + 1);
        } else if 'A' <= c && c <= 'Z' {
            let slot = (c as u8 - 65) as usize + 26;
            proof {
                assert(nth_letter(slot as int) == c);
                lemma_occurrences_bound(now, c);
            }
            let old = counts[slot];
            counts.set(slot, old + 1);
        }
        proof {
            assert forall|k: int| 0 <= k < 52 implies #[trigger] counts@[k] == occurrences(now, nth_letter(k)) by {
                assert(old_counts[k] == occurrences(before, nth_letter(k)));
                if nth_letter(k) == c {
                    if k < 26 {
                        assert(k == c as int - 97);
                    } else {
                        assert(k == c as int - 65 + 26);
                    }
                }
            }
        }
        i += 1;
    }
    assert(chars@.take(chars.len() as int) == chars@);
    let len = chars.len() as u64;
    let mut total: u128 = 0;
    let mut hits: u64 = 0;
    let mut j: usize = 0;
    proof {
        lemma_weights_in_span();
    }
    while j < 52
        invariant
            j <= 52,
            counts@.len() == 52,
            reference@ == english_weights(),
            len == s.len(),
            forall|k: int| 0 <= k < 52 ==> #[trigger] counts@[k] == occurrences(s, nth_letter(k)),
            hits == matched(s, j as int),
            hits <= j,
            total == matched_gaps(s, j as int),
            total <= hits * 99_926 * len,
        decreases 52 - j,
    {
        let count = counts[j];
        proof {
            lemma_occurrences_bound(s, nth_letter(j as int));
            assert(hits * 99_926 * len <= 64 * 99_926 * 0xffff_ffff_ffff_ffff) by (nonlinear_arith)
                requires
                    0 <= hits <= 64,
                    0 <= len <= 0xffff_ffff_ffff_ffff,
            ;
            assert((hits + 1) * 99_926 * len == hits * 99_926 * len + 99_926 * len) by (nonlinear_arith);
        }
        if count > 0 {
            let weight = reference[j % 26];
            assert(74 <= english_weights()[(j % 26) as int] <= 99_926);
            let g = gap_between(count, weight, len);
            total = total + g;
            hits = hits + 1;
        }
        j += 1;
    }
    fit_of(total, hits, len)
}

/// Among the first `j` small letters that are not in `taken`, the place of the one
/// whose frequency in English is closest to the share `count` of `len`, and of
/// several as close the first; -1 where all of them are taken.
pub open spec fn closest_free(taken: Seq<char>, count: int, len: int, j: int) -> int
    decreases j,
{
    if j <= 0 {
        -1
    } else {
        let before = closest_free(taken, count, len, j - 1);
        if taken.contains((96 + j) as u8 as char) {
            before
        } else if before == -1 || gap(count, english_weights()[j - 1] as int, len) < gap(
            count,
            english_weights()[before] as int,
            len,
        ) {
            j - 1
        } else {
            before
        }
    }
}

/// The letters that are given to the characters of `s`, in the order in which the
/// characters first occur: each character gets the small letter, not given before,
/// whose frequency in English is closest to the character's share of the text
/// `lower`. Nothing where a character does not occur in `lower`, or after 26
/// characters no letter is left.
pub open spec fn letters_given(s: Seq<char>, lower: Seq<char>) -> Option<(Seq<char>, Seq<char>)>
    decreases s.len(),
{
    if s.len() == 0 {
        Some((Seq::empty(), Seq::empty()))
    } else {
        match letters_given(s.drop_last(), lower) {
            None => None,
            Some((from, to)) => if from.contains(s.last()) {
                Some((from, to))
            } else {
                let at = closest_free(to, occurrences(lower, s.last()), lower.len() as int, 26);
                if occurrences(lower, s.last()) == 0 || at < 0 {
                    None
                } else {
                    Some((from.push(s.last()), to.push((97 + at) as u8 as char)))
                }
            },
        }
    }
}

/// The text with each character replaced by the letter given to it; see
/// [`letters_given`].
pub open spec fn mapped(text: Seq<char>) -> Option<Seq<char>> {
    match letters_given(text, lower_text(text)) {
        Some((from, to)) => Some(Seq::new(text.len(), |i: int| to[first_place(from, text[i])])),
        None => None,
    }
}

/// What `closest_free` returns is a free letter, or -1.
pub proof fn lemma_closest_free(taken: Seq<char>, count: int, len: int, j: int)
    requires
        0 <= j <= 26,
    ensures
        -1 <= closest_free(taken, count, len, j) < j,
        closest_free(taken, count, len, j) >= 0 ==> !taken.contains(
            (97 + closest_free(taken, count, len, j)) as u8 as char,
        ),
    decreases j,
{
    if j > 0 {
        lemma_closest_free(taken, count, len, j - 1);
    }
}

/// Every character that the letters are given to is among them.
pub proof fn lemma_letters_given(s: Seq<char>, lower: Seq<char>)
    requires
        letters_given(s, lower) is Some,
    ensures
        letters_given(s, lower)->Some_0.0.len() == letters_given(s, lower)->Some_0.1.len(),
        forall|i: int| 0 <= i < s.len() ==> letters_given(s, lower)->Some_0.0.contains(#[trigger] s[i]),
    decreases s.len(),
{
    if s.len() > 0 {
        let rest = s.drop_last();
        lemma_letters_given(rest, lower);
        let (from, to) = letters_given(rest, lower)->Some_0;
        let now = letters_given(s, lower)->Some_0.0;
        assert forall|i: int| 0 <= i < s.len() implies now.contains(#[trigger] s[i]) by {
            if i < s.len() - 1 {
                assert(rest[i] == s[i]);
                let k = choose|k: int| 0 <= k < from.len() && from[k] == rest[i];
                assert(now[k] == s[i]);
            } else if !from.contains(s.last()) {
                assert(now[from.len() as int] == s.last());
            }
        }
    }
}

/// Replaces each character of `text` by the small letter whose frequency in English
/// is closest to the character's share of the text, once the text is put in small
/// letters; no letter is given to two characters, and of two letters as close the
/// first in the alphabet is given. Fails where a character does not occur in the text
/// put in small letters, as a capital does not, or the text has more than 26
/// different characters.
pub fn mapped_to_english(text: &str) -> (r: Result<String, CipherError>)
    ensures
        match mapped(text@) {
            Some(out) => r is Ok && r->Ok_0@ == out,
            None => r is Err && r->Err_0 == CipherError::InvalidArgument,
        },
{
    let lower = to_lowercase(text);
    let lowered = chars_of(lower.as_str());
    let table = tally_of(&lowered);
    let chars = chars_of(text);
    let reference = weights();
    let len = lowered.len() as u64;
    let ghost low = lowered@;
    let mut from: Vec<char> = Vec::new();
    let mut to: Vec<char> = Vec::new();
    let mut out: Vec<char> = Vec::new();
    let mut i: usize = 0;
    assert(chars@.take(0) =~= Seq::<char>::empty());
    proof {
        lemma_weights_in_span();
    }
    while i < chars.len()
        invariant
            i <= chars.len(),
            chars@ == text@,
            low == lower_text(text@),
            low == lowered@,
            len == low.len(),
            table@ == tally(low),
            reference@ == english_weights(),
            letters_given(chars@.take(i as int), low) == Some((from@, to@)),
            from@.len() == to@.len(),
            out@.len() == i,
            forall|k: int| 0 <= k < i ==> #[trigger] out@[k] == to@[first_place(from@, chars@[k])],
            forall|k: int| 0 <= k < i ==> first_place(from@, #[trigger] chars@[k]) < from@.len(),
        decreases chars.len() - i,
    {
        let c = chars[i];
        let ghost before = chars@.take(i as int);
        let ghost now = chars@.take(i + 1);
        let ghost old_from = from@;
        let ghost old_to = to@;
        assert(old_from.len() == old_to.len());
        proof {
            assert(now.drop_last() == before && now.last() == c);
            lemma_first_place(from@, c);
        }
        let known = find_char(&from, c);
        if known == from.len() {
            assert(!from@.contains(c));
            let count = count_in(&table, c, Ghost(low));
            proof {
                lemma_occurrences_bound(low, c);
            }
            if count == 0 {
                proof {
                    assert(letters_given(now, low) is None);
                    lemma_given_fails(chars@, low, i + 1);
                    assert(chars@.take(chars@.len() as int) == chars@);
                }
                return Err(CipherError::InvalidArgument);
            }
            let at = closest(&to, count as u64, len, &reference);
            if at == 26 {
                proof {
                    assert(letters_given(now, low) is None);
                    lemma_given_fails(chars@, low, i + 1);
                    assert(chars@.take(chars@.len() as int) == chars@);
                }
                return Err(CipherError::InvalidArgument);
            }
            from.push(c);
            to.push((97 + at) as char);
        }
        proof {
            lemma_first_place(from@, c);
            assert forall|k: int| 0 <= k < i implies first_place(from@, #[trigger] chars@[k]) == first_place(
                old_from,
                chars@[k],
            ) by {
                lemma_first_place(old_from, chars@[k]);
                crate::text::lemma_first_place_is(from@, chars@[k], first_place(old_from, chars@[k]));
            }
            if known < old_from.len() {
                assert(first_place(from@, c) == known);
            } else {
                crate::text::lemma_first_place_is(from@, c, old_from.len() as int);
            }
        }
        let place = find_char(&from, c);
        let ghost old_out = out@;
        out.push(to[place]);
        proof {
            assert forall|k: int| 0 <= k < i + 1 implies #[trigger] out@[k] == to@[first_place(from@, chars@[k])]
                && first_place(from@, chars@[k]) < from@.len() by {
                if k < i {
                    lemma_first_place(old_from, chars@[k]);
                    assert(out@[k] == old_out[k]);
                    assert(old_out[k] == old_to[first_place(old_from, chars@[k])]);
                    assert(first_place(old_from, chars@[k]) < old_from.len());
                    assert(to@[first_place(old_from, chars@[k])] == old_to[first_place(old_from, chars@[k])]);
                }
            }
        }
        i += 1;
    }
    proof {
        assert(chars@.take(chars.len() as int) == chars@);
        assert(out@ =~= mapped(text@)->Some_0);
    }
    Ok(string_of(&out))
}

/// Where letters cannot be given to the first characters, they cannot to all.
proof fn lemma_given_fails(s: Seq<char>, lower: Seq<char>, k: int)
    requires
        0 <= k <= s.len(),
        letters_given(s.take(k), lower) is None,
    ensures
        letters_given(s.take(s.len() as int), lower) is None,
    decreases s.len() - k,
{
    if k < s.len() {
        assert(s.take(k + 1).drop_last() == s.take(k));
        lemma_given_fails(s, lower, k + 1);
    }
}

/// How often `c` occurs in the text of the tally.
fn count_in(table: &Vec<(char, usize)>, c: char, Ghost(s): Ghost<Seq<char>>) -> (n: usize)
    requires
        table@ == tally(s),
        s.len() <= usize::MAX,
    ensures
        n == occurrences(s, c),
{
    let mut i: usize = 0;
    proof {
        lemma_unique_holds(Seq::empty(), s, c);
    }
    while i < table.len()
        invariant
            i <= table.len(),
            table@ == tally(s),
            s.len() <= usize::MAX,
            forall|k: int| 0 <= k < i ==> unique_chars(s)[k] != c,
        decreases table.len() - i,
    {
        assert(table@[i as int].0 == unique_chars(s)[i as int]);
        if table[i].0 == c {
            proof {
                lemma_occurrences_bound(s, c);
                assert(table@[i as int].1 == occurrences(s, unique_chars(s)[i as int]) as usize);
            }
            return table[i].1;
        }
        i += 1;
    }
    proof {
        assert(!unique_chars(s).contains(c));
        lemma_absent(s, c);
    }
    0
}

/// A character of the text, or one seen before, is among the characters without
/// repetitions.
proof fn lemma_unique_holds(seen: Seq<char>, s: Seq<char>, c: char)
    ensures
        (seen.contains(c) || s.contains(c)) ==> unique_after(seen, s).contains(c),
    decreases s.len(),
{
    if s.len() > 0 {
        let rest = s.drop_first();
        if s.contains(c) && !seen.contains(c) && s[0] != c {
            let k = choose|k: int| 0 <= k < s.len() && s[k] == c;
            assert(rest[k - 1] == c);
        }
        if seen.contains(s[0]) {
            lemma_unique_holds(seen, rest, c);
        } else {
            let more = seen.push(s[0]);
            if seen.contains(c) {
                let k = choose|k: int| 0 <= k < seen.len() && seen[k] == c;
                assert(more[k] == c);
            }
            if s[0] == c {
                assert(more[seen.len() as int] == c);
            }
            lemma_unique_holds(more, rest, c);
        }
    }
}

/// A character that is not among the characters without repetitions does not occur.
proof fn lemma_absent(s: Seq<char>, c: char)
    requires
        !unique_chars(s).contains(c),
    ensures
        occurrences(s, c) == 0,
{
    lemma_unique_holds(Seq::empty(), s, c);
    lemma_not_contained(s, c);
}

/// A character that a text does not hold occurs in it no times.
proof fn lemma_not_contained(s: Seq<char>, c: char)
    requires
        !s.contains(c),
    ensures
        occurrences(s, c) == 0,
    decreases s.len(),
{
    if s.len() > 0 {
        let rest = s.drop_last();
        assert(s[s.len() - 1] != c);
        if rest.contains(c) {
            let k = choose|k: int| 0 <= k < rest.len() && rest[k] == c;
            assert(s[k] == c);
        }
        lemma_not_contained(rest, c);
    }
}

/// The place of the free letter closest to the share, or 26 where no letter is free.
fn closest(taken: &Vec<char>, count: u64, len: u64, reference: &Vec<u64>) -> (at: u8)
    requires
        reference@ == english_weights(),
        count <= len,
    ensures
        at <= 26,
        at < 26 ==> at == closest_free(taken@, count as int, len as int, 26),
        at == 26 ==> closest_free(taken@, count as int, len as int, 26) == -1,
{
    let mut best: u8 = 26;
    let mut least: u128 = 0;
    let mut j: u8 = 0;
    proof {
        lemma_weights_in_span();
    }
    while j < 26
        invariant
            j <= 26,
            reference@ == english_weights(),
            count <= len,
            best < 26 ==> best == closest_free(taken@, count as int, len as int, j as int) && least == gap(
                count as int,
                english_weights()[best as int] as int,
                len as int,
            ),
            best >= 26 ==> best == 26 && closest_free(taken@, count as int, len as int, j as int) == -1,
        decreases 26 - j,
    {
        let letter = (97 + j) as char;
        let at = find_char(taken, letter);
        proof {
            lemma_first_place(taken@, letter);
            lemma_closest_free(taken@, count as int, len as int, j as int);
            if at < taken@.len() {
                assert(taken@[at as int] == letter);
            }
        }
        if at == taken.len() {
            assert(!taken@.contains(letter));
            assert(74 <= english_weights()[j as int] <= 99_926);
            let g = gap_between(count, reference[j as usize], len);
            if best == 26 || g < least {
                best = j;
                least = g;
            }
        }
        j += 1;
    }
    best
}

/// The small letter whose frequency in English is closest to the share `count` of
/// `len`, which is at most one; of two letters as close, the first in the alphabet.
pub fn closest_english_letter(count: u64, len: u64) -> (letter: char)
    requires
        count <= len,
    ensures
        letter == (97 + closest_free(Seq::empty(), count as int, len as int, 26)) as u8 as char,
        0 <= closest_free(Seq::empty(), count as int, len as int, 26) < 26,
{
    let none: Vec<char> = Vec::new();
    let reference = weights();
    let at = closest(&none, count, len, &reference);
    proof {
        lemma_some_free(count as int, len as int, 26);
    }
    (97 + at) as char
}

/// Where no letter is taken, one is closest.
proof fn lemma_some_free(count: int, len: int, j: int)
    requires
        1 <= j <= 26,
    ensures
        0 <= closest_free(Seq::empty(), count, len, j) < j,
    decreases j,
{
    if j > 1 {
        lemma_some_free(count, len, j - 1);
    } else {
        assert(closest_free(Seq::empty(), count, len, 0) == -1);
    }
    assert(!Seq::<char>::empty().contains((96 + j) as u8 as char));
}

} // verus!
