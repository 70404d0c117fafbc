//! Candidate plaintexts and the score by which the best of them is picked.

use vstd::prelude::*;
use crate::analysis::{index_of_coincidence, ioc_of};
use crate::cipher_type::lemma_ioc_small;
use crate::dictionary::{average_commonality, average_commonality_score, Dictionary};
use crate::error::CipherError;
use crate::frequency::{
    bigram_distribution_of, bigram_distribution_score, character_of, character_score,
    distribution_of, distribution_score, UNIT,
};
use crate::order::{pair_leq, ranked, ranking};
use crate::text::chars_of;

verus! {

/// How close the index of coincidence `n / d` is to that of English, 0.0667: one less
/// the distance over 0.9333, in billionths and rounded down.
pub open spec fn coincidence_fit(n: int, d: int) -> int {
    let away = if 10_000 * n >= 667 * d {
        10_000 * n - 667 * d
    } else {
        667 * d - 10_000 * n
    };
    ((9_333 * d - away) * 1_000_000_000) / (9_333 * d)
}

/// The score of a text, in billionths: the mean, rounded down, of how close its index
/// of coincidence is to that of English, of its character score, of its distribution
/// score, of its bigram distribution score and, where the text holds a space, of the
/// mean commonality of its words.
pub open spec fn score_of(list: Seq<Seq<char>>, s: Seq<char>) -> int {
    let parts = coincidence_fit(ioc_of(s).0, ioc_of(s).1) + character_of(s) + distribution_of(s)
        + bigram_distribution_of(s);
    if s.contains(' ') {
        (parts + average_commonality(list, s)) / 5
    } else {
        parts / 4
    }
}

/// The scores of texts, in their order.
pub open spec fn scores_of(list: Seq<Seq<char>>, texts: Seq<String>) -> Seq<u64> {
    Seq::new(texts.len(), |i: int| score_of(list, texts[i]@) as u64)
}

/// Whether every text is short enough to be scored: at most 2^32 - 1 characters.
pub open spec fn scorable(texts: Seq<String>) -> bool {
    forall|i: int| 0 <= i < texts.len() ==> (#[trigger] texts[i])@.len() <= u32::MAX
}

/// The closeness of an index of coincidence to that of English is a score.
pub proof fn lemma_coincidence_fit(n: int, d: int)
    requires
        0 <= n <= d,
        0 < d,
    ensures
        0 <= coincidence_fit(n, d) <= 1_000_000_000,
{
    let away = if 10_000 * n >= 667 * d {
        10_000 * n - 667 * d
    } else {
        667 * d - 10_000 * n
    };
    let whole = 9_333 * d;
    let x = whole - away;
    assert(0 <= (x * 1_000_000_000) / whole <= 1_000_000_000) by (nonlinear_arith)
        requires
            0 <= x <= whole,
            0 < whole,
    ;
}

/// A text that may be the plaintext of a cipher.
#[derive(Debug, Hash, PartialEq, Eq, Clone)]
pub struct PossiblePlaintext(String);

impl View for PossiblePlaintext {
    type V = Seq<char>;

    closed spec fn view(&self) -> Seq<char> {
        self.0@
    }
}

impl PossiblePlaintext {
    /// The candidate with the text `plaintext`.
    pub fn new(plaintext: &str) -> (candidate: Self)
        ensures
            candidate@ == plaintext@,
    {
        Self(plaintext.to_owned())
    }

    /// The score of this text, in billionths; the higher, the more the text is like
    /// English. See [`score_of`].
    pub fn score(&self, dictionary: &Dictionary) -> (score: u64)
        requires
            self@.len() <= u32::MAX,
        ensures
            score == score_of(dictionary@, self@),
            score <= UNIT,
    {
        score_text(self.0.as_str(), dictionary)
    }

    /// The text of this candidate.
    pub fn text(&self) -> (text: &str)
        ensures
            text@ == self@,
    {
        self.0.as_str()
    }

    /// The text with the highest score, and of several with that score the last;
    /// `None` where there is no text.
    pub fn best(plaintexts: &Vec<String>, dictionary: &Dictionary) -> (best: Option<String>)
        requires
            scorable(plaintexts@),
        ensures
            plaintexts@.len() == 0 ==> best is None,
            plaintexts@.len() > 0 ==> best is Some && exists|i: int|
                0 <= i < plaintexts@.len() && best->Some_0@ == (#[trigger] plaintexts@[i])@ && (forall|
                    j: int,
                |
                    0 <= j < plaintexts@.len() ==> #[trigger] scores_of(dictionary@, plaintexts@)[j]
                        <= scores_of(dictionary@, plaintexts@)[i]) && (forall|j: int|
                    i < j < plaintexts@.len() ==> #[trigger] scores_of(dictionary@, plaintexts@)[j]
                        < scores_of(dictionary@, plaintexts@)[i]),
    {
        if plaintexts.len() == 0 {
            return None;
        }
        let ghost scores = scores_of(dictionary@, plaintexts@);
        let mut at: usize = 0;
        let mut top: u64 = score_text(plaintexts[0].as_str(), dictionary);
        let mut i: usize = 1;
        while i < plaintexts.len()
            invariant
                1 <= i <= plaintexts.len(),
                scorable(plaintexts@),
                scores == scores_of(dictionary@, plaintexts@),
                at < i,
                top == scores[at as int],
                forall|j: int| 0 <= j < i ==> #[trigger] scores[j] <= top,
                forall|j: int| at < j < i ==> #[trigger] scores[j] < top,
            decreases plaintexts.len() - i,
        {
            let score = score_text(plaintexts[i].as_str(), dictionary);
            assert(score == scores[i as int]);
            if score >= top {
                at = i;
                top = score;
            }
            i += 1;
        }
        let best = plaintexts[at].clone();
        assert(best@ == plaintexts@[at as int]@);
        Some(best)
    }

    /// The `n` texts with the highest scores, the best first; of texts with the same
    /// score, the later comes first. Fails where `n` is 0 or more than the number of
    /// texts, so for every `n` where there is no text.
    pub fn best_n(plaintexts: &Vec<String>, n: usize, dictionary: &Dictionary) -> (best: Result<
        Vec<String>,
        CipherError,
    >)
        requires
            scorable(plaintexts@),
        ensures
            (n == 0 || n > plaintexts@.len()) ==> best is Err && best->Err_0
                == CipherError::InvalidArgument,
            1 <= n <= plaintexts@.len() ==> best is Ok && best->Ok_0@.len() == n && top_of(
                dictionary@,
                plaintexts@,
                best->Ok_0@,
            ) && descending_scores(dictionary@, best->Ok_0@),
    {
        if n == 0 || n > plaintexts.len() {
            return Err(CipherError::InvalidArgument);
        }
        let ghost list = dictionary@;
        let mut scores: Vec<u64> = Vec::new();
        let mut i: usize = 0;
        while i < plaintexts.len()
            invariant
                i <= plaintexts.len(),
                scorable(plaintexts@),
                list == dictionary@,
                scores@.len() == i,
                forall|j: int| 0 <= j < i ==> #[trigger] scores@[j] as int == score_of(list, plaintexts@[j]@),
            decreases plaintexts.len() - i,
        {
            let score = score_text(plaintexts[i].as_str(), dictionary);
            scores.push(score);
            i += 1;
        }
        assert(scores@ =~= scores_of(list, plaintexts@));
        let order = ranking(&scores);
        let len = plaintexts.len();
        let mut best: Vec<String> = Vec::new();
        let mut k: usize = 0;
        while k < n
            invariant
                k <= n <= len,
                len == plaintexts@.len(),
                scores@ == scores_of(list, plaintexts@),
                forall|j: int| 0 <= j < len ==> #[trigger] scores@[j] as int == score_of(list, plaintexts@[j]@),
                order@ == ranked(scores@),
                order@.len() == len,
                forall|j: int|
                    0 <= j < len ==> (#[trigger] order@[j]).1 < len && order@[j].0 == scores@[order@[j].1 as int],
                forall|a: int, b: int| 0 <= a < b < len ==> pair_leq(#[trigger] order@[a], #[trigger] order@[b]),
                best@.len() == k,
                forall|j: int|
                    0 <= j < k ==> (#[trigger] best@[j])@ == plaintexts@[order@[len - 1 - j].1 as int]@,
            decreases n - k,
        {
            let from = order[len - 1 - k].1;
            best.push(plaintexts[from].clone());
            k += 1;
        }
        proof {
            assert forall|a: int, b: int| 0 <= a < b < best@.len() implies score_of(list, (#[trigger] best@[a])@)
                >= score_of(list, (#[trigger] best@[b])@) by {
                let x = order@[len - 1 - a];
                let y = order@[len - 1 - b];
                assert(pair_leq(y, x));
                assert(x.0 == scores@[x.1 as int] && y.0 == scores@[y.1 as int]);
                assert(scores@[x.1 as int] as int == score_of(list, plaintexts@[x.1 as int]@));
                assert(scores@[y.1 as int] as int == score_of(list, plaintexts@[y.1 as int]@));
            }
        }
        Ok(best)
    }
}

/// Whether `best` holds the texts with the highest scores, the best first: its text at
/// place `k` is the one that stands `k` places from the end when the texts are ranked
/// by score, with texts of the same score in their own order.
pub open spec fn top_of(list: Seq<Seq<char>>, texts: Seq<String>, best: Seq<String>) -> bool {
    forall|k: int|
        0 <= k < best.len() ==> (#[trigger] best[k])@ == texts[ranked(scores_of(list, texts))[texts.len() - 1
            - k].1 as int]@
}

/// Whether no text has a higher score than one before it.
pub open spec fn descending_scores(list: Seq<Seq<char>>, best: Seq<String>) -> bool {
    forall|a: int, b: int|
        0 <= a < b < best.len() ==> score_of(list, (#[trigger] best[a])@) >= score_of(
            list,
            (#[trigger] best[b])@,
        )
}

/// How close the index of coincidence of `text` is to that of English, in billionths;
/// see [`coincidence_fit`]. Nothing for a text of more than 2^32 - 1 characters.
pub fn coincidence_score(text: &str) -> (r: Option<u64>)
    ensures
        text@.len() <= u32::MAX ==> r is Some && r->Some_0 == coincidence_fit(ioc_of(text@).0, ioc_of(text@).1),
        text@.len() > u32::MAX ==> r is None,
        r is Some ==> r->Some_0 <= UNIT,
{
    let chars = chars_of(text);
    if chars.len() > 0xffff_ffff {
        return None;
    }
    let ioc = index_of_coincidence(text);
    proof {
        lemma_ioc_small(text@);
        lemma_coincidence_fit(ioc.numerator as int, ioc.denominator as int);
    }
    let share: u128 = 10_000 * ioc.numerator;
    let english: u128 = 667 * ioc.denominator;
    let away: u128 = if share >= english {
        share - english
    } else {
        english - share
    };
    let whole: u128 = 9_333 * ioc.denominator;
    Some((((whole - away) * 1_000_000_000) / whole) as u64)
}

/// The score of `text`, in billionths.
fn score_text(text: &str, dictionary: &Dictionary) -> (score: u64)
    requires
        text@.len() <= u32::MAX,
    ensures
        score == score_of(dictionary@, text@),
        score <= UNIT,
{
    let ioc = index_of_coincidence(text);
    proof {
        lemma_ioc_small(text@);
        lemma_coincidence_fit(ioc.numerator as int, ioc.denominator as int);
    }
    let share: u128 = 10_000 * ioc.numerator;
    let english: u128 = 667 * ioc.denominator;
    let away: u128 = if share >= english {
        share - english
    } else {
        english - share
    };
    let whole: u128 = 9_333 * ioc.denominator;
    let closeness = (((whole - away) * 1_000_000_000) / whole) as u64;
    let parts: u64 = closeness + character_score(text) + distribution_score(text)
        + bigram_distribution_score(text);
    let chars = chars_of(text);
    if has_space(&chars) {
        (parts + average_commonality_score(dictionary, text)) / 5
    } else {
        parts / 4
    }
}

/// Whether `chars` holds a space.
fn has_space(chars: &Vec<char>) -> (b: bool)
    ensures
        b == chars@.contains(' '),
{
    let mut i: usize = 0;
    while i < chars.len()
        invariant
            i <= chars.len(),
            forall|k: int| 0 <= k < i ==> #[trigger] chars@[k] != ' ',
        decreases chars.len() - i,
    {
        if chars[i] == ' ' {
            return true;
        }
        i += 1;
    }
    false
}

} // verus!
