//! A list of common words, most common first, and scores of how common a word is.

use vstd::prelude::*;
use crate::frequency::UNIT;
use crate::text::{
    alphabetic, chars_of, is_alphabetic, lower_text, split_words, string_of, to_lowercase, word_views,
    words,
};

verus! {

/// A list of words, the most common first.
#[derive(Debug)]
pub struct Dictionary {
    words: Vec<Vec<char>>,
}

impl View for Dictionary {
    type V = Seq<Seq<char>>;

    closed spec fn view(&self) -> Seq<Seq<char>> {
        word_views(self.words@)
    }
}

impl Dictionary {
    /// The dictionary of the words of `list`, which are separated by white space and
    /// stand in descending order of their frequency.
    pub fn new(list: &str) -> (dictionary: Dictionary)
        ensures
            dictionary@ == words(list@),
    {
        Dictionary { words: split_words(list) }
    }

    /// The number of words.
    pub fn len(&self) -> (n: usize)
        ensures
            n == self@.len(),
    {
        self.words.len()
    }
}

/// The first place at which `list` holds `word`, or the length of `list` where it
/// does not hold `word`.
pub open spec fn rank_of(list: Seq<Seq<char>>, word: Seq<char>) -> int
    decreases list.len(),
{
    if list.len() == 0 {
        0
    } else if list[0] == word {
        0
    } else {
        1 + rank_of(list.drop_first(), word)
    }
}

/// What `rank_of` is: the first place of the word, and the length where there is none.
pub proof fn lemma_rank_of(list: Seq<Seq<char>>, word: Seq<char>)
    ensures
        0 <= rank_of(list, word) <= list.len(),
        rank_of(list, word) < list.len() ==> list[rank_of(list, word)] == word,
        forall|j: int| 0 <= j < rank_of(list, word) ==> #[trigger] list[j] != word,
    decreases list.len(),
{
    if list.len() > 0 && list[0] != word {
        let rest = list.drop_first();
        lemma_rank_of(rest, word);
        assert forall|j: int| 0 <= j < rank_of(list, word) implies #[trigger] list[j] != word by {
            if j > 0 {
                assert(list[j] == rest[j - 1]);
            }
        }
    }
}

/// A place that holds the word and has none of it before is its rank.
pub proof fn lemma_rank_is(list: Seq<Seq<char>>, word: Seq<char>, i: int)
    requires
        0 <= i <= list.len(),
        i < list.len() ==> list[i] == word,
        forall|j: int| 0 <= j < i ==> #[trigger] list[j] != word,
    ensures
        rank_of(list, word) == i,
{
    lemma_rank_of(list, word);
    let p = rank_of(list, word);
    if p < i {
        assert(list[p] != word);
    } else if i < p {
        assert(list[i] != word);
    }
}

/// How common `word` is, in billionths: 1 for the first word of the list, less by one
/// part in the list's length for each place further down, and 0 for a word that the
/// list does not hold.
pub open spec fn commonality(list: Seq<Seq<char>>, word: Seq<char>) -> int {
    if rank_of(list, word) < list.len() {
        ((list.len() - rank_of(list, word)) * 1_000_000_000) / (list.len() as int)
    } else {
        0
    }
}

/// The alphabetic characters of `s`, in order.
pub open spec fn letters_only(s: Seq<char>) -> Seq<char>
    decreases s.len(),
{
    if s.len() == 0 {
        Seq::empty()
    } else if alphabetic(s.last()) {
        letters_only(s.drop_last()).push(s.last())
    } else {
        letters_only(s.drop_last())
    }
}

/// The commonality of the first `j` tokens, each without its characters that are not
/// alphabetic, taken together.
pub open spec fn commonality_sum(list: Seq<Seq<char>>, tokens: Seq<Seq<char>>, j: int) -> int
    decreases j,
{
    if j <= 0 {
        0
    } else {
        commonality_sum(list, tokens, j - 1) + commonality(list, letters_only(tokens[j - 1]))
    }
}

/// The mean commonality of the words of `text`, in billionths and rounded down: the
/// text is put in small letters and split at white space, and each word is stripped of
/// what is not alphabetic. 0 where the text has no word.
pub open spec fn average_commonality(list: Seq<Seq<char>>, text: Seq<char>) -> int {
    let tokens = words(lower_text(text));
    if tokens.len() == 0 {
        0
    } else {
        commonality_sum(list, tokens, tokens.len() as int) / (tokens.len() as int)
    }
}

/// A commonality is a score: at least 0 and at most one.
pub proof fn lemma_commonality_bound(list: Seq<Seq<char>>, word: Seq<char>)
    ensures
        0 <= commonality(list, word) <= 1_000_000_000,
{
    lemma_rank_of(list, word);
    let r = rank_of(list, word);
    let n = list.len() as int;
    if r < n {
        let x = n - r;
        assert(0 <= (x * 1_000_000_000) / n <= 1_000_000_000) by (nonlinear_arith)
            requires
                0 < x <= n,
        ;
    }
}

/// Whether two lists of characters are the same.
fn same_chars(a: &Vec<char>, b: &Vec<char>) -> (same: bool)
    ensures
        same == (a@ == b@),
{
    if a.len() != b.len() {
        return false;
    }
    let mut i: usize = 0;
    while i < a.len()
        invariant
            i <= a.len(),
            a.len() == b.len(),
            forall|k: int| 0 <= k < i ==> a@[k] == b@[k],
        decreases a.len() - i,
    {
        if a[i] != b[i] {
            return false;
        }
        i += 1;
    }
    assert(a@ =~= b@);
    true
}

/// The rank of `word` in the dictionary.
fn rank(dictionary: &Dictionary, word: &Vec<char>) -> (r: usize)
    ensures
        r == rank_of(dictionary@, word@),
        r <= dictionary@.len(),
{
    let mut i: usize = 0;
    while i < dictionary.words.len()
        invariant
            i <= dictionary.words.len(),
            forall|j: int| 0 <= j < i ==> #[trigger] dictionary@[j] != word@,
        decreases dictionary.words.len() - i,
    {
        if same_chars(&dictionary.words[i], word) {
            proof {
                assert(dictionary@[i as int] == word@);
                lemma_rank_is(dictionary@, word@, i as int);
            }
            return i;
        }
        assert(dictionary@[i as int] == dictionary.words@[i as int]@);
        i += 1;
    }
    proof {
        lemma_rank_is(dictionary@, word@, i as int);
    }
    i
}

/// Whether `word` is one of the words of the dictionary.
pub fn is_common_word(dictionary: &Dictionary, word: &str) -> (common: bool)
    ensures
        common == dictionary@.contains(word@),
{
    let chars = chars_of(word);
    let r = rank(dictionary, &chars);
    proof {
        lemma_rank_of(dictionary@, word@);
        if r < dictionary@.len() {
            assert(dictionary@[r as int] == word@);
        }
    }
    r < dictionary.words.len()
}

/// The words of the dictionary from place `n` on, `n` being no more than the number
/// of words: all but the `n` most common.
pub fn n_most_common(dictionary: &Dictionary, n: usize) -> (rest: Vec<String>)
    requires
        n <= dictionary@.len(),
    ensures
        rest@.len() == dictionary@.len() - n,
        forall|i: int| 0 <= i < rest@.len() ==> (#[trigger] rest@[i])@ == dictionary@[n + i],
{
    let mut rest: Vec<String> = Vec::new();
    let mut i: usize = n;
    while i < dictionary.words.len()
        invariant
            n <= i <= dictionary.words.len(),
            rest@.len() == i - n,
            forall|k: int| 0 <= k < rest@.len() ==> (#[trigger] rest@[k])@ == dictionary@[n + k],
        decreases dictionary.words.len() - i,
    {
        let word = string_of(&dictionary.words[i]);
        assert(word@ == dictionary@[i as int]);
        rest.push(word);
        i += 1;
    }
    rest
}

/// How common `word` is, in billionths; see [`commonality`].
pub fn commonality_score(dictionary: &Dictionary, word: &str) -> (score: u64)
    ensures
        score == commonality(dictionary@, word@),
        score <= UNIT,
{
    let chars = chars_of(word);
    commonality_of(dictionary, &chars)
}

/// How common the word `chars` is, in billionths.
fn commonality_of(dictionary: &Dictionary, chars: &Vec<char>) -> (score: u64)
    ensures
        score == commonality(dictionary@, chars@),
        score <= UNIT,
{
    let r = rank(dictionary, chars);
    let n = dictionary.words.len();
    proof {
        lemma_commonality_bound(dictionary@, chars@);
    }
    if r < n {
        (((n - r) as u128 * 1_000_000_000) / (n as u128)) as u64
    } else {
        0
    }
}

/// The alphabetic characters of `word`, in order.
fn strip(word: &Vec<char>) -> (kept: Vec<char>)
    ensures
        kept@ == letters_only(word@),
{
    let mut kept: Vec<char> = Vec::new();
    let mut i: usize = 0;
    assert(word@.take(0) =~= Seq::<char>::empty());
    while i < word.len()
        invariant
            i <= word.len(),
            kept@ == letters_only(word@.take(i as int)),
        decreases word.len() - i,
    {
        assert(word@.take(i + 1).drop_last() == word@.take(i as int));
        assert(word@.take(i + 1).last() == word@[i as int]);
        if is_alphabetic(word[i]) {
            kept.push(word[i]);
        }
        i += 1;
    }
    assert(word@.take(word.len() as int) == word@);
    kept
}

/// The mean commonality of the words of `text`, in billionths; see
/// [`average_commonality`].
pub fn average_commonality_score(dictionary: &Dictionary, text: &str) -> (score: u64)
    ensures
        score == average_commonality(dictionary@, text@),
        score <= UNIT,
{
    let lower = to_lowercase(text);
    let tokens = split_words(lower.as_str());
    let ghost list = dictionary@;
    let ghost views = word_views(tokens@);
    if tokens.len() == 0 {
        return 0;
    }
    let mut sum: u128 = 0;
    let mut j: usize = 0;
    while j < tokens.len()
        invariant
            j <= tokens.len(),
            views == word_views(tokens@),
            list == dictionary@,
            sum == commonality_sum(list, views, j as int),
            sum <= j * 1_000_000_000,
        decreases tokens.len() - j,
    {
        let kept = strip(&tokens[j]);
        assert(views[j as int] == tokens@[j as int]@);
        let score = commonality_of(dictionary, &kept);
        sum = sum + score as u128;
        j += 1;
    }
    let n = tokens.len() as u128;
    assert(sum / n <= 1_000_000_000) by (nonlinear_arith)
        requires
            0 < n,
            0 <= sum <= n * 1_000_000_000,
    ;
    (sum / n) as u64
}

} // verus!
