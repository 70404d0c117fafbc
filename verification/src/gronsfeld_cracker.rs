//! The search for the key of a Gronsfeld cipher: every arrangement of the key's digits
//! is tried, and the plaintext with the best score is kept.

use itertools::Itertools;
use vstd::prelude::*;
use crate::alphabet::{capital_alphabet, Alphabet};
use crate::dictionary::Dictionary;
use crate::error::CipherError;
use crate::gronsfeld::{digit_text, digits_of, key_digits, run_digits};
use crate::order::{lemma_ranked, pair_leq, ranked};
use crate::score::{scorable, score_of, scores_of, PossiblePlaintext};
use crate::text::upper_text;

verus! {

/// The lists of `k` of the items, one for each way of picking `k` places and putting
/// them in an order, in the order in which `permutations` of itertools yields them.
pub uninterp spec fn arrangements(items: Seq<u128>, k: int) -> Seq<Seq<u128>>;

/// The lists as sequences.
pub open spec fn lists(v: Seq<Vec<u128>>) -> Seq<Seq<u128>> {
    Seq::new(v.len(), |i: int| v[i]@)
}

/// The lists of `s` without repetitions, each at the place of its first occurrence,
/// given the lists `seen` before `s`.
pub open spec fn firsts_after(seen: Seq<Seq<u128>>, s: Seq<Seq<u128>>) -> Seq<Seq<u128>>
    decreases s.len(),
{
    if s.len() == 0 {
        seen
    } else if seen.contains(s[0]) {
        firsts_after(seen, s.drop_first())
    } else {
        firsts_after(seen.push(s[0]), s.drop_first())
    }
}

/// The lists of `s` without repetitions, in the order in which they first occur.
pub open spec fn firsts(s: Seq<Seq<u128>>) -> Seq<Seq<u128>> {
    firsts_after(Seq::empty(), s)
}

/// Calls `permutations` of itertools' `Itertools` with `k`. The result is named by
/// [`arrangements`]; each list in it has `k` items, and each of these is one of `items`.
#[verifier::external_body]
fn permuted(items: &Vec<u128>, k: usize) -> (r: Vec<Vec<u128>>)
    ensures
        lists(r@) == arrangements(items@, k as int),
        forall|i: int| 0 <= i < r@.len() ==> (#[trigger] r@[i])@.len() == k,
        forall|i: int, j: int| 0 <= i < r@.len() && 0 <= j < k ==> items@.contains(#[trigger] r@[i]@[j]),
{
    items.iter().copied().permutations(k).collect()
}

/// Calls `unique` of itertools' `Itertools`, which drops every list that occurred
/// before and keeps the others in their order.
#[verifier::external_body]
fn without_repeats(all: Vec<Vec<u128>>) -> (r: Vec<Vec<u128>>)
    ensures
        lists(r@) == firsts(lists(all@)),
{
    all.into_iter().unique().collect()
}

/// Every list that is kept is one of those seen or of those given.
pub proof fn lemma_firsts_after(seen: Seq<Seq<u128>>, s: Seq<Seq<u128>>, i: int)
    requires
        0 <= i < firsts_after(seen, s).len(),
    ensures
        seen.contains(firsts_after(seen, s)[i]) || s.contains(firsts_after(seen, s)[i]),
    decreases s.len(),
{
    if s.len() == 0 {
        assert(seen[i] == firsts_after(seen, s)[i]);
    } else {
        let rest = s.drop_first();
        let x = firsts_after(seen, s)[i];
        if seen.contains(s[0]) {
            lemma_firsts_after(seen, rest, i);
            if rest.contains(x) {
                let k = choose|k: int| 0 <= k < rest.len() && rest[k] == x;
                assert(s[k + 1] == x);
            }
        } else {
            let more = seen.push(s[0]);
            lemma_firsts_after(more, rest, i);
            if more.contains(x) {
                let k = choose|k: int| 0 <= k < more.len() && more[k] == x;
                if k < seen.len() {
                    assert(seen[k] == x);
                } else {
                    assert(s[0] == x);
                }
            } else {
                let k = choose|k: int| 0 <= k < rest.len() && rest[k] == x;
                assert(s[k + 1] == x);
            }
        }
    }
}

/// The number that a list of digits spells, the most significant first.
pub open spec fn spelled(digits: Seq<u128>) -> nat
    decreases digits.len(),
{
    if digits.len() == 0 {
        0
    } else {
        spelled(digits.drop_last()) * 10 + digits.last() as nat
    }
}

/// Whether `digits` can be the digits of a key: one to 38 of them, each below 10.
pub open spec fn key_like(digits: Seq<u128>) -> bool {
    &&& 1 <= digits.len() <= 38
    &&& forall|i: int| 0 <= i < digits.len() ==> #[trigger] digits[i] < 10
}

/// The text that `text` becomes when it is decrypted with the key that `digits` spell.
/// Zeros that lead the digits do not count as digits of the key.
pub open spec fn decrypted_under(a: Alphabet, digits: Seq<u128>, text: Seq<char>) -> Option<Seq<char>> {
    digit_text(a, digits_of(spelled(digits)), text, 0, true)
}

/// The place of the best of the scores: the highest, and of several of that height
/// the last.
pub open spec fn best_place(scores: Seq<u64>) -> int {
    ranked(scores)[scores.len() - 1].1 as int
}

/// A place whose score none exceeds and none after it reaches is the best place.
pub proof fn lemma_best_place(scores: Seq<u64>, i: int)
    requires
        0 <= i < scores.len() <= usize::MAX,
        forall|j: int| 0 <= j < scores.len() ==> #[trigger] scores[j] <= scores[i],
        forall|j: int| i < j < scores.len() ==> #[trigger] scores[j] < scores[i],
    ensures
        best_place(scores) == i,
{
    lemma_ranked(scores);
    let r = ranked(scores);
    let last = r[scores.len() - 1];
    let mine = (scores[i], i as usize);
    assert(r.contains(mine));
    let k = choose|k: int| 0 <= k < r.len() && r[k] == mine;
    if k < scores.len() - 1 {
        assert(pair_leq(r[k], r[scores.len() - 1]));
    }
    assert(pair_leq(mine, last));
    assert(last.0 == scores[last.1 as int]);
    assert(scores[last.1 as int] <= scores[i]);
    if last.1 as int > i {
        assert(scores[last.1 as int] < scores[i]);
    }
}

/// The text decrypted under each list of digits, or nothing where one of the lists
/// leaves no text.
pub open spec fn candidates(a: Alphabet, keys: Seq<Seq<u128>>, text: Seq<char>) -> Option<Seq<Seq<char>>>
    decreases keys.len(),
{
    if keys.len() == 0 {
        Some(Seq::empty())
    } else {
        match (candidates(a, keys.drop_last(), text), decrypted_under(a, keys.last(), text)) {
            (Some(before), Some(out)) => Some(before.push(out)),
            _ => None,
        }
    }
}

/// The scores of texts, in their order.
pub open spec fn text_scores(list: Seq<Seq<char>>, texts: Seq<Seq<char>>) -> Seq<u64> {
    Seq::new(texts.len(), |i: int| score_of(list, texts[i]) as u64)
}

/// The best of the texts that the keys leave of `text`: fails with `SearchExhausted`
/// where there is no key and with `CharacterNotInAlphabet` where a key leaves no
/// text; else it is the text with the best score.
pub open spec fn best_candidate(list: Seq<Seq<char>>, a: Alphabet, keys: Seq<Seq<u128>>, text: Seq<char>) -> Result<
    Seq<char>,
    CipherError,
> {
    if keys.len() == 0 {
        Err(CipherError::SearchExhausted)
    } else {
        match candidates(a, keys, text) {
            Some(texts) => Ok(texts[best_place(text_scores(list, texts))]),
            None => Err(CipherError::CharacterNotInAlphabet),
        }
    }
}

/// What is decrypted is as long as what was encrypted.
pub proof fn lemma_digit_text_len(a: Alphabet, digits: Seq<u8>, text: Seq<char>, used: int, back: bool)
    requires
        digit_text(a, digits, text, used, back) is Some,
    ensures
        digit_text(a, digits, text, used, back)->Some_0.len() == text.len(),
    decreases text.len(),
{
    if text.len() > 0 {
        if !crate::text::alphabetic(text[0]) {
            lemma_digit_text_len(a, digits, text.drop_first(), used, back);
        } else {
            lemma_digit_text_len(a, digits, text.drop_first(), used + 1, back);
        }
    }
}

/// The number that the digits spell.
fn spell(digits: &Vec<u128>) -> (n: u128)
    requires
        key_like(digits@),
    ensures
        n == spelled(digits@),
{
    let mut n: u128 = 0;
    let mut i: usize = 0;
    let ghost mut bound: nat = 1;
    assert(digits@.take(0) =~= Seq::<u128>::empty());
    while i < digits.len()
        invariant
            i <= digits.len(),
            key_like(digits@),
            n == spelled(digits@.take(i as int)),
            n < bound,
            bound == pow10(i as nat),
        decreases digits.len() - i,
    {
        proof {
            let now = digits@.take(i + 1);
            assert(now.drop_last() == digits@.take(i as int));
            assert(now.last() == digits@[i as int]);
            lemma_pow10(i as nat);
            lemma_pow10_grows(i as nat + 1, 38);
            bound = pow10(i as nat + 1);
        }
        n = n * 10 + digits[i];
        i += 1;
    }
    assert(digits@.take(digits.len() as int) == digits@);
    n
}

/// Ten to the power of `n`.
pub open spec fn pow10(n: nat) -> nat
    decreases n,
{
    if n == 0 {
        1
    } else {
        10 * pow10((n - 1) as nat)
    }
}

/// Ten to a power is ten times ten to the power before.
proof fn lemma_pow10(n: nat)
    ensures
        pow10(n + 1) == 10 * pow10(n),
        pow10(n) >= 1,
    decreases n,
{
    if n > 0 {
        lemma_pow10((n - 1) as nat);
    }
}

/// Ten to a power of at most 38 fits in 128 bits.
proof fn lemma_pow10_grows(n: nat, top: nat)
    requires
        n <= top,
        top == 38,
    ensures
        pow10(n) <= 100_000_000_000_000_000_000_000_000_000_000_000_000,
    decreases top - n,
{
    if n < top {
        lemma_pow10_grows(n + 1, top);
        lemma_pow10(n);
    } else {
        assert(pow10(38) == 100_000_000_000_000_000_000_000_000_000_000_000_000) by {
            reveal_with_fuel(pow10, 39);
        }
    }
}

/// Decrypts `ciphertext` under each of the keys and returns the text with the best
/// score; see [`best_candidate`].
pub fn best_under_keys(
    alphabet: &Alphabet,
    keys: &Vec<Vec<u128>>,
    ciphertext: &str,
    dictionary: &Dictionary,
) -> (r: Result<String, CipherError>)
    requires
        alphabet.wf(),
        ciphertext@.len() <= u32::MAX,
        forall|i: int| 0 <= i < keys@.len() ==> key_like((#[trigger] keys@[i])@),
    ensures
        match best_candidate(dictionary@, *alphabet, lists(keys@), ciphertext@) {
            Ok(best) => r is Ok && r->Ok_0@ == best,
            Err(error) => r is Err && r->Err_0 == error,
        },
{
    let ghost all = lists(keys@);
    let ghost a = *alphabet;
    let ghost text = ciphertext@;
    if keys.len() == 0 {
        return Err(CipherError::SearchExhausted);
    }
    let mut plaintexts: Vec<String> = Vec::new();
    let mut i: usize = 0;
    assert(all.take(0) =~= Seq::<Seq<u128>>::empty());
    while i < keys.len()
        invariant
            i <= keys.len(),
            alphabet.wf(),
            a == *alphabet,
            text == ciphertext@,
            text.len() <= u32::MAX,
            all == lists(keys@),
            forall|k: int| 0 <= k < keys@.len() ==> key_like((#[trigger] keys@[k])@),
            plaintexts@.len() == i,
            scorable(plaintexts@),
            candidates(a, all.take(i as int), text) is Some,
            forall|k: int|
                0 <= k < i ==> (#[trigger] plaintexts@[k])@ == candidates(a, all.take(i as int), text)->Some_0[k],
            candidates(a, all.take(i as int), text)->Some_0.len() == i,
        decreases keys.len() - i,
    {
        let ghost before = candidates(a, all.take(i as int), text)->Some_0;
        proof {
            assert(all.take(i + 1).drop_last() == all.take(i as int));
            assert(all.take(i + 1).last() == keys@[i as int]@);
        }
        let number = spell(&keys[i]);
        let digits = key_digits(number);
        match run_digits(alphabet, &digits, ciphertext, true) {
            Ok(plaintext) => {
                proof {
                    lemma_digit_text_len(a, digits@, text, 0, true);
                }
                plaintexts.push(plaintext);
            },
            Err(error) => {
                proof {
                    assert(candidates(a, all.take(i + 1), text) is None);
                    lemma_candidates_fail(a, all, text, i + 1);
                }
                return Err(error);
            },
        }
        proof {
            let now = candidates(a, all.take(i + 1), text)->Some_0;
            assert(now == before.push(decrypted_under(a, keys@[i as int]@, text)->Some_0));
            assert forall|k: int| 0 <= k < i + 1 implies (#[trigger] plaintexts@[k])@ == now[k] by {
                if k < i {
                    assert(now[k] == before[k]);
                }
            }
        }
        i += 1;
    }
    assert(all.take(keys.len() as int) == all);
    let ghost texts = candidates(a, all, text)->Some_0;
    match PossiblePlaintext::best(&plaintexts, dictionary) {
        Some(best) => {
            proof {
                let scores = scores_of(dictionary@, plaintexts@);
                assert(scores =~= text_scores(dictionary@, texts));
                let at = choose|at: int|
                    0 <= at < plaintexts@.len() && best@ == (#[trigger] plaintexts@[at])@ && (forall|j: int|
                        0 <= j < plaintexts@.len() ==> #[trigger] scores[j] <= scores[at]) && (forall|j: int|
                        at < j < plaintexts@.len() ==> #[trigger] scores[j] < scores[at]);
                lemma_best_place(scores, at);
            }
            Ok(best)
        },
        None => Err(CipherError::SearchExhausted),
    }
}

/// Where some of the first keys leave no text, the keys leave none together.
proof fn lemma_candidates_fail(a: Alphabet, keys: Seq<Seq<u128>>, text: Seq<char>, k: int)
    requires
        0 <= k <= keys.len(),
        candidates(a, keys.take(k), text) is None,
    ensures
        candidates(a, keys, text) is None,
    decreases keys.len() - k,
{
    if k < keys.len() {
        assert(keys.take(k + 1).drop_last() == keys.take(k));
        lemma_candidates_fail(a, keys, text, k + 1);
    } else {
        assert(keys.take(k) == keys);
    }
}

/// The score above which a plaintext is taken for English: 0.85.
pub const GOOD_SCORE: u64 = 850_000_000;

/// The digits 0 to 9.
pub open spec fn ten_digits() -> Seq<u128> {
    seq![0u128, 1, 2, 3, 4, 5, 6, 7, 8, 9]
}

/// The keys that are tried for the given digits: every arrangement of `k` of them,
/// each once.
pub open spec fn keys_for(digits: Seq<u128>, k: int) -> Seq<Seq<u128>> {
    firsts(arrangements(digits, k))
}

/// The result of the search without a known key, from keys of `k` digits on: the best
/// text under the keys of `k` different digits if its score is above 0.85, else the
/// result for one digit more; `SearchExhausted` after the keys of ten digits.
pub open spec fn searched(list: Seq<Seq<char>>, a: Alphabet, text: Seq<char>, k: int) -> Result<
    Seq<char>,
    CipherError,
>
    decreases 11 - k,
{
    if k > 10 {
        Err(CipherError::SearchExhausted)
    } else {
        match best_candidate(list, a, keys_for(ten_digits(), k), text) {
            Ok(best) => if score_of(list, best) > 850_000_000 {
                Ok(best)
            } else {
                searched(list, a, text, k + 1)
            },
            Err(error) => Err(error),
        }
    }
}

/// The result of the search with the alphabet `a`: with known digits, the best text
/// under the arrangements of all of them, which must be one to 38 digits; without,
/// the result of the search over keys of growing length.
pub open spec fn cracked(list: Seq<Seq<char>>, a: Alphabet, digits: Option<Seq<u128>>, text: Seq<char>) -> Result<
    Seq<char>,
    CipherError,
> {
    match digits {
        Some(known) => if key_like(known) {
            best_candidate(list, a, keys_for(known, known.len() as int), text)
        } else {
            Err(CipherError::InvalidArgument)
        },
        None => searched(list, a, text, 1),
    }
}

/// The arrangements of `k` of the digits, each once.
fn keys_of(digits: &Vec<u128>, k: usize) -> (keys: Vec<Vec<u128>>)
    requires
        1 <= k <= 38,
        forall|i: int| 0 <= i < digits@.len() ==> #[trigger] digits@[i] < 10,
    ensures
        lists(keys@) == keys_for(digits@, k as int),
        forall|i: int| 0 <= i < keys@.len() ==> key_like((#[trigger] keys@[i])@),
{
    let all = permuted(digits, k);
    let keys = without_repeats(all);
    proof {
        assert forall|i: int| 0 <= i < keys@.len() implies key_like((#[trigger] keys@[i])@) by {
            let key = keys@[i]@;
            assert(lists(keys@)[i] == key);
            lemma_firsts_after(Seq::empty(), lists(all@), i);
            let at = choose|at: int| 0 <= at < lists(all@).len() && lists(all@)[at] == key;
            assert(all@[at]@ == key);
            assert forall|j: int| 0 <= j < key.len() implies #[trigger] key[j] < 10 by {
                assert(digits@.contains(all@[at]@[j]));
            }
        }
    }
    keys
}

/// A search for the key of a Gronsfeld cipher, with what is known of the cipher.
#[derive(Default)]
pub struct GronsfeldCracker {
    alphabet: Option<String>,
    key: Option<u128>,
    key_digits: Option<Vec<u128>>,
}

impl GronsfeldCracker {
    /// The alphabet as it was given, if it is known.
    pub closed spec fn known_alphabet(&self) -> Option<Seq<char>> {
        match self.alphabet {
            Some(alphabet) => Some(alphabet@),
            None => None,
        }
    }

    /// The digits of the key in some order, if they are known.
    pub closed spec fn known_key_digits(&self) -> Option<Seq<u128>> {
        match self.key_digits {
            Some(digits) => Some(digits@),
            None => None,
        }
    }

    /// A search that knows nothing of the cipher.
    pub fn new() -> (cracker: Self)
        ensures
            cracker.known_alphabet() is None,
            cracker.known_key_digits() is None,
    {
        GronsfeldCracker { alphabet: None, key: None, key_digits: None }
    }

    /// Decrypts `ciphertext` with the key that gives the best plaintext. Fails with
    /// `EmptyKeyOrAlphabet` where no alphabet is known and with `InvalidAlphabet` where
    /// the alphabet, put in capitals, is not 26 capital letters with none twice; else
    /// see [`cracked`].
    pub fn decrypt(&self, ciphertext: &str, dictionary: &Dictionary) -> (r: Result<String, CipherError>)
        requires
            ciphertext@.len() <= u32::MAX,
        ensures
            self.known_alphabet() is None ==> r is Err && r->Err_0 == CipherError::EmptyKeyOrAlphabet,
            self.known_alphabet() is Some && !capital_alphabet(upper_text(self.known_alphabet()->Some_0)) ==> r is Err
                && r->Err_0 == CipherError::InvalidAlphabet,
            self.known_alphabet() is Some && capital_alphabet(upper_text(self.known_alphabet()->Some_0))
                ==> exists|a: Alphabet|
                a.chars() == upper_text(self.known_alphabet()->Some_0) && !a.is_cased() && (match #[trigger] cracked(
                    dictionary@,
                    a,
                    self.known_key_digits(),
                    ciphertext@,
                ) {
                    Ok(best) => r is Ok && r->Ok_0@ == best,
                    Err(error) => r is Err && r->Err_0 == error,
                }),
    {
        let alphabet = match &self.alphabet {
            None => {
                return Err(CipherError::EmptyKeyOrAlphabet);
            },
            Some(spelling) => match Alphabet::caseless(spelling.as_str()) {
                Ok(alphabet) => alphabet,
                Err(error) => {
                    return Err(error);
                },
            },
        };
        let r = match &self.key_digits {
            Some(digits) => with_digits(&alphabet, digits, ciphertext, dictionary),
            None => search_key(&alphabet, ciphertext, dictionary),
        };
        proof {
            assert(match cracked(dictionary@, alphabet, self.known_key_digits(), ciphertext@) {
                Ok(best) => r is Ok && r->Ok_0@ == best,
                Err(error) => r is Err && r->Err_0 == error,
            });
        }
        r
    }

    /// This search, knowing the alphabet.
    pub fn with_known_alphabet(self, alphabet: &str) -> (cracker: Self)
        ensures
            cracker.known_alphabet() == Some(alphabet@),
            cracker.known_key_digits() == self.known_key_digits(),
    {
        GronsfeldCracker { alphabet: Some(alphabet.to_owned()), key: self.key, key_digits: self.key_digits }
    }

    /// This search, knowing the digits of the key in some order.
    pub fn with_known_key_digits(self, key_digits: &[u128]) -> (cracker: Self)
        ensures
            cracker.known_alphabet() == self.known_alphabet(),
            cracker.known_key_digits() == Some(key_digits@),
    {
        let mut digits: Vec<u128> = Vec::new();
        let mut i: usize = 0;
        while i < key_digits.len()
            invariant
                i <= key_digits.len(),
                digits@ == key_digits@.take(i as int),
            decreases key_digits.len() - i,
        {
            digits.push(key_digits[i]);
            assert(digits@ =~= key_digits@.take(i + 1));
            i += 1;
        }
        assert(key_digits@.take(key_digits.len() as int) == key_digits@);
        GronsfeldCracker { alphabet: self.alphabet, key: self.key, key_digits: Some(digits) }
    }
}

/// The best text under the arrangements of the known digits.
fn with_digits(alphabet: &Alphabet, digits: &Vec<u128>, ciphertext: &str, dictionary: &Dictionary) -> (r: Result<
    String,
    CipherError,
>)
    requires
        alphabet.wf(),
        ciphertext@.len() <= u32::MAX,
    ensures
        match cracked(dictionary@, *alphabet, Some(digits@), ciphertext@) {
            Ok(best) => r is Ok && r->Ok_0@ == best,
            Err(error) => r is Err && r->Err_0 == error,
        },
{
    if digits.len() == 0 || digits.len() > 38 {
        return Err(CipherError::InvalidArgument);
    }
    let mut i: usize = 0;
    while i < digits.len()
        invariant
            i <= digits.len(),
            forall|k: int| 0 <= k < i ==> #[trigger] digits@[k] < 10,
        decreases digits.len() - i,
    {
        if digits[i] >= 10 {
            return Err(CipherError::InvalidArgument);
        }
        i += 1;
    }
    let keys = keys_of(digits, digits.len());
    best_under_keys(alphabet, &keys, ciphertext, dictionary)
}

/// Decrypts `ciphertext` with the best key of different digits, the alphabet being
/// known and the key not: the result of the search over keys of growing length; see
/// [`searched`].
pub fn search_key(alphabet: &Alphabet, ciphertext: &str, dictionary: &Dictionary) -> (r: Result<String, CipherError>)
    requires
        alphabet.wf(),
        ciphertext@.len() <= u32::MAX,
    ensures
        match searched(dictionary@, *alphabet, ciphertext@, 1) {
            Ok(best) => r is Ok && r->Ok_0@ == best,
            Err(error) => r is Err && r->Err_0 == error,
        },
{
    let digits: Vec<u128> = vec![0, 1, 2, 3, 4, 5, 6, 7, 8, 9];
    assert(digits@ =~= ten_digits());
    let ghost goal = searched(dictionary@, *alphabet, ciphertext@, 1);
    let mut k: usize = 1;
    while k <= 10
        invariant
            1 <= k <= 11,
            alphabet.wf(),
            ciphertext@.len() <= u32::MAX,
            digits@ == ten_digits(),
            goal == searched(dictionary@, *alphabet, ciphertext@, 1),
            goal == searched(dictionary@, *alphabet, ciphertext@, k as int),
        decreases 11 - k,
    {
        let keys = keys_of(&digits, k);
        match best_under_keys(alphabet, &keys, ciphertext, dictionary) {
            Ok(best) => {
                proof {
                    let texts = candidates(*alphabet, lists(keys@), ciphertext@)->Some_0;
                    lemma_candidates_len(*alphabet, lists(keys@), ciphertext@);
                    assert(lists(keys@).len() == keys@.len());
                    assert(text_scores(dictionary@, texts).len() == keys@.len());
                    lemma_ranked(text_scores(dictionary@, texts));
                }
                if PossiblePlaintext::new(best.as_str()).score(dictionary) > GOOD_SCORE {
                    return Ok(best);
                }
            },
            Err(error) => {
                return Err(error);
            },
        }
        k += 1;
    }
    Err(CipherError::SearchExhausted)
}

/// The texts that keys leave are as many as the keys and as long as the ciphertext.
pub proof fn lemma_candidates_len(a: Alphabet, keys: Seq<Seq<u128>>, text: Seq<char>)
    requires
        candidates(a, keys, text) is Some,
    ensures
        candidates(a, keys, text)->Some_0.len() == keys.len(),
        forall|i: int|
            0 <= i < keys.len() ==> (#[trigger] candidates(a, keys, text)->Some_0[i]).len() == text.len(),
    decreases keys.len(),
{
    if keys.len() > 0 {
        lemma_candidates_len(a, keys.drop_last(), text);
        lemma_digit_text_len(a, digits_of(spelled(keys.last())), text, 0, true);
        let before = candidates(a, keys.drop_last(), text)->Some_0;
        let now = candidates(a, keys, text)->Some_0;
        assert forall|i: int| 0 <= i < keys.len() implies (#[trigger] now[i]).len() == text.len() by {
            if i < keys.len() - 1 {
                assert(now[i] == before[i]);
            }
        }
    }
}

} // verus!
