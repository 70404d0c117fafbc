//! What an Enigma machine computes: the stepping of its rotors, the path of one letter
//! through plugboard, rotors and reflector, and the text that results.

use vstd::prelude::*;
use crate::enigma::alphabet::{
    Alphabet, codes_of, is_first_at, is_upper_code, lemma_permutation_text, lemma_position,
    lemma_position_exists, letters_of, permutation, position,
};
use crate::enigma::{caeser_shift, MachineOptions};
use crate::enigma::reflector::{lemma_reflected, law_reflector_pairs, Reflector};
use crate::enigma::rotor::{lemma_wiring_is_permutation, Rotor};
use crate::text::{
    all_ascii, ascii_upper, ascii_upper_seq, chars_of, is_letter, is_lower, is_upper, low_byte,
    low_byte_of, string_of, to_uppercase, upper_text,
};

verus! {

/// The settings of a machine, as plain values.
pub struct Settings {
    /// The rotors, from the slowest to the fastest.
    pub rotors: (Rotor, Rotor, Rotor),
    /// The places at which the rotors stand before the first letter, each from 0 to 25.
    pub ring_positions: (int, int, int),
    /// The offsets of the rotors' wirings, each from 0 to 25.
    pub ring_settings: (int, int, int),
    /// The reflector.
    pub reflector: Reflector,
    /// For each of the 26 places, the place that the plugboard swaps it with, or the
    /// place itself where no cable is plugged.
    pub plugboard: Seq<u8>,
    /// How the machine treats its text: with `clear_punctuation`, the characters that
    /// are no capital letters are dropped.
    pub options: MachineOptions,
}

/// Whether each of three numbers is a place of the alphabet.
pub open spec fn places(t: (int, int, int)) -> bool {
    0 <= t.0 < 26 && 0 <= t.1 < 26 && 0 <= t.2 < 26
}

/// Whether a plugboard swaps places in pairs: it sends each place to a place, and that
/// place back to the first.
pub open spec fn pairing(board: Seq<u8>) -> bool {
    &&& board.len() == 26
    &&& forall|p: int| 0 <= p < 26 ==> 0 <= #[trigger] board[p] < 26
    &&& forall|p: int| 0 <= p < 26 ==> board[#[trigger] board[p] as int] == p
}

/// A rotor's wiring with the ring setting `s` applied: every letter moved `s` places
/// forward, and the whole wiring turned `s` places to the right.
#[verifier::opaque]
pub open spec fn ring_shifted(w: Seq<u8>, s: int) -> Seq<u8> {
    Seq::new(26, |i: int| (((w[(i + 26 - s) % 26] - 65 + s) % 26) + 65) as u8)
}

/// The place that a letter at place `p` leaves a rotor at, on its way to the reflector,
/// when the rotor stands at `o`.
#[verifier::opaque]
pub open spec fn forward(w: Seq<u8>, o: int, p: int) -> int {
    (w[(p + o) % 26] - 65 + 26 - o) % 26
}

/// The place that a letter at place `p` leaves a rotor at, on its way back from the
/// reflector, when the rotor stands at `o`.
#[verifier::opaque]
pub open spec fn backward(w: Seq<u8>, o: int, p: int) -> int {
    (position(w, (65 + (p + o) % 26) as u8) + 26 - o) % 26
}

/// The places of the rotors after one step. The fastest rotor always moves; when it
/// leaves a notch the middle rotor moves too, and with it the slowest if the middle one
/// leaves a notch; and a middle rotor that stands on a notch moves on with the slowest
/// although the fastest did not carry.
#[verifier::opaque]
pub open spec fn stepped(rotors: (Rotor, Rotor, Rotor), at: (int, int, int)) -> (int, int, int) {
    if rotors.2.notch_at(at.2) {
        if rotors.1.notch_at(at.1) {
            ((at.0 + 1) % 26, (at.1 + 1) % 26, (at.2 + 1) % 26)
        } else {
            (at.0, (at.1 + 1) % 26, (at.2 + 1) % 26)
        }
    } else if rotors.1.notch_at(at.1) {
        ((at.0 + 1) % 26, (at.1 + 1) % 26, (at.2 + 1) % 26)
    } else {
        (at.0, at.1, (at.2 + 1) % 26)
    }
}

/// The place that the letter at place `p` arrives at the reflector with: through the
/// plugboard `board`, then the rotors `wc`, `wb` and `wa`.
pub open spec fn inward_through(
    wa: Seq<u8>,
    wb: Seq<u8>,
    wc: Seq<u8>,
    board: Seq<u8>,
    at: (int, int, int),
    p: int,
) -> int {
    forward(wa, at.0, forward(wb, at.1, forward(wc, at.2, board[p] as int)))
}

/// The place that a letter leaves the machine with when it leaves the reflector at
/// place `p`: back through the rotors `wa`, `wb` and `wc`, then the plugboard `board`.
pub open spec fn outward_through(
    wa: Seq<u8>,
    wb: Seq<u8>,
    wc: Seq<u8>,
    board: Seq<u8>,
    at: (int, int, int),
    p: int,
) -> int {
    board[backward(wc, at.2, backward(wb, at.1, backward(wa, at.0, p)))] as int
}

impl Settings {
    /// Whether the ring values are places and the plugboard swaps in pairs.
    pub open spec fn wf(self) -> bool {
        &&& places(self.ring_positions)
        &&& places(self.ring_settings)
        &&& pairing(self.plugboard)
    }

    /// The wiring of the slowest rotor with its ring setting applied.
    pub open spec fn first(self) -> Seq<u8> {
        ring_shifted(self.rotors.0.wiring(), self.ring_settings.0)
    }

    /// The wiring of the middle rotor with its ring setting applied.
    pub open spec fn second(self) -> Seq<u8> {
        ring_shifted(self.rotors.1.wiring(), self.ring_settings.1)
    }

    /// The wiring of the fastest rotor with its ring setting applied.
    pub open spec fn third(self) -> Seq<u8> {
        ring_shifted(self.rotors.2.wiring(), self.ring_settings.2)
    }

    /// The place that the letter at place `p` arrives at the reflector with.
    pub open spec fn inward(self, at: (int, int, int), p: int) -> int {
        inward_through(self.first(), self.second(), self.third(), self.plugboard, at, p)
    }

    /// The place that a letter leaves the machine with when it leaves the reflector at place `p`.
    pub open spec fn outward(self, at: (int, int, int), p: int) -> int {
        outward_through(self.first(), self.second(), self.third(), self.plugboard, at, p)
    }

    /// The place of the letter that the letter at place `p` becomes while the rotors
    /// stand at `at`: through the plugboard, the three rotors from the fastest to the
    /// slowest, the reflector, the rotors again in the other direction, and the plugboard.
    pub open spec fn substituted(self, at: (int, int, int), p: int) -> int {
        self.outward(at, self.reflector.reflected(self.inward(at, p)))
    }

    /// The text that the machine turns `text` into when its rotors stand at `at`. Each
    /// capital letter steps the rotors and is then substituted; any other character
    /// leaves the rotors alone and is kept, or dropped where the settings say so.
    pub open spec fn crypt_from(self, at: (int, int, int), text: Seq<char>) -> Seq<char>
        decreases text.len(),
    {
        if text.len() == 0 {
            Seq::empty()
        } else if is_upper(text[0]) {
            let next = stepped(self.rotors, at);
            seq![(65 + self.substituted(next, text[0] as int - 65)) as u8 as char] + self.crypt_from(
                next,
                text.drop_first(),
            )
        } else if self.options.clear_punctuation {
            self.crypt_from(at, text.drop_first())
        } else {
            seq![text[0]] + self.crypt_from(at, text.drop_first())
        }
    }

    /// The text that the machine turns `text` into: `text` in capitals, run through the
    /// machine from its ring positions.
    pub open spec fn crypt(self, text: Seq<char>) -> Seq<char> {
        self.crypt_from(self.ring_positions, upper_text(text))
    }
}

/// One entry of a wiring with a ring setting applied.
proof fn lemma_ring_shifted_at(w: Seq<u8>, s: int, i: int)
    requires
        permutation(w),
        0 <= s < 26,
        0 <= i < 26,
    ensures
        ring_shifted(w, s).len() == 26,
        is_upper_code(ring_shifted(w, s)[i]),
        ring_shifted(w, s)[i] - 65 == (w[(i + 26 - s) % 26] - 65 + s) % 26,
        0 <= (i + 26 - s) % 26 < 26,
{
    reveal(ring_shifted);
    let a = (i + 26 - s) % 26;
    assert(is_upper_code(w[a]));
}

/// Places that differ still differ when both are moved by the same amount.
proof fn lemma_moved_differ(x: int, y: int, s: int)
    requires
        0 <= x < 26,
        0 <= y < 26,
        0 <= s < 26,
        x != y,
    ensures
        (x + s) % 26 != (y + s) % 26,
        (x + 26 - s) % 26 != (y + 26 - s) % 26,
{
}

/// Moving a place forward and back again returns it.
proof fn lemma_moved_back(x: int, s: int)
    requires
        0 <= x < 26,
        0 <= s < 26,
    ensures
        0 <= (x + s) % 26 < 26,
        0 <= (x + 26 - s) % 26 < 26,
        ((x + s) % 26 + 26 - s) % 26 == x,
        ((x + 26 - s) % 26 + s) % 26 == x,
{
}

/// Two entries of a wiring with a ring setting applied differ.
proof fn lemma_ring_shifted_differ(w: Seq<u8>, s: int, i: int, j: int)
    requires
        permutation(w),
        0 <= s < 26,
        0 <= i < j < 26,
    ensures
        ring_shifted(w, s)[i] != ring_shifted(w, s)[j],
{
    let a = (i + 26 - s) % 26;
    let b = (j + 26 - s) % 26;
    lemma_ring_shifted_at(w, s, i);
    lemma_ring_shifted_at(w, s, j);
    lemma_moved_differ(i, j, s);
    let x = w[a] - 65;
    let y = w[b] - 65;
    assert(is_upper_code(w[a]) && is_upper_code(w[b]));
    if a < b {
        assert(w[a] != w[b]);
    } else {
        assert(w[b] != w[a]);
    }
    lemma_moved_differ(x, y, s);
}

/// Each capital occurs in a wiring with a ring setting applied.
proof fn lemma_ring_shifted_holds(w: Seq<u8>, s: int, code: u8)
    requires
        permutation(w),
        0 <= s < 26,
        is_upper_code(code),
    ensures
        ring_shifted(w, s).contains(code),
{
    let x = code - 65;
    lemma_moved_back(x, s);
    let v = ((x + 26 - s) % 26 + 65) as u8;
    assert(is_upper_code(v));
    assert(w.contains(v));
    let k = choose|k: int| 0 <= k < w.len() && w[k] == v;
    lemma_moved_back(k, s);
    let i = (k + s) % 26;
    lemma_ring_shifted_at(w, s, i);
    assert(ring_shifted(w, s)[i] == code);
}

/// A wiring that holds each capital once still does so with a ring setting applied.
pub proof fn lemma_ring_shifted(w: Seq<u8>, s: int)
    requires
        permutation(w),
        0 <= s < 26,
    ensures
        permutation(ring_shifted(w, s)),
{
    let r = ring_shifted(w, s);
    lemma_ring_shifted_at(w, s, 0);
    assert forall|i: int| 0 <= i < 26 implies is_upper_code(#[trigger] r[i]) by {
        lemma_ring_shifted_at(w, s, i);
    }
    assert forall|i: int, j: int| 0 <= i < j < 26 implies r[i] != r[j] by {
        lemma_ring_shifted_differ(w, s, i, j);
    }
    assert forall|code: u8| is_upper_code(code) implies #[trigger] r.contains(code) by {
        lemma_ring_shifted_holds(w, s, code);
    }
}

/// Through a rotor and back, in either order, a letter returns to its place.
pub proof fn lemma_rotor_inverse(w: Seq<u8>, o: int, p: int)
    requires
        permutation(w),
        0 <= o < 26,
        0 <= p < 26,
    ensures
        0 <= forward(w, o, p) < 26,
        0 <= backward(w, o, p) < 26,
        backward(w, o, forward(w, o, p)) == p,
        forward(w, o, backward(w, o, p)) == p,
{
    reveal(forward);
    reveal(backward);
    let i = (p + o) % 26;
    lemma_moved_back(p, o);
    assert(is_upper_code(w[i]));
    let q = forward(w, o, p);
    lemma_moved_back(w[i] - 65, o);
    assert((q + o) % 26 == w[i] - 65);
    assert(is_first_at(w, w[i], i)) by {
        assert forall|j: int| 0 <= j < i implies w[j] != w[i] by {}
    }
    lemma_position(w, w[i], i);
    let code = (65 + i) as u8;
    assert(w.contains(code));
    lemma_position_exists(w, code);
    let k = position(w, code);
    assert(w[k] == code);
    let b = backward(w, o, p);
    lemma_moved_back(k, o);
    assert((b + o) % 26 == k);
}

/// Run twice with the rotors at the same places, the substitution returns each letter.
pub proof fn lemma_substituted_twice(s: Settings, at: (int, int, int), p: int)
    requires
        s.wf(),
        places(at),
        0 <= p < 26,
    ensures
        0 <= s.substituted(at, p) < 26,
        s.substituted(at, s.substituted(at, p)) == p,
{
    lemma_wiring_is_permutation(s.rotors.0);
    lemma_wiring_is_permutation(s.rotors.1);
    lemma_wiring_is_permutation(s.rotors.2);
    lemma_ring_shifted(s.rotors.0.wiring(), s.ring_settings.0);
    lemma_ring_shifted(s.rotors.1.wiring(), s.ring_settings.1);
    lemma_ring_shifted(s.rotors.2.wiring(), s.ring_settings.2);
    let (wa, wb, wc) = (s.first(), s.second(), s.third());
    let x1 = s.plugboard[p] as int;
    let x2 = forward(wc, at.2, x1);
    lemma_rotor_inverse(wc, at.2, x1);
    let x3 = forward(wb, at.1, x2);
    lemma_rotor_inverse(wb, at.1, x2);
    let x4 = forward(wa, at.0, x3);
    lemma_rotor_inverse(wa, at.0, x3);
    assert(x4 == s.inward(at, p));
    let x5 = s.reflector.reflected(x4);
    law_reflector_pairs(s.reflector, x4);
    let x6 = backward(wa, at.0, x5);
    lemma_rotor_inverse(wa, at.0, x5);
    let x7 = backward(wb, at.1, x6);
    lemma_rotor_inverse(wb, at.1, x6);
    let x8 = backward(wc, at.2, x7);
    lemma_rotor_inverse(wc, at.2, x7);
    let y = s.plugboard[x8] as int;
    assert(y == s.substituted(at, p));
    assert(s.plugboard[y] == x8);
    assert(s.inward(at, y) == x5);
    assert(s.reflector.reflected(x5) == x4);
    assert(s.outward(at, x4) == p);
}

/// A step leaves each rotor at a place of the alphabet.
pub proof fn lemma_stepped_places(rotors: (Rotor, Rotor, Rotor), at: (int, int, int))
    requires
        places(at),
    ensures
        places(stepped(rotors, at)),
{
    reveal(stepped);
}

/// Run twice from the same places, the machine returns a text in which every character
/// is a capital letter or, where the settings keep them, any other character.
pub proof fn lemma_crypt_from_twice(s: Settings, at: (int, int, int), text: Seq<char>)
    requires
        s.wf(),
        places(at),
        s.options.clear_punctuation ==> forall|i: int| 0 <= i < text.len() ==> is_upper(#[trigger] text[i]),
    ensures
        s.crypt_from(at, text).len() == text.len(),
        forall|i: int|
            0 <= i < text.len() ==> is_upper(#[trigger] s.crypt_from(at, text)[i]) == is_upper(text[i]),
        forall|i: int|
            0 <= i < text.len() && !is_upper(text[i]) ==> #[trigger] s.crypt_from(at, text)[i]
                == text[i],
        s.crypt_from(at, s.crypt_from(at, text)) == text,
    decreases text.len(),
{
    if text.len() > 0 {
        let rest = text.drop_first();
        let out = s.crypt_from(at, text);
        assert forall|i: int| 0 <= i < rest.len() implies (s.options.clear_punctuation ==> is_upper(
            #[trigger] rest[i],
        )) by {
            assert(rest[i] == text[i + 1]);
        }
        if is_upper(text[0]) {
            let next = stepped(s.rotors, at);
            let p = text[0] as int - 65;
            lemma_stepped_places(s.rotors, at);
            lemma_substituted_twice(s, next, p);
            lemma_crypt_from_twice(s, next, rest);
            lemma_crypt_letter(s, at, text);
            let q = s.substituted(next, p);
            let made = (65 + q) as u8 as char;
            let tail = s.crypt_from(next, rest);
            assert(out == seq![made] + tail);
            assert(is_upper(made));
            assert(made as int - 65 == q);
            assert(out.drop_first() =~= tail);
            lemma_crypt_letter(s, at, out);
            assert(s.crypt_from(at, out) =~= seq![text[0]] + rest);
            assert(seq![text[0]] + rest =~= text);
            assert forall|i: int| 0 <= i < text.len() implies is_upper(#[trigger] out[i]) == is_upper(
                text[i],
            ) && (!is_upper(text[i]) ==> out[i] == text[i]) by {
                if i > 0 {
                    assert(out[i] == tail[i - 1]);
                    assert(text[i] == rest[i - 1]);
                }
            }
        } else {
            lemma_crypt_from_twice(s, at, rest);
            lemma_crypt_other(s, at, text);
            let tail = s.crypt_from(at, rest);
            assert(out == seq![text[0]] + tail);
            assert(out.drop_first() =~= tail);
            lemma_crypt_other(s, at, out);
            assert(s.crypt_from(at, out) =~= seq![text[0]] + rest);
            assert(seq![text[0]] + rest =~= text);
            assert forall|i: int| 0 <= i < text.len() implies is_upper(#[trigger] out[i]) == is_upper(
                text[i],
            ) && (!is_upper(text[i]) ==> out[i] == text[i]) by {
                if i > 0 {
                    assert(out[i] == tail[i - 1]);
                    assert(text[i] == rest[i - 1]);
                }
            }
        }
    }
}

/// A machine undoes its own work: what it makes of an ASCII text, given to the same
/// machine again, comes back as the text in capitals. Where the machine drops the
/// characters that are no letters, this holds of texts made of letters alone.
/// Encrypting and decrypting are one operation, so this is the round trip of either.
pub proof fn law_self_inverse(s: Settings, text: Seq<char>)
    requires
        s.wf(),
        all_ascii(text),
        s.options.clear_punctuation ==> forall|i: int| 0 <= i < text.len() ==> is_letter(#[trigger] text[i]),
    ensures
        s.crypt(s.crypt(text)) == ascii_upper_seq(text),
        s.crypt(s.crypt(text)) == upper_text(text),
{
    let upper = ascii_upper_seq(text);
    assert(upper_text(text) == upper);
    assert forall|i: int| 0 <= i < upper.len() implies (s.options.clear_punctuation ==> is_upper(
        #[trigger] upper[i],
    )) by {
        if s.options.clear_punctuation {
            assert(is_letter(text[i]));
        }
    }
    lemma_crypt_from_twice(s, s.ring_positions, upper);
    let out = s.crypt_from(s.ring_positions, upper);
    assert forall|i: int| 0 <= i < out.len() implies (#[trigger] out[i] as u32) < 128 && !is_lower(
        out[i],
    ) by {
        assert((text[i] as u32) < 128);
        assert(upper[i] == ascii_upper(text[i]));
        if !is_upper(upper[i]) {
            assert(out[i] == upper[i]);
        } else {
            assert(is_upper(out[i]));
        }
    }
    assert(all_ascii(out));
    assert(ascii_upper_seq(out) =~= out);
    assert(upper_text(out) == out);
}

/// The rotor's wiring with the ring setting applied, as an alphabet.
pub fn ring_alphabet(rotor: &Rotor, setting: u8) -> (a: Alphabet)
    requires
        setting < 26,
    ensures
        a@ == ring_shifted(rotor.wiring(), setting as int),
        a.is_permutation(),
{
    let plain = rotor.alphabet();
    let moved = caeser_shift(plain.letters().as_str(), setting);
    let letters = chars_of(moved.as_str());
    let mut turned: Vec<char> = Vec::new();
    let mut i: usize = 0;
    proof {
        lemma_ring_shifted(rotor.wiring(), setting as int);
    }
    while i < 26
        invariant
            i <= 26,
            setting < 26,
            letters@.len() == 26,
            turned@.len() == i,
            forall|k: int| 0 <= k < i ==> turned@[k] == letters@[(k + 26 - setting) % 26],
        decreases 26 - i,
    {
        turned.push(letters[(i + 26 - setting as usize) % 26]);
        i += 1;
    }
    let text = string_of(&turned);
    proof {
        reveal(ring_shifted);
        let w = rotor.wiring();
        let r = ring_shifted(w, setting as int);
        assert forall|k: int| 0 <= k < 26 implies low_byte_of(#[trigger] text@[k]) == r[k] && 'A'
            <= text@[k] <= 'Z' by {
            let j = (k + 26 - setting) % 26;
            assert(is_upper_code(w[j]));
            assert(letters_of(w)[j] == w[j] as char);
            assert(is_upper_code(r[k]));
        }
        assert(codes_of(text@) =~= r);
        lemma_permutation_text(text@);
    }
    Alphabet::new(text.as_str()).unwrap()
}

/// Whether the rotor has a notch at the letter whose place is `position`.
pub fn has_notch_at(rotor: &Rotor, position: u8) -> (b: bool)
    requires
        position < 26,
    ensures
        b == rotor.notch_at(position as int),
{
    let notches = rotor.notches();
    let mut i: usize = 0;
    while i < notches.len()
        invariant
            i <= notches.len(),
            position < 26,
            notches@ == rotor.notch_letters(),
            forall|k: int| 0 <= k < i ==> notches@[k] as int != 65 + position,
        decreases notches.len() - i,
    {
        if notches[i] as u32 == 65 + position as u32 {
            return true;
        }
        i += 1;
    }
    false
}

/// The places of the rotors after one step.
pub fn step(rotors: &(Rotor, Rotor, Rotor), at: (u8, u8, u8)) -> (next: (u8, u8, u8))
    requires
        at.0 < 26,
        at.1 < 26,
        at.2 < 26,
    ensures
        (next.0 as int, next.1 as int, next.2 as int) == stepped(
            *rotors,
            (at.0 as int, at.1 as int, at.2 as int),
        ),
        next.0 < 26,
        next.1 < 26,
        next.2 < 26,
{
    reveal(stepped);
    let (mut a, mut b, mut c) = at;
    let carry = has_notch_at(&rotors.2, c);
    let middle = has_notch_at(&rotors.1, b);
    c = (c + 1) % 26;
    if carry {
        b = (b + 1) % 26;
        if middle {
            a = (a + 1) % 26;
        }
    } else if middle {
        b = (b + 1) % 26;
        a = (a + 1) % 26;
    }
    (a, b, c)
}

/// Whether `w` is 26 codes of capital letters among which every capital occurs.
spec fn capitals(w: Seq<u8>) -> bool {
    &&& w.len() == 26
    &&& forall|i: int| 0 <= i < 26 ==> is_upper_code(#[trigger] w[i])
    &&& forall|code: u8| is_upper_code(code) ==> #[trigger] w.contains(code)
}

/// The place that a letter at place `p` leaves the rotor at on its way to the reflector.
fn pass_forward(rotor: &Alphabet, offset: u8, p: u8) -> (q: u8)
    requires
        capitals(rotor@),
        offset < 26,
        p < 26,
    ensures
        q == forward(rotor@, offset as int, p as int),
        q < 26,
{
    reveal(forward);
    let place = (p + offset) % 26;
    assert(is_upper_code(rotor@[place as int]));
    let letter = rotor.unchecked_letter_at(place);
    let code = low_byte(letter);
    assert(code == rotor@[place as int]);
    (code - 65 + 26 - offset) % 26
}

/// The place that a letter at place `p` leaves the rotor at on its way back from the reflector.
fn pass_backward(rotor: &Alphabet, offset: u8, p: u8) -> (q: u8)
    requires
        capitals(rotor@),
        offset < 26,
        p < 26,
    ensures
        q == backward(rotor@, offset as int, p as int),
        q < 26,
{
    reveal(backward);
    let code: u8 = 65 + (p + offset) % 26;
    let letter = code as char;
    assert(low_byte_of(letter) == code);
    assert(is_upper_code(code));
    assert(rotor@.contains(code));
    let place = rotor.unchecked_index_of(letter);
    assert(place < 26);
    (place + 26 - offset) % 26
}

/// The place that the letter at place `p` arrives at the reflector with.
fn go_inward(
    first: &Alphabet,
    second: &Alphabet,
    third: &Alphabet,
    plugboard: &Vec<u8>,
    at: (u8, u8, u8),
    p: u8,
) -> (x: u8)
    requires
        plugboard@.len() == 26,
        plugboard@[p as int] < 26,
        capitals(first@),
        capitals(second@),
        capitals(third@),
        at.0 < 26 && at.1 < 26 && at.2 < 26,
        p < 26,
    ensures
        x == inward_through(
            first@,
            second@,
            third@,
            plugboard@,
            (at.0 as int, at.1 as int, at.2 as int),
            p as int,
        ),
        x < 26,
{
    let x1 = plugboard[p as usize];
    let x2 = pass_forward(third, at.2, x1);
    let x3 = pass_forward(second, at.1, x2);
    pass_forward(first, at.0, x3)
}

/// The place behind the three rotors of a letter that leaves the reflector at place `p`.
fn go_outward(first: &Alphabet, second: &Alphabet, third: &Alphabet, at: (u8, u8, u8), p: u8) -> (x: u8)
    requires
        capitals(first@),
        capitals(second@),
        capitals(third@),
        at.0 < 26 && at.1 < 26 && at.2 < 26,
        p < 26,
    ensures
        x == backward(
            third@,
            at.2 as int,
            backward(second@, at.1 as int, backward(first@, at.0 as int, p as int)),
        ),
        x < 26,
{
    let x6 = pass_backward(first, at.0, p);
    let x7 = pass_backward(second, at.1, x6);
    pass_backward(third, at.2, x7)
}

/// The place that the reflector turns place `p` into.
fn reflect(mirror: &Vec<char>, p: u8, Ghost(reflector): Ghost<Reflector>) -> (x: u8)
    requires
        mirror@.len() == 26,
        mirror@[p as int] as int == 65 + reflector.reflected(p as int),
        p < 26,
    ensures
        x == reflector.reflected(p as int),
        x < 26,
{
    proof {
        lemma_reflected(reflector, p as int);
    }
    low_byte(mirror[p as usize]) - 65
}

/// The place of the letter that the letter at place `p` becomes.
fn substitute(
    first: &Alphabet,
    second: &Alphabet,
    third: &Alphabet,
    mirror: &Vec<char>,
    plugboard: &Vec<u8>,
    at: (u8, u8, u8),
    p: u8,
    Ghost(reflector): Ghost<Reflector>,
) -> (y: u8)
    requires
        plugboard@.len() == 26,
        forall|q: int| 0 <= q < 26 ==> 0 <= #[trigger] plugboard@[q] < 26,
        capitals(first@),
        capitals(second@),
        capitals(third@),
        mirror@.len() == 26,
        forall|q: int| 0 <= q < 26 ==> #[trigger] mirror@[q] as int == 65 + reflector.reflected(q),
        at.0 < 26 && at.1 < 26 && at.2 < 26,
        p < 26,
    ensures
        y == outward_through(
            first@,
            second@,
            third@,
            plugboard@,
            (at.0 as int, at.1 as int, at.2 as int),
            reflector.reflected(
                inward_through(
                    first@,
                    second@,
                    third@,
                    plugboard@,
                    (at.0 as int, at.1 as int, at.2 as int),
                    p as int,
                ),
            ),
        ),
        y < 26,
{
    let x4 = go_inward(first, second, third, plugboard, at, p);
    let x5 = reflect(mirror, x4, Ghost(reflector));
    let x8 = go_outward(first, second, third, at, x5);
    plugboard[x8 as usize]
}

/// What the machine makes of a text that begins with a capital letter.
proof fn lemma_crypt_letter(s: Settings, at: (int, int, int), text: Seq<char>)
    requires
        text.len() > 0,
        is_upper(text[0]),
    ensures
        s.crypt_from(at, text) == seq![
            (65 + s.substituted(stepped(s.rotors, at), text[0] as int - 65)) as u8 as char,
        ] + s.crypt_from(stepped(s.rotors, at), text.drop_first()),
{
}

/// What the machine makes of a text that begins with another character.
proof fn lemma_crypt_other(s: Settings, at: (int, int, int), text: Seq<char>)
    requires
        text.len() > 0,
        !is_upper(text[0]),
    ensures
        s.options.clear_punctuation ==> s.crypt_from(at, text) == s.crypt_from(at, text.drop_first()),
        !s.options.clear_punctuation ==> s.crypt_from(at, text) == seq![text[0]] + s.crypt_from(
            at,
            text.drop_first(),
        ),
{
}

/// Whether the tables that a run works with are those of the settings `s`.
#[verifier::opaque]
spec fn ready(
    s: Settings,
    wa: Seq<u8>,
    wb: Seq<u8>,
    wc: Seq<u8>,
    mirror: Seq<char>,
    board: Seq<u8>,
) -> bool {
    &&& s.wf()
    &&& s.plugboard == board
    &&& wa == s.first() && permutation(wa)
    &&& wb == s.second() && permutation(wb)
    &&& wc == s.third() && permutation(wc)
    &&& mirror.len() == 26
    &&& forall|q: int| 0 <= q < 26 ==> #[trigger] mirror[q] as int == 65 + s.reflector.reflected(q)
}

/// What a run needs of its tables while it substitutes a letter.
proof fn lemma_ready(s: Settings, wa: Seq<u8>, wb: Seq<u8>, wc: Seq<u8>, mirror: Seq<char>, board: Seq<u8>)
    requires
        ready(s, wa, wb, wc, mirror, board),
    ensures
        wa == s.first() && wb == s.second() && wc == s.third(),
        s.plugboard == board,
        capitals(wa) && capitals(wb) && capitals(wc),
        board.len() == 26,
        forall|q: int| 0 <= q < 26 ==> 0 <= #[trigger] board[q] < 26,
        mirror.len() == 26,
        forall|q: int| 0 <= q < 26 ==> #[trigger] mirror[q] as int == 65 + s.reflector.reflected(q),
{
    reveal(ready);
}

/// Steps the rotors and substitutes one capital letter.
fn crypt_letter(
    first: &Alphabet,
    second: &Alphabet,
    third: &Alphabet,
    mirror: &Vec<char>,
    plugboard: &Vec<u8>,
    rotors: &(Rotor, Rotor, Rotor),
    at: (u8, u8, u8),
    letter: char,
    Ghost(s): Ghost<Settings>,
) -> (r: ((u8, u8, u8), char))
    requires
        ready(s, first@, second@, third@, mirror@, plugboard@),
        s.rotors == *rotors,
        at.0 < 26 && at.1 < 26 && at.2 < 26,
        is_upper(letter),
    ensures
        (r.0.0 as int, r.0.1 as int, r.0.2 as int) == stepped(
            s.rotors,
            (at.0 as int, at.1 as int, at.2 as int),
        ),
        r.0.0 < 26 && r.0.1 < 26 && r.0.2 < 26,
        r.1 == (65 + s.substituted(
            stepped(s.rotors, (at.0 as int, at.1 as int, at.2 as int)),
            letter as int - 65,
        )) as u8 as char,
{
    proof {
        lemma_ready(s, first@, second@, third@, mirror@, plugboard@);
    }
    let next = step(rotors, at);
    let p = low_byte(letter) - 65;
    let y = substitute(first, second, third, mirror, plugboard, next, p, Ghost(s.reflector));
    (next, (65 + y) as char)
}

/// Runs `text`, put in capitals, through a machine with the given settings.
pub fn run(
    rotors: &(Rotor, Rotor, Rotor),
    ring_positions: (u8, u8, u8),
    ring_settings: (u8, u8, u8),
    reflector: &Reflector,
    plugboard: &Vec<u8>,
    options: &MachineOptions,
    text: &str,
) -> (out: String)
    requires
        ring_positions.0 < 26 && ring_positions.1 < 26 && ring_positions.2 < 26,
        ring_settings.0 < 26 && ring_settings.1 < 26 && ring_settings.2 < 26,
        pairing(plugboard@),
    ensures
        out@ == (Settings {
            rotors: *rotors,
            ring_positions: (ring_positions.0 as int, ring_positions.1 as int, ring_positions.2 as int),
            ring_settings: (ring_settings.0 as int, ring_settings.1 as int, ring_settings.2 as int),
            reflector: *reflector,
            plugboard: plugboard@,
            options: *options,
        }).crypt(text@),
{
    let ghost s = Settings {
        rotors: *rotors,
        ring_positions: (ring_positions.0 as int, ring_positions.1 as int, ring_positions.2 as int),
        ring_settings: (ring_settings.0 as int, ring_settings.1 as int, ring_settings.2 as int),
        reflector: *reflector,
        plugboard: plugboard@,
        options: *options,
    };
    let upper = to_uppercase(text);
    let chars = chars_of(upper.as_str());
    let first = ring_alphabet(&rotors.0, ring_settings.0);
    let second = ring_alphabet(&rotors.1, ring_settings.1);
    let third = ring_alphabet(&rotors.2, ring_settings.2);
    let mirror = reflector.alphabet();
    let mut at = ring_positions;
    let mut out = String::new();
    let mut i: usize = 0;
    let ghost whole = s.crypt_from(s.ring_positions, chars@);
    proof {
        reveal(ready);
        assert(ready(s, first@, second@, third@, mirror@, plugboard@));
        assert(chars@.skip(0) == chars@);
        assert(out@ + whole =~= whole);
    }
    while i < chars.len()
        invariant
            i <= chars.len(),
            ready(s, first@, second@, third@, mirror@, plugboard@),
            s.rotors == *rotors,
            s.options == *options,
            at.0 < 26 && at.1 < 26 && at.2 < 26,
            out@ + s.crypt_from((at.0 as int, at.1 as int, at.2 as int), chars@.skip(i as int)) == whole,
        decreases chars.len() - i,
    {
        let letter = chars[i];
        let ghost rest = chars@.skip(i as int);
        let ghost before = out@;
        let ghost was = (at.0 as int, at.1 as int, at.2 as int);
        assert(rest.len() > 0 && rest[0] == letter);
        assert(rest.drop_first() == chars@.skip(i + 1));
        if 'A' <= letter && letter <= 'Z' {
            let (next, made) = crypt_letter(
                &first,
                &second,
                &third,
                &mirror,
                plugboard,
                rotors,
                at,
                letter,
                Ghost(s),
            );
            at = next;
            out.push(made);
            proof {
                lemma_crypt_letter(s, was, rest);
                let tail = s.crypt_from(stepped(s.rotors, was), rest.drop_first());
                assert(out@ + tail =~= before + (seq![made] + tail));
            }
        } else if !options.clear_punctuation {
            out.push(letter);
            proof {
                lemma_crypt_other(s, was, rest);
                let tail = s.crypt_from(was, rest.drop_first());
                assert(out@ + tail =~= before + (seq![letter] + tail));
            }
        } else {
            proof {
                lemma_crypt_other(s, was, rest);
            }
        }
        i += 1;
    }
    assert(chars@.skip(chars.len() as int).len() == 0);
    assert(out@ + Seq::<char>::empty() =~= out@);
    out
}

} // verus!
