//! The Base64 encoding of a text.

use vstd::prelude::*;
use crate::error::CipherError;
use crate::text::{chars_of, is_whitespace, low_byte, low_byte_of, string_of, whitespace};
use crate::vigenere::after;

verus! {

/// The Base64 encoding.
pub struct Base64;

/// The character for six bits with the value `v`: `A` to `Z`, `a` to `z`, `0` to `9`,
/// `+` and `/`.
pub open spec fn sextet_char(v: int) -> char {
    if v < 26 {
        (65 + v) as u8 as char
    } else if v < 52 {
        (71 + v) as u8 as char
    } else if v < 62 {
        (v - 4) as u8 as char
    } else if v == 62 {
        '+'
    } else {
        '/'
    }
}

/// The value of the six bits that the character stands for; nothing for a character
/// that is none of the 64.
pub open spec fn sextet_of(c: char) -> Option<int> {
    if 'A' <= c <= 'Z' {
        Some(c as int - 65)
    } else if 'a' <= c <= 'z' {
        Some(c as int - 71)
    } else if '0' <= c <= '9' {
        Some(c as int + 4)
    } else if c == '+' {
        Some(62)
    } else if c == '/' {
        Some(63)
    } else {
        None
    }
}

/// The encoding of a text: of each character the lowest eight bits of its code point
/// are a byte; three bytes become four characters of six bits each, and one or two
/// bytes at the end become two or three characters and `=` to make four.
pub open spec fn encoded64(text: Seq<char>) -> Seq<char>
    decreases text.len(),
{
    if text.len() == 0 {
        Seq::empty()
    } else if text.len() == 1 {
        let b0 = low_byte_of(text[0]) as int;
        seq![sextet_char(b0 / 4), sextet_char((b0 % 4) * 16), '=', '=']
    } else if text.len() == 2 {
        let b0 = low_byte_of(text[0]) as int;
        let b1 = low_byte_of(text[1]) as int;
        seq![sextet_char(b0 / 4), sextet_char((b0 % 4) * 16 + b1 / 16), sextet_char((b1 % 16) * 4), '=']
    } else {
        let b0 = low_byte_of(text[0]) as int;
        let b1 = low_byte_of(text[1]) as int;
        let b2 = low_byte_of(text[2]) as int;
        seq![
            sextet_char(b0 / 4),
            sextet_char((b0 % 4) * 16 + b1 / 16),
            sextet_char((b1 % 16) * 4 + b2 / 64),
            sextet_char(b2 % 64),
        ] + encoded64(text.skip(3))
    }
}

/// The characters of `s` that are not white space, in order.
pub open spec fn stripped(s: Seq<char>) -> Seq<char>
    decreases s.len(),
{
    if s.len() == 0 {
        Seq::empty()
    } else if whitespace(s.last()) {
        stripped(s.drop_last())
    } else {
        stripped(s.drop_last()).push(s.last())
    }
}

/// The six bits of `v`, the most significant first.
pub open spec fn six_bits(v: int) -> Seq<u8> {
    seq![
        ((v / 32) % 2) as u8,
        ((v / 16) % 2) as u8,
        ((v / 8) % 2) as u8,
        ((v / 4) % 2) as u8,
        ((v / 2) % 2) as u8,
        (v % 2) as u8,
    ]
}

/// The symbols that up to four characters stand for: six bits for each of the 64
/// characters of the encoding, and one mark, written 2, for each `=`. Nothing where
/// a character is neither.
pub open spec fn symbols(quad: Seq<char>) -> Option<Seq<u8>>
    decreases quad.len(),
{
    if quad.len() == 0 {
        Some(Seq::empty())
    } else {
        match symbols(quad.drop_last()) {
            None => None,
            Some(before) => if quad.last() == '=' {
                Some(before.push(2u8))
            } else {
                match sextet_of(quad.last()) {
                    Some(v) => Some(before + six_bits(v)),
                    None => None,
                }
            },
        }
    }
}

/// The byte that eight bits spell, the most significant first.
pub open spec fn byte_from(bits: Seq<u8>) -> int {
    bits[0] * 128 + bits[1] * 64 + bits[2] * 32 + bits[3] * 16 + bits[4] * 8 + bits[5] * 4 + bits[6] * 2
        + bits[7]
}

/// The characters that symbols spell, eight symbols at a time: eight bits spell the
/// character with their byte as its code point; symbols that end in a mark, and
/// fewer than eight symbols at the end, spell nothing. Nothing at all where a mark
/// stands before a bit among eight symbols.
pub open spec fn spelled_by(sym: Seq<u8>) -> Option<Seq<char>>
    decreases sym.len(),
{
    if sym.len() == 0 {
        Some(Seq::empty())
    } else if sym.len() < 8 {
        Some(Seq::empty())
    } else if sym[7] == 2 {
        spelled_by(sym.skip(8))
    } else if forall|i: int| 0 <= i < 8 ==> #[trigger] sym[i] < 2 {
        after(seq![byte_from(sym.take(8)) as u8 as char], spelled_by(sym.skip(8)))
    } else {
        None
    }
}

/// The text that the characters of an encoding spell, four characters at a time.
pub open spec fn decoded_quads(s: Seq<char>) -> Option<Seq<char>>
    decreases s.len(),
{
    if s.len() == 0 {
        Some(Seq::empty())
    } else {
        let n = if s.len() < 4 {
            s.len() as int
        } else {
            4
        };
        match symbols(s.take(n)) {
            None => None,
            Some(sym) => match spelled_by(sym) {
                None => None,
                Some(text) => after(text, decoded_quads(s.skip(n))),
            },
        }
    }
}

/// The text that an encoding spells: white space is left out, and the rest is read
/// four characters at a time.
pub open spec fn decoded64(s: Seq<char>) -> Option<Seq<char>> {
    decoded_quads(stripped(s))
}

/// The character for six bits.
fn sextet(v: u8) -> (c: char)
    requires
        v < 64,
    ensures
        c == sextet_char(v as int),
{
    if v < 26 {
        (65 + v) as char
    } else if v < 52 {
        (71 + v) as char
    } else if v < 62 {
        (v - 4) as char
    } else if v == 62 {
        '+'
    } else {
        '/'
    }
}

/// The value of the six bits that the character stands for.
fn sextet_value(c: char) -> (v: Option<u8>)
    ensures
        match sextet_of(c) {
            Some(value) => v == Some(value as u8) && value < 64,
            None => v is None,
        },
{
    if 'A' <= c && c <= 'Z' {
        Some(c as u8 - 65)
    } else if 'a' <= c && c <= 'z' {
        Some(c as u8 - 71)
    } else if '0' <= c && c <= '9' {
        Some(c as u8 + 4)
    } else if c == '+' {
        Some(62)
    } else if c == '/' {
        Some(63)
    } else {
        None
    }
}

impl Base64 {
    /// Encodes `plaintext`; see [`encoded64`].
    pub fn encrypt(plaintext: &str) -> (out: String)
        ensures
            out@ == encoded64(plaintext@),
    {
        let chars = chars_of(plaintext);
        let mut out: Vec<char> = Vec::new();
        let mut i: usize = 0;
        let ghost whole = encoded64(chars@);
        assert(chars@.skip(0) == chars@);
        assert(out@ + whole =~= whole);
        while i < chars.len()
            invariant
                i <= chars.len(),
                out@ + encoded64(chars@.skip(i as int)) == whole,
            decreases chars.len() - i,
        {
            let ghost rest = chars@.skip(i as int);
            let ghost before = out@;
            let left = chars.len() - i;
            let b0 = low_byte(chars[i]);
            assert(rest[0] == chars@[i as int]);
            if left == 1 {
                out.push(sextet(b0 / 4));
                out.push(sextet((b0 % 4) * 16));
                out.push('=');
                out.push('=');
                assert(out@ =~= before + encoded64(rest));
                assert(chars@.skip(i + 1).len() == 0);
                assert(out@ + encoded64(chars@.skip(i + 1)) =~= out@);
                i += 1;
            } else if left == 2 {
                let b1 = low_byte(chars[i + 1]);
                assert(rest[1] == chars@[i + 1]);
                out.push(sextet(b0 / 4));
                out.push(sextet((b0 % 4) * 16 + b1 / 16));
                out.push(sextet((b1 % 16) * 4));
                out.push('=');
                assert(out@ =~= before + encoded64(rest));
                assert(chars@.skip(i + 2).len() == 0);
                assert(out@ + encoded64(chars@.skip(i + 2)) =~= out@);
                i += 2;
            } else {
                let b1 = low_byte(chars[i + 1]);
                let b2 = low_byte(chars[i + 2]);
                assert(rest[1] == chars@[i + 1] && rest[2] == chars@[i + 2]);
                assert(rest.skip(3) == chars@.skip(i + 3));
                out.push(sextet(b0 / 4));
                out.push(sextet((b0 % 4) * 16 + b1 / 16));
                out.push(sextet((b1 % 16) * 4 + b2 / 64));
                out.push(sextet(b2 % 64));
                assert(out@ + encoded64(rest.skip(3)) =~= before + encoded64(rest));
                i += 3;
            }
        }
        assert(chars@.skip(chars.len() as int).len() == 0);
        assert(out@ + Seq::<char>::empty() =~= out@);
        string_of(&out)
    }

    /// Decodes `ciphertext`; see [`decoded64`]. Fails where a character is neither
    /// white space, nor `=`, nor one of the 64 characters of the encoding, or where a
    /// `=` stands before a character of the encoding within the same byte.
    pub fn decrypt(ciphertext: &str) -> (r: Result<String, CipherError>)
        ensures
            match decoded64(ciphertext@) {
                Some(out) => r is Ok && r->Ok_0@ == out,
                None => r is Err && r->Err_0 == CipherError::InvalidArgument,
            },
    {
        let all = chars_of(ciphertext);
        let chars = strip(&all);
        let mut out: Vec<char> = Vec::new();
        let mut i: usize = 0;
        let ghost whole = decoded_quads(chars@);
        assert(chars@.skip(0) == chars@);
        assert(after(out@, whole) == whole) by {
            if whole is Some {
                assert(out@ + whole->Some_0 =~= whole->Some_0);
            }
        }
        while i < chars.len()
            invariant
                i <= chars.len(),
                chars@ == stripped(ciphertext@),
                whole == decoded_quads(chars@),
                whole == after(out@, decoded_quads(chars@.skip(i as int))),
            decreases chars.len() - i,
        {
            let ghost rest = chars@.skip(i as int);
            let ghost before = out@;
            let n: usize = if chars.len() - i < 4 {
                chars.len() - i
            } else {
                4
            };
            assert(rest.skip(n as int) == chars@.skip(i + n));
            let sym = match quad_symbols(&chars, i, n) {
                Some(sym) => sym,
                None => {
                    return Err(CipherError::InvalidArgument);
                },
            };
            let text = match spell(&sym) {
                Some(text) => text,
                None => {
                    return Err(CipherError::InvalidArgument);
                },
            };
            let mut k: usize = 0;
            while k < text.len()
                invariant
                    k <= text.len(),
                    out@ == before + text@.take(k as int),
                decreases text.len() - k,
            {
                out.push(text[k]);
                assert(out@ =~= before + text@.take(k + 1));
                k += 1;
            }
            proof {
                assert(text@.take(text.len() as int) == text@);
                let tail = decoded_quads(rest.skip(n as int));
                if tail is Some {
                    assert(out@ + tail->Some_0 =~= before + (text@ + tail->Some_0));
                }
            }
            i += n;
        }
        assert(chars@.skip(chars.len() as int).len() == 0);
        assert(out@ + Seq::<char>::empty() =~= out@);
        Ok(string_of(&out))
    }
}

/// The characters of `chars` that are not white space.
fn strip(chars: &Vec<char>) -> (kept: Vec<char>)
    ensures
        kept@ == stripped(chars@),
{
    let mut kept: Vec<char> = Vec::new();
    let mut i: usize = 0;
    assert(chars@.take(0) =~= Seq::<char>::empty());
    while i < chars.len()
        invariant
            i <= chars.len(),
            kept@ == stripped(chars@.take(i as int)),
        decreases chars.len() - i,
    {
        assert(chars@.take(i + 1).drop_last() == chars@.take(i as int));
        assert(chars@.take(i + 1).last() == chars@[i as int]);
        if !is_whitespace(chars[i]) {
            kept.push(chars[i]);
        }
        i += 1;
    }
    assert(chars@.take(chars.len() as int) == chars@);
    kept
}

/// The symbols of the `n` characters from place `from` on.
fn quad_symbols(chars: &Vec<char>, from: usize, n: usize) -> (r: Option<Vec<u8>>)
    requires
        from + n <= chars@.len(),
        n <= 4,
    ensures
        match symbols(chars@.skip(from as int).take(n as int)) {
            Some(sym) => r is Some && r->Some_0@ == sym,
            None => r is None,
        },
{
    let ghost quad = chars@.skip(from as int).take(n as int);
    let mut sym: Vec<u8> = Vec::new();
    let mut j: usize = 0;
    assert(quad.take(0) =~= Seq::<char>::empty());
    while j < n
        invariant
            j <= n,
            from + n <= chars.len(),
            quad == chars@.skip(from as int).take(n as int),
            symbols(quad.take(j as int)) == Some(sym@),
        decreases n - j,
    {
        let c = chars[from + j];
        let ghost before = sym@;
        proof {
            assert(quad.take(j + 1).drop_last() == quad.take(j as int));
            assert(quad.take(j + 1).last() == c);
        }
        if c == '=' {
            sym.push(2);
        } else {
            match sextet_value(c) {
                Some(v) => {
                    sym.push((v / 32) % 2);
                    sym.push((v / 16) % 2);
                    sym.push((v / 8) % 2);
                    sym.push((v / 4) % 2);
                    sym.push((v / 2) % 2);
                    sym.push(v % 2);
                    assert(sym@ =~= before + six_bits(v as int));
                },
                None => {
                    proof {
                        assert(symbols(quad.take(j + 1)) is None);
                        lemma_symbols_fail(quad, j + 1);
                    }
                    return None;
                },
            }
        }
        j += 1;
    }
    assert(quad.take(n as int) == quad);
    Some(sym)
}

/// Where the first characters stand for no symbols, the characters stand for none.
proof fn lemma_symbols_fail(quad: Seq<char>, j: int)
    requires
        0 <= j <= quad.len(),
        symbols(quad.take(j)) is None,
    ensures
        symbols(quad) is None,
    decreases quad.len() - j,
{
    if j < quad.len() {
        assert(quad.take(j + 1).drop_last() == quad.take(j));
        lemma_symbols_fail(quad, j + 1);
    } else {
        assert(quad.take(j) == quad);
    }
}

/// The characters that the symbols spell.
fn spell(sym: &Vec<u8>) -> (r: Option<Vec<char>>)
    ensures
        match spelled_by(sym@) {
            Some(text) => r is Some && r->Some_0@ == text,
            None => r is None,
        },
{
    let mut out: Vec<char> = Vec::new();
    let mut i: usize = 0;
    let ghost whole = spelled_by(sym@);
    assert(sym@.skip(0) == sym@);
    assert(after(out@, whole) == whole) by {
        if whole is Some {
            assert(out@ + whole->Some_0 =~= whole->Some_0);
        }
    }
    while sym.len() - i >= 8
        invariant
            i <= sym.len(),
            whole == spelled_by(sym@),
            whole == after(out@, spelled_by(sym@.skip(i as int))),
        decreases sym.len() - i,
    {
        let ghost rest = sym@.skip(i as int);
        let ghost before = out@;
        proof {
            assert(rest.skip(8) == sym@.skip(i + 8));
            assert forall|k: int| 0 <= k < 8 implies rest[k] == sym@[i + k] by {}
            assert(rest.take(8) =~= sym@.subrange(i as int, i + 8));
        }
        if sym[i + 7] != 2 {
            let mut value: u16 = 0;
            let mut k: usize = 0;
            let mut clean = true;
            while k < 8
                invariant
                    k <= 8,
                    i + 8 <= sym.len(),
                    clean == (forall|j: int| 0 <= j < k ==> #[trigger] sym@[i + j] < 2),
                    clean ==> value == partial_byte(sym@.subrange(i as int, i + 8), k as int),
                    value < 256,
                decreases 8 - k,
            {
                if sym[i + k] >= 2 {
                    clean = false;
                } else if clean {
                    proof {
                        let bits = sym@.subrange(i as int, i + 8);
                        assert forall|j: int| 0 <= j < k implies #[trigger] bits[j] < 2 by {
                            assert(sym@[i + j] < 2);
                        }
                        lemma_partial_byte(bits, k as int);
                    }
                    value = value * 2 + sym[i + k] as u16;
                }
                k += 1;
            }
            if !clean {
                proof {
                    let bad = choose|j: int| 0 <= j < 8 && !(#[trigger] sym@[i + j] < 2);
                    assert(rest[bad] == sym@[i + bad]);
                    assert(spelled_by(rest) is None);
                }
                return None;
            }
            proof {
                assert forall|j: int| 0 <= j < 8 implies #[trigger] rest[j] < 2 by {
                    assert(sym@[i + j] < 2);
                }
                lemma_whole_byte(sym@.subrange(i as int, i + 8));
            }
            out.push(value as u8 as char);
            proof {
                let tail = spelled_by(rest.skip(8));
                if tail is Some {
                    assert(out@ + tail->Some_0 =~= before + (seq![value as u8 as char] + tail->Some_0));
                }
            }
        }
        i += 8;
    }
    proof {
        let rest = sym@.skip(i as int);
        assert(rest.len() < 8);
        assert(spelled_by(rest) == Some(Seq::<char>::empty()));
        assert(out@ + Seq::<char>::empty() =~= out@);
    }
    Some(out)
}

/// The number that the first `k` of eight bits spell.
pub open spec fn partial_byte(bits: Seq<u8>, k: int) -> int
    decreases k,
{
    if k <= 0 {
        0
    } else {
        partial_byte(bits, k - 1) * 2 + bits[k - 1]
    }
}

/// The number that the first bits spell is below two to the number of the bits.
proof fn lemma_partial_byte(bits: Seq<u8>, k: int)
    requires
        0 <= k <= 7,
        bits.len() == 8,
        forall|j: int| 0 <= j < k ==> #[trigger] bits[j] < 2,
    ensures
        0 <= partial_byte(bits, k) < 128,
    decreases k,
{
    reveal_with_fuel(partial_byte, 9);
}

/// The number that all eight bits spell is their byte.
proof fn lemma_whole_byte(bits: Seq<u8>)
    requires
        bits.len() == 8,
        forall|j: int| 0 <= j < 8 ==> #[trigger] bits[j] < 2,
    ensures
        partial_byte(bits, 8) == byte_from(bits),
        0 <= byte_from(bits) < 256,
{
    reveal_with_fuel(partial_byte, 9);
    assert(bits[0] < 2 && bits[1] < 2 && bits[2] < 2 && bits[3] < 2 && bits[4] < 2 && bits[5] < 2 && bits[6]
        < 2 && bits[7] < 2);
}

} // verus!
