//! Numerals of one byte in a radix: three digits to write a byte, and the reading
//! of a numeral as `u8::from_str_radix` reads it.

use vstd::prelude::*;
use crate::error::CipherError;
use crate::gronsfeld::unsigned;
use crate::text::{chars_of, low_byte, low_byte_of, split_words, string_of, word_views, words};

verus! {

/// The digit with the value `d`, below 36: `0` to `9`, then `a` to `z`.
pub open spec fn digit_char(d: int) -> char {
    if d < 10 {
        (48 + d) as u8 as char
    } else {
        (87 + d) as u8 as char
    }
}

/// The value of the digit `c` in the radix, small letters and capitals alike; nothing
/// for a character that is no digit of the radix.
pub open spec fn digit_value(c: char, radix: int) -> Option<int> {
    let d = if '0' <= c <= '9' {
        c as int - 48
    } else if 'a' <= c <= 'z' {
        c as int - 87
    } else if 'A' <= c <= 'Z' {
        c as int - 55
    } else {
        36
    };
    if d < radix {
        Some(d)
    } else {
        None
    }
}

/// The byte `b` written in the radix with three digits, zeros leading.
pub open spec fn numeral(b: u8, radix: int) -> Seq<char> {
    seq![digit_char(b as int / (radix * radix)), digit_char((b as int / radix) % radix), digit_char(b as int % radix)]
}

/// The text encoded: each character becomes the numeral of the lowest eight bits of
/// its code point, and one space separates the numerals.
pub open spec fn encoded(text: Seq<char>, radix: int) -> Seq<char>
    decreases text.len(),
{
    if text.len() == 0 {
        Seq::empty()
    } else if text.len() == 1 {
        numeral(low_byte_of(text[0]), radix)
    } else {
        encoded(text.drop_last(), radix) + seq![' '] + numeral(low_byte_of(text.last()), radix)
    }
}

/// Whether every character of `s` is a digit of the radix.
pub open spec fn all_radix_digits(s: Seq<char>, radix: int) -> bool {
    forall|i: int| 0 <= i < s.len() ==> digit_value(#[trigger] s[i], radix) is Some
}

/// The number that the digits `s` spell in the radix.
pub open spec fn radix_number(s: Seq<char>, radix: int) -> int
    decreases s.len(),
{
    if s.len() == 0 {
        0
    } else {
        radix_number(s.drop_last(), radix) * radix + match digit_value(s.last(), radix) {
            Some(d) => d,
            None => 0,
        }
    }
}

/// The byte that the numeral `s` spells: `s` is digits of the radix, one or more,
/// which may follow a plus sign, and the number is at most 255. Nothing for any
/// other text.
pub open spec fn byte_of(s: Seq<char>, radix: int) -> Option<u8> {
    if unsigned(s).len() > 0 && all_radix_digits(unsigned(s), radix) && radix_number(unsigned(s), radix)
        <= 255 {
        Some(radix_number(unsigned(s), radix) as u8)
    } else {
        None
    }
}

/// The characters whose code points are the bytes that the first `j` numerals spell;
/// nothing where one of them spells none.
pub open spec fn decoded_words(tokens: Seq<Seq<char>>, radix: int, j: int) -> Option<Seq<char>>
    decreases j,
{
    if j <= 0 {
        Some(Seq::empty())
    } else {
        match (decoded_words(tokens, radix, j - 1), byte_of(tokens[j - 1], radix)) {
            (Some(before), Some(b)) => Some(before.push(b as char)),
            _ => None,
        }
    }
}

/// The text decoded: it is split at white space, and each word is read as a numeral.
pub open spec fn decoded(text: Seq<char>, radix: int) -> Option<Seq<char>> {
    decoded_words(words(text), radix, words(text).len() as int)
}

/// The number that digits spell is no less than the number that the first of them spell.
proof fn lemma_radix_number_grows(s: Seq<char>, radix: int, k: int)
    requires
        0 <= k <= s.len(),
        2 <= radix <= 36,
    ensures
        0 <= radix_number(s.take(k), radix) <= radix_number(s, radix),
    decreases s.len() - k,
{
    if k < s.len() {
        lemma_radix_number_grows(s, radix, k + 1);
        assert(s.take(k + 1).drop_last() == s.take(k));
        lemma_radix_number_nonneg(s.take(k), radix);
        let x = radix_number(s.take(k), radix);
        assert(x <= x * radix) by (nonlinear_arith)
            requires
                x >= 0,
                radix >= 2,
        ;
    } else {
        assert(s.take(k) == s);
        lemma_radix_number_nonneg(s, radix);
    }
}

proof fn lemma_radix_number_nonneg(s: Seq<char>, radix: int)
    requires
        2 <= radix <= 36,
    ensures
        0 <= radix_number(s, radix),
    decreases s.len(),
{
    if s.len() > 0 {
        lemma_radix_number_nonneg(s.drop_last(), radix);
        let x = radix_number(s.drop_last(), radix);
        assert(0 <= x * radix) by (nonlinear_arith)
            requires
                x >= 0,
                radix >= 2,
        ;
    }
}

/// The digit with the value `d`.
fn digit(d: u8) -> (c: char)
    requires
        d < 36,
    ensures
        c == digit_char(d as int),
{
    if d < 10 {
        (48 + d) as char
    } else {
        (87 + d) as char
    }
}

/// Writes each character of `text` as a numeral of three digits in the radix, which
/// is 8 or 16, with a space between two numerals.
pub fn encode(text: &str, radix: u8) -> (out: String)
    requires
        radix == 8 || radix == 16,
    ensures
        out@ == encoded(text@, radix as int),
{
    let chars = chars_of(text);
    let mut out: Vec<char> = Vec::new();
    let mut i: usize = 0;
    assert(chars@.take(0) =~= Seq::<char>::empty());
    while i < chars.len()
        invariant
            i <= chars.len(),
            radix == 8 || radix == 16,
            out@ == encoded(chars@.take(i as int), radix as int),
        decreases chars.len() - i,
    {
        let ghost before = out@;
        let ghost now = chars@.take(i + 1);
        proof {
            assert(now.drop_last() == chars@.take(i as int));
            assert(now.last() == chars@[i as int]);
        }
        if i > 0 {
            out.push(' ');
        }
        let b = low_byte(chars[i]);
        let square: u16 = if radix == 8 {
            64
        } else {
            256
        };
        proof {
            let r = radix as int;
            let v = b as int;
            assert(r * r == square) by (nonlinear_arith)
                requires
                    (r == 8 && square == 64) || (r == 16 && square == 256),
            ;
            if r == 8 {
                assert(v / 64 < 4 && (v / 8) % 8 < 8 && v % 8 < 8);
            } else {
                assert(v / 256 < 1 && (v / 16) % 16 < 16 && v % 16 < 16);
            }
        }
        out.push(digit((b as u16 / square) as u8));
        out.push(digit((b / radix) % radix));
        out.push(digit(b % radix));
        proof {
            let n = numeral(b, radix as int);
            if i > 0 {
                assert(out@ =~= before + seq![' '] + n);
            } else {
                assert(out@ =~= n);
                assert(now.len() == 1 && now[0] == chars@[0]);
            }
        }
        i += 1;
    }
    assert(chars@.take(chars.len() as int) == chars@);
    string_of(&out)
}

/// The byte that the numeral `token` spells in the radix.
fn parse_byte(token: &Vec<char>, radix: u8) -> (r: Option<u8>)
    requires
        radix == 8 || radix == 16,
    ensures
        r == byte_of(token@, radix as int),
{
    let start: usize = if token.len() > 0 && token[0] == '+' {
        1
    } else {
        0
    };
    let ghost body = unsigned(token@);
    assert(body == token@.skip(start as int));
    if start == token.len() {
        return None;
    }
    let mut value: u16 = 0;
    let mut i: usize = start;
    assert(body.take(0) =~= Seq::<char>::empty());
    while i < token.len()
        invariant
            start <= i <= token.len(),
            radix == 8 || radix == 16,
            body == token@.skip(start as int),
            body == unsigned(token@),
            body.len() > 0,
            all_radix_digits(body.take(i - start), radix as int),
            value == radix_number(body.take(i - start), radix as int),
            value <= 255,
        decreases token.len() - i,
    {
        let c = token[i];
        let ghost now = body.take(i - start + 1);
        proof {
            assert(now.drop_last() == body.take(i - start));
            assert(now.last() == c);
            assert(body[i - start] == c);
        }
        let d: u16 = if '0' <= c && c <= '9' {
            (c as u8 - 48) as u16
        } else if 'a' <= c && c <= 'z' {
            (c as u8 - 87) as u16
        } else if 'A' <= c && c <= 'Z' {
            (c as u8 - 55) as u16
        } else {
            36
        };
        if d >= radix as u16 {
            assert(digit_value(body[i - start], radix as int) is None);
            return None;
        }
        assert(value * radix <= 255 * 16) by (nonlinear_arith)
            requires
                0 <= value <= 255,
                0 <= radix <= 16,
        ;
        let next = value * radix as u16 + d;
        if next > 255 {
            proof {
                assert(radix_number(now, radix as int) == next);
                lemma_radix_number_grows(body, radix as int, i - start + 1);
            }
            return None;
        }
        value = next;
        proof {
            assert forall|k: int| 0 <= k < now.len() implies digit_value(#[trigger] now[k], radix as int) is Some by {
                if k < now.len() - 1 {
                    assert(body.take(i - start)[k] == now[k]);
                }
            }
        }
        i += 1;
    }
    assert(body.take(body.len() as int) == body);
    Some(value as u8)
}

/// Reads `text` as numerals in the radix, which is 8 or 16, separated by white space,
/// and returns the characters whose code points they spell. Fails unless each word
/// is digits of the radix, which may follow a plus sign, and spells at most 255.
pub fn decode(text: &str, radix: u8) -> (r: Result<String, CipherError>)
    requires
        radix == 8 || radix == 16,
    ensures
        match decoded(text@, radix as int) {
            Some(out) => r is Ok && r->Ok_0@ == out,
            None => r is Err && r->Err_0 == CipherError::InvalidArgument,
        },
{
    let tokens = split_words(text);
    let ghost views = word_views(tokens@);
    let mut out: Vec<char> = Vec::new();
    let mut j: usize = 0;
    while j < tokens.len()
        invariant
            j <= tokens.len(),
            radix == 8 || radix == 16,
            views == word_views(tokens@),
            views == words(text@),
            decoded_words(views, radix as int, j as int) == Some(out@),
        decreases tokens.len() - j,
    {
        assert(views[j as int] == tokens@[j as int]@);
        match parse_byte(&tokens[j], radix) {
            Some(b) => {
                out.push(b as char);
            },
            None => {
                proof {
                    assert(decoded_words(views, radix as int, j + 1) is None);
                    lemma_decoded_fails(views, radix as int, j + 1);
                }
                return Err(CipherError::InvalidArgument);
            },
        }
        j += 1;
    }
    Ok(string_of(&out))
}

/// Where the first numerals cannot be read, the text cannot.
proof fn lemma_decoded_fails(tokens: Seq<Seq<char>>, radix: int, j: int)
    requires
        0 <= j <= tokens.len(),
        decoded_words(tokens, radix, j) is None,
    ensures
        decoded_words(tokens, radix, tokens.len() as int) is None,
    decreases tokens.len() - j,
{
    if j < tokens.len() {
        lemma_decoded_fails(tokens, radix, j + 1);
    }
}

} // verus!
