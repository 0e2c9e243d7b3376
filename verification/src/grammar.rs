//! The JSON grammar that the parser follows, written as functions on the
//! input bytes.
//!
//! Each function takes the input and a position and gives either the position
//! after what it recognized or the error code and the position at which the
//! parser stops with that error.
use crate::error::ErrorCode;
use crate::swar::is_string_special;
use vstd::prelude::*;
use vstd::utf8::*;

verus! {

/// The deepest nesting of arrays and objects that the parser accepts.
pub const MAX_DEPTH: usize = 128;

/// The position after a recognized piece, or the error and where it happened.
pub type Scan = Result<int, (ErrorCode, int)>;

pub open spec fn is_ws(b: u8) -> bool {
    b == 0x20 || b == 0x0a || b == 0x0d || b == 0x09
}

pub open spec fn is_digit(b: u8) -> bool {
    0x30 <= b <= 0x39
}

/// The byte at `i`, if there is one.
pub open spec fn byte_at(s: Seq<u8>, i: int) -> Option<u8> {
    if 0 <= i < s.len() {
        Some(s[i])
    } else {
        None
    }
}

pub open spec fn digit_at(s: Seq<u8>, i: int) -> bool {
    0 <= i < s.len() && is_digit(s[i])
}

/// The first position at or after `i` that is not whitespace.
pub open spec fn skip_ws(s: Seq<u8>, i: int) -> int
    decreases s.len() - i,
{
    if 0 <= i < s.len() && is_ws(s[i]) {
        skip_ws(s, i + 1)
    } else {
        i
    }
}

/// The first position at or after `i` that is not an ASCII digit.
pub open spec fn digits_end(s: Seq<u8>, i: int) -> int
    decreases s.len() - i,
{
    if digit_at(s, i) {
        digits_end(s, i + 1)
    } else {
        i
    }
}

/// One expected byte, after optional whitespace.
pub open spec fn expect(s: Seq<u8>, i: int, b: u8) -> Scan {
    let j = skip_ws(s, i);
    if byte_at(s, j) == Some(b) {
        Ok(j + 1)
    } else {
        Err((ErrorCode::ExpectedByte(b), j))
    }
}

/// An exact literal such as `null`, after optional whitespace.
pub open spec fn literal(s: Seq<u8>, i: int, lit: Seq<u8>) -> Scan {
    let j = skip_ws(s, i);
    if j + lit.len() <= s.len() && s.subrange(j, j + lit.len()) == lit {
        Ok(j + lit.len())
    } else {
        Err((ErrorCode::ExpectedLiteral, j))
    }
}

pub open spec fn null_literal() -> Seq<u8> {
    seq![0x6eu8, 0x75, 0x6c, 0x6c]
}

pub open spec fn true_literal() -> Seq<u8> {
    seq![0x74u8, 0x72, 0x75, 0x65]
}

pub open spec fn false_literal() -> Seq<u8> {
    seq![0x66u8, 0x61, 0x6c, 0x73, 0x65]
}

/// The value of one hexadecimal digit.
pub open spec fn hex_digit(b: u8) -> Option<u8> {
    if 0x30 <= b <= 0x39 {
        Some((b - 0x30) as u8)
    } else if 0x61 <= b <= 0x66 {
        Some((b - 0x61 + 10) as u8)
    } else if 0x41 <= b <= 0x46 {
        Some((b - 0x41 + 10) as u8)
    } else {
        None
    }
}

/// Four hexadecimal digits at `i`: their value and the position after them.
pub open spec fn hex_quad(s: Seq<u8>, i: int) -> Result<(u16, int), (ErrorCode, int)> {
    if i + 4 > s.len() {
        Err((ErrorCode::IncompleteUnicodeEscape, i))
    } else {
        match (hex_digit(s[i]), hex_digit(s[i + 1]), hex_digit(s[i + 2]), hex_digit(s[i + 3])) {
            (Some(a), Some(b), Some(c), Some(d)) => Ok(
                (((a as int) * 4096 + (b as int) * 256 + (c as int) * 16 + (d as int)) as u16, i + 4),
            ),
            _ => Err((ErrorCode::InvalidUnicodeEscape, i)),
        }
    }
}

pub open spec fn is_high_surrogate(code: u16) -> bool {
    0xD800 <= code <= 0xDBFF
}

pub open spec fn is_low_surrogate(code: u16) -> bool {
    0xDC00 <= code <= 0xDFFF
}

/// The scalar that a surrogate pair stands for.
pub open spec fn surrogate_scalar(high: u16, low: u16) -> u32 {
    (0x1_0000 + (high - 0xD800) * 0x400 + (low - 0xDC00)) as u32
}

/// The character that a simple escape such as `\n` stands for.
pub open spec fn simple_escape(b: u8) -> Option<char> {
    if b == 0x22 {
        Some('"')
    } else if b == 0x5c {
        Some('\\')
    } else if b == 0x2f {
        Some('/')
    } else if b == 0x62 {
        Some('\u{0008}')
    } else if b == 0x66 {
        Some('\u{000c}')
    } else if b == 0x6e {
        Some('\n')
    } else if b == 0x72 {
        Some('\r')
    } else if b == 0x74 {
        Some('\t')
    } else {
        None
    }
}

/// The first special byte at or after `i`.
pub open spec fn next_special(s: Seq<u8>, i: int) -> Option<int>
    decreases s.len() - i,
{
    if i < 0 || i >= s.len() {
        None
    } else if is_string_special(s[i]) {
        Some(i)
    } else {
        next_special(s, i + 1)
    }
}

/// The `\u` escape at `q` (just after the `u`): the scalar it stands for and
/// the position after it.
pub open spec fn unicode_escape(s: Seq<u8>, q: int) -> Result<(u32, int), (ErrorCode, int)> {
    match hex_quad(s, q) {
        Err(e) => Err(e),
        Ok((code, q2)) => if is_high_surrogate(code) {
            if !(q2 + 2 <= s.len() && s[q2] == 0x5c && s[q2 + 1] == 0x75) {
                Err((ErrorCode::HighSurrogateWithoutLow, q2))
            } else {
                match hex_quad(s, q2 + 2) {
                    Err(e) => Err(e),
                    Ok((low, q3)) => if !is_low_surrogate(low) {
                        Err((ErrorCode::InvalidLowSurrogate, q3))
                    } else {
                        Ok((surrogate_scalar(code, low), q3))
                    },
                }
            }
        } else if is_low_surrogate(code) {
            Err((ErrorCode::UnexpectedLowSurrogate, q2))
        } else {
            Ok((code as u32, q2))
        },
    }
}

/// The rest of a string body from `k`, validated without decoding: the
/// position after the closing quote.
pub open spec fn string_rest(s: Seq<u8>, k: int) -> Scan
    decreases s.len() - k,
{
    if k < 0 || k > s.len() {
        Err((ErrorCode::UnterminatedString, k))
    } else {
        match next_special(s, k) {
            None => Err((ErrorCode::UnterminatedString, k)),
            Some(p) => if p < k {
                Err((ErrorCode::UnterminatedString, k))
            } else if s[p] == 0x22 {
                Ok(p + 1)
            } else if s[p] == 0x5c {
                if p + 1 >= s.len() {
                    Err((ErrorCode::UnterminatedEscape, p + 1))
                } else {
                    let e = s[p + 1];
                    if simple_escape(e) is Some {
                        string_rest(s, p + 2)
                    } else if e == 0x75 {
                        match unicode_escape(s, p + 2) {
                            Err(err) => Err(err),
                            Ok((_, q)) => if q > k && q <= s.len() {
                                string_rest(s, q)
                            } else {
                                Err((ErrorCode::InvalidUnicodeEscape, q))
                            },
                        }
                    } else {
                        Err((ErrorCode::InvalidEscape, p + 2))
                    }
                }
            } else {
                Err((ErrorCode::ControlCharacter, p))
            },
        }
    }
}

/// A string, after optional whitespace, validated without decoding.
pub open spec fn skip_string(s: Seq<u8>, i: int) -> Scan {
    let j = skip_ws(s, i);
    if byte_at(s, j) != Some(0x22u8) {
        Err((ErrorCode::ExpectedString, j))
    } else if !valid_utf8(s) {
        Err((ErrorCode::NotUtf8, j + 1))
    } else {
        string_rest(s, j + 1)
    }
}

/// The first position at or after `i` that ends a plain run of a string:
/// a quote, a backslash, a control byte, or the end of the input.
pub open spec fn run_end(s: Seq<u8>, i: int) -> int {
    match next_special(s, i) {
        Some(p) => p,
        None => s.len() as int,
    }
}

/// The characters of the bytes from `from` to `to`.
pub open spec fn chars_of(s: Seq<u8>, from: int, to: int) -> Seq<char> {
    decode_utf8(s.subrange(from, to))
}

/// The rest of an escaped string body from `k`, decoding into `acc`: the
/// decoded characters and the position after the closing quote.
pub open spec fn escaped_rest(s: Seq<u8>, k: int, acc: Seq<char>) -> Result<
    (Seq<char>, int),
    (ErrorCode, int),
>
    decreases s.len() - k,
{
    if k < 0 || k >= s.len() {
        Err((ErrorCode::UnterminatedString, k))
    } else if s[k] == 0x22 {
        Ok((acc, k + 1))
    } else if s[k] == 0x5c {
        if k + 1 >= s.len() {
            Err((ErrorCode::UnterminatedEscape, k + 1))
        } else {
            let e = s[k + 1];
            match simple_escape(e) {
                Some(c) => escaped_rest(s, k + 2, acc.push(c)),
                None => if e == 0x75 {
                    match unicode_escape(s, k + 2) {
                        Err(err) => Err(err),
                        Ok((scalar, q)) => if q > k && q <= s.len() {
                            escaped_rest(s, q, acc.push(scalar as char))
                        } else {
                            Err((ErrorCode::InvalidUnicodeEscape, q))
                        },
                    }
                } else {
                    Err((ErrorCode::InvalidEscape, k + 2))
                },
            }
        }
    } else if s[k] < 0x20 {
        Err((ErrorCode::ControlCharacter, k))
    } else {
        let m = run_end(s, k);
        if m > k && m <= s.len() {
            escaped_rest(s, m, acc + chars_of(s, k, m))
        } else {
            Err((ErrorCode::ControlCharacter, k))
        }
    }
}

/// A decoded string: its characters, whether it had no escapes (so that it
/// can be borrowed from the input), and the position after it.
pub open spec fn parse_string(s: Seq<u8>, i: int) -> Result<
    (Seq<char>, bool, int),
    (ErrorCode, int),
> {
    let j = skip_ws(s, i);
    if byte_at(s, j) != Some(0x22u8) {
        Err((ErrorCode::ExpectedString, j))
    } else if !valid_utf8(s) {
        Err((ErrorCode::NotUtf8, j + 1))
    } else {
        let start = j + 1;
        match next_special(s, start) {
            None => Err((ErrorCode::UnterminatedString, start)),
            Some(p) => if s[p] == 0x22 {
                Ok((chars_of(s, start, p), true, p + 1))
            } else if s[p] == 0x5c {
                match escaped_rest(s, p, chars_of(s, start, p)) {
                    Ok((chars, end)) => Ok((chars, false, end)),
                    Err(e) => Err(e),
                }
            } else {
                Err((ErrorCode::ControlCharacter, p))
            },
        }
    }
}

/// The decimal value of the digits from `from` to `to`.
pub open spec fn digits_value(s: Seq<u8>, from: int, to: int) -> nat
    decreases to - from,
{
    if to <= from {
        0
    } else {
        digits_value(s, from, to - 1) * 10 + (s[to - 1] - 0x30) as nat
    }
}

/// What a number token is: where it ends, whether it has a fraction or an
/// exponent, whether it is negative, and the magnitude of its integer part
/// when that fits in 64 bits.
pub struct NumberShape {
    pub end: int,
    pub float: bool,
    pub negative: bool,
    pub magnitude: Option<u64>,
}

pub open spec fn magnitude_of(value: nat) -> Option<u64> {
    if value <= u64::MAX {
        Some(value as u64)
    } else {
        None
    }
}

/// A number token at `j` (whitespace already skipped).
pub open spec fn number(s: Seq<u8>, j: int) -> Result<NumberShape, (ErrorCode, int)> {
    let negative = byte_at(s, j) == Some(0x2du8);
    let k = if negative {
        j + 1
    } else {
        j
    };
    let int_part: Result<(int, Option<u64>), (ErrorCode, int)> = if byte_at(s, k) == Some(
        0x30u8,
    ) {
        if digit_at(s, k + 1) {
            Err((ErrorCode::LeadingZero, k + 1))
        } else {
            Ok((k + 1, Some(0u64)))
        }
    } else if digit_at(s, k) {
        let e = digits_end(s, k);
        Ok((e, magnitude_of(digits_value(s, k, e))))
    } else {
        Err((ErrorCode::InvalidNumber, k))
    };
    match int_part {
        Err(e) => Err(e),
        Ok((k1, magnitude)) => {
            let has_fraction = byte_at(s, k1) == Some(0x2eu8);
            let frac: Result<int, (ErrorCode, int)> = if has_fraction {
                let f = digits_end(s, k1 + 1);
                if f == k1 + 1 {
                    Err((ErrorCode::FractionWithoutDigits, k1 + 1))
                } else {
                    Ok(f)
                }
            } else {
                Ok(k1)
            };
            match frac {
                Err(e) => Err(e),
                Ok(k2) => {
                    let has_exponent = byte_at(s, k2) == Some(0x65u8) || byte_at(s, k2) == Some(
                        0x45u8,
                    );
                    if has_exponent {
                        let k3 = if byte_at(s, k2 + 1) == Some(0x2bu8) || byte_at(s, k2 + 1)
                            == Some(0x2du8) {
                            k2 + 2
                        } else {
                            k2 + 1
                        };
                        let x = digits_end(s, k3);
                        if x == k3 {
                            Err((ErrorCode::ExponentWithoutDigits, k3))
                        } else {
                            Ok(NumberShape { end: x, float: true, negative, magnitude })
                        }
                    } else {
                        Ok(NumberShape { end: k2, float: has_fraction, negative, magnitude })
                    }
                }
            }
        }
    }
}

/// One JSON value, after optional whitespace, validated without building it,
/// at nesting depth `depth`.
pub open spec fn skip_value(s: Seq<u8>, i: int, depth: nat) -> Scan
    decreases s.len() - i, 1nat,
{
    let j = skip_ws(s, i);
    if j < i || j > s.len() {
        Err((ErrorCode::UnexpectedEnd, j))
    } else {
        match byte_at(s, j) {
            None => Err((ErrorCode::UnexpectedEnd, j)),
            Some(b) => if b == 0x6e {
                literal(s, j, null_literal())
            } else if b == 0x74 {
                literal(s, j, true_literal())
            } else if b == 0x66 {
                literal(s, j, false_literal())
            } else if b == 0x22 {
                skip_string(s, j)
            } else if b == 0x2d || is_digit(b) {
                match number(s, j) {
                    Ok(shape) => Ok(shape.end),
                    Err(e) => Err(e),
                }
            } else if b == 0x5b {
                skip_array(s, j, depth)
            } else if b == 0x7b {
                skip_object(s, j, depth)
            } else {
                Err((ErrorCode::ExpectedValue, j))
            },
        }
    }
}

/// An array whose `[` is at `j`.
pub open spec fn skip_array(s: Seq<u8>, j: int, depth: nat) -> Scan
    decreases s.len() - j, 0nat,
{
    if j < 0 || j >= s.len() {
        Err((ErrorCode::ExpectedByte(0x5b), j))
    } else if depth >= MAX_DEPTH {
        Err((ErrorCode::RecursionLimit, j + 1))
    } else {
        let m = skip_ws(s, j + 1);
        if byte_at(s, m) == Some(0x5du8) {
            Ok(m + 1)
        } else {
            array_items(s, j + 1, depth + 1)
        }
    }
}

/// The elements of an array from `k`, each followed by `,` or the closing `]`.
pub open spec fn array_items(s: Seq<u8>, k: int, depth: nat) -> Scan
    decreases s.len() - k, 2nat,
{
    if k < 0 || k > s.len() {
        Err((ErrorCode::UnexpectedEnd, k))
    } else {
        match skip_value(s, k, depth) {
            Err(e) => Err(e),
            Ok(v) => if v <= k || v > s.len() {
                Err((ErrorCode::ExpectedValue, k))
            } else {
                let m = skip_ws(s, v);
                if m < v {
                    Err((ErrorCode::ExpectedCommaOrBracket, m))
                } else if byte_at(s, m) == Some(0x2cu8) {
                    array_items(s, m + 1, depth)
                } else if byte_at(s, m) == Some(0x5du8) {
                    Ok(m + 1)
                } else {
                    Err((ErrorCode::ExpectedCommaOrBracket, m))
                }
            },
        }
    }
}

/// An object whose `{` is at `j`.
pub open spec fn skip_object(s: Seq<u8>, j: int, depth: nat) -> Scan
    decreases s.len() - j, 0nat,
{
    if j < 0 || j >= s.len() {
        Err((ErrorCode::ExpectedByte(0x7b), j))
    } else if depth >= MAX_DEPTH {
        Err((ErrorCode::RecursionLimit, j + 1))
    } else {
        let m = skip_ws(s, j + 1);
        if byte_at(s, m) == Some(0x7du8) {
            Ok(m + 1)
        } else {
            object_members(s, j + 1, depth + 1)
        }
    }
}

/// The members of an object from `k`, each followed by `,` or the closing `}`.
pub open spec fn object_members(s: Seq<u8>, k: int, depth: nat) -> Scan
    decreases s.len() - k, 2nat,
{
    if k < 0 || k > s.len() {
        Err((ErrorCode::UnexpectedEnd, k))
    } else {
        match skip_string(s, k) {
            Err(e) => Err(e),
            Ok(n) => match expect(s, n, 0x3a) {
                Err(e) => Err(e),
                Ok(c) => if c <= k || c > s.len() {
                    Err((ErrorCode::ExpectedValue, k))
                } else {
                    match skip_value(s, c, depth) {
                        Err(e) => Err(e),
                        Ok(v) => if v <= k || v > s.len() {
                            Err((ErrorCode::ExpectedValue, k))
                        } else {
                            let m = skip_ws(s, v);
                            if m < v {
                                Err((ErrorCode::ExpectedCommaOrBrace, m))
                            } else if byte_at(s, m) == Some(0x2cu8) {
                                object_members(s, m + 1, depth)
                            } else if byte_at(s, m) == Some(0x7du8) {
                                Ok(m + 1)
                            } else {
                                Err((ErrorCode::ExpectedCommaOrBrace, m))
                            }
                        },
                    }
                },
            },
        }
    }
}

} // verus!

verus! {

pub proof fn lemma_skip_ws(s: Seq<u8>, i: int)
    requires
        0 <= i <= s.len(),
    ensures
        i <= skip_ws(s, i) <= s.len(),
        skip_ws(s, i) < s.len() ==> !is_ws(s[skip_ws(s, i)]),
        forall|k: int| i <= k < skip_ws(s, i) ==> is_ws(#[trigger] s[k]),
        skip_ws(s, skip_ws(s, i)) == skip_ws(s, i),
    decreases s.len() - i,
{
    if i < s.len() && is_ws(s[i]) {
        lemma_skip_ws(s, i + 1);
    }
}

pub proof fn lemma_digits_end(s: Seq<u8>, i: int)
    requires
        0 <= i <= s.len(),
    ensures
        i <= digits_end(s, i) <= s.len(),
        !digit_at(s, digits_end(s, i)),
        forall|k: int| i <= k < digits_end(s, i) ==> is_digit(#[trigger] s[k]),
    decreases s.len() - i,
{
    if digit_at(s, i) {
        lemma_digits_end(s, i + 1);
    }
}

/// `next_special` agrees with the first special byte of the suffix.
pub proof fn lemma_next_special(s: Seq<u8>, k: int, found: Option<usize>)
    requires
        0 <= k <= s.len(),
        crate::swar::is_first_special(s.subrange(k, s.len() as int), found),
    ensures
        next_special(s, k) == match found {
            Some(r) => Some(k + r),
            None => None::<int>,
        },
    decreases s.len() - k,
{
    let t = s.subrange(k, s.len() as int);
    if k < s.len() {
        assert(t[0] == s[k]);
        if is_string_special(s[k]) {
            match found {
                Some(r) => {
                    if r > 0 {
                        assert(!is_string_special(t[0]));
                    }
                },
                None => {
                    assert(!is_string_special(t[0]));
                },
            }
        } else {
            let found2: Option<usize> = match found {
                Some(r) => if r > 0 {
                    Some((r - 1) as usize)
                } else {
                    None
                },
                None => None,
            };
            match found {
                Some(r) => {
                    assert(r > 0);
                },
                None => {},
            }
            let t2 = s.subrange(k + 1, s.len() as int);
            assert forall|j: int| 0 <= j < t2.len() implies t2[j] == t[j + 1] by {}
            lemma_next_special(s, k + 1, found2);
        }
    }
}

/// `next_special` finds a position at or after `k` with only plain bytes before it.
pub proof fn lemma_next_special_props(s: Seq<u8>, k: int)
    requires
        0 <= k <= s.len(),
    ensures
        match next_special(s, k) {
            Some(p) => k <= p < s.len() && is_string_special(s[p]) && forall|j: int|
                k <= j < p ==> !is_string_special(#[trigger] s[j]),
            None => forall|j: int| k <= j < s.len() ==> !is_string_special(#[trigger] s[j]),
        },
    decreases s.len() - k,
{
    if k < s.len() && !is_string_special(s[k]) {
        lemma_next_special_props(s, k + 1);
    }
}

/// In well-formed UTF-8, the position just after an ASCII byte starts a character.
pub proof fn lemma_boundary_after_ascii(s: Seq<u8>, i: int)
    requires
        valid_utf8(s),
        0 <= i < s.len(),
        s[i] < 0x80,
    ensures
        is_char_boundary(s, i + 1),
    decreases s.len(),
{
    reveal_with_fuel(is_char_boundary, 2);
    let w = length_of_first_scalar(s);
    if i == 0 {
        assert(w == 1);
        let rest = pop_first_scalar(s);
        is_char_boundary_start_end_of_seq(rest);
    } else if i < w {
        // bytes after the first byte of a scalar are continuation bytes
        assert(is_continuation_byte(s[i]));
    } else {
        let rest = pop_first_scalar(s);
        assert(rest.len() < s.len());
        assert(rest[i - w] == s[i]);
        lemma_boundary_after_ascii(rest, i - w);
    }
}

/// An ASCII byte of well-formed UTF-8 starts a character.
pub proof fn lemma_boundary_at_ascii(s: Seq<u8>, i: int)
    requires
        valid_utf8(s),
        0 <= i < s.len(),
        s[i] < 0x80,
    ensures
        is_char_boundary(s, i),
{
    is_char_boundary_iff_not_is_continuation_byte(s, i);
}

} // verus!

verus! {

/// Digits from `k` appended to `acc`, failing at the first digit that takes
/// the value past `u64::MAX`: the value and the position after the digits.
pub open spec fn u64_digits(s: Seq<u8>, k: int, acc: nat) -> Result<(nat, int), (ErrorCode, int)>
    decreases s.len() - k,
{
    if digit_at(s, k) {
        let a = acc * 10 + (s[k] - 0x30) as nat;
        if a > u64::MAX {
            Err((ErrorCode::IntegerOutOfRange, k))
        } else {
            u64_digits(s, k + 1, a)
        }
    } else {
        Ok((acc, k))
    }
}

/// The integer part of a number whose first digit is at `k`: its magnitude and
/// the position after it.
pub open spec fn integer_digits(s: Seq<u8>, k: int) -> Result<(nat, int), (ErrorCode, int)> {
    match byte_at(s, k) {
        None => Err((ErrorCode::InvalidNumber, k)),
        Some(b) => if b == 0x30 {
            if digit_at(s, k + 1) {
                Err((ErrorCode::LeadingZero, k + 1))
            } else {
                Ok((0nat, k + 1))
            }
        } else if is_digit(b) {
            u64_digits(s, k + 1, (b - 0x30) as nat)
        } else {
            Err((ErrorCode::InvalidNumber, k))
        },
    }
}

pub open spec fn has_fraction_or_exponent(s: Seq<u8>, k: int) -> bool {
    byte_at(s, k) == Some(0x2eu8) || byte_at(s, k) == Some(0x65u8) || byte_at(s, k) == Some(
        0x45u8,
    )
}

/// An unsigned 64-bit integer token after optional whitespace.
pub open spec fn unsigned_integer(s: Seq<u8>, i: int) -> Result<(u64, int), (ErrorCode, int)> {
    let j = skip_ws(s, i);
    if byte_at(s, j) == Some(0x2du8) {
        Err((ErrorCode::ExpectedUnsigned, j))
    } else {
        match integer_digits(s, j) {
            Err(e) => Err(e),
            Ok((m, e)) => if has_fraction_or_exponent(s, e) {
                Err((ErrorCode::ExpectedUnsigned, e))
            } else {
                Ok((m as u64, e))
            },
        }
    }
}

/// A signed 64-bit integer token after optional whitespace.
pub open spec fn signed_integer(s: Seq<u8>, i: int) -> Result<(i64, int), (ErrorCode, int)> {
    let j = skip_ws(s, i);
    let negative = byte_at(s, j) == Some(0x2du8);
    let k = if negative {
        j + 1
    } else {
        j
    };
    match integer_digits(s, k) {
        Err(e) => Err(e),
        Ok((m, e)) => if has_fraction_or_exponent(s, e) {
            Err((ErrorCode::ExpectedInteger, e))
        } else if negative {
            if m <= 0x8000_0000_0000_0000 {
                Ok(((0 - m) as i64, e))
            } else {
                Err((ErrorCode::IntegerOutOfRange, e))
            }
        } else if m <= i64::MAX {
            Ok((m as i64, e))
        } else {
            Err((ErrorCode::IntegerOutOfRange, e))
        },
    }
}

/// Where a number starts, after optional whitespace, checking its first digits.
pub open spec fn numeric_start(s: Seq<u8>, i: int) -> Scan {
    let j = skip_ws(s, i);
    let u = if byte_at(s, j) == Some(0x2du8) {
        j + 1
    } else {
        j
    };
    if !digit_at(s, u) {
        Err((ErrorCode::InvalidNumber, j))
    } else if s[u] == 0x30 && digit_at(s, u + 1) {
        Err((ErrorCode::LeadingZero, j))
    } else {
        Ok(j)
    }
}

/// The integer value of an integer number token from `j` to `end`.
pub open spec fn integer_value(s: Seq<u8>, j: int, end: int, negative: bool) -> int {
    if negative {
        0 - digits_value(s, j + 1, end)
    } else {
        digits_value(s, j, end) as int
    }
}

pub proof fn lemma_digits_value_step(s: Seq<u8>, from: int, to: int)
    requires
        from <= to,
    ensures
        digits_value(s, from, to + 1) == digits_value(s, from, to) * 10 + (s[to] - 0x30) as nat,
{
}

pub proof fn lemma_u64_digits(s: Seq<u8>, start: int, k: int, acc: nat)
    requires
        0 <= start <= k <= s.len(),
        acc == digits_value(s, start, k),
        forall|j: int| start <= j < k ==> is_digit(#[trigger] s[j]),
        acc <= u64::MAX,
    ensures
        match u64_digits(s, k, acc) {
            Ok((v, e)) => e == digits_end(s, k) && v == digits_value(s, start, e) && v
                <= u64::MAX,
            Err((code, at)) => code == ErrorCode::IntegerOutOfRange && k <= at < digits_end(
                s,
                k,
            ) && digits_value(s, start, at + 1) > u64::MAX,
        },
    decreases s.len() - k,
{
    lemma_digits_end(s, k);
    if digit_at(s, k) {
        lemma_digits_end(s, k + 1);
        lemma_digits_value_step(s, start, k);
        let a = acc * 10 + (s[k] - 0x30) as nat;
        if a <= u64::MAX {
            lemma_u64_digits(s, start, k + 1, a);
        }
    }
}

/// Once a run of digits is past a bound, longer runs stay past it.
pub proof fn lemma_digits_value_grows(s: Seq<u8>, from: int, mid: int, to: int)
    requires
        from <= mid <= to,
        forall|j: int| from <= j < to ==> is_digit(#[trigger] s[j]),
    ensures
        digits_value(s, from, mid) <= digits_value(s, from, to),
    decreases to - mid,
{
    if mid < to {
        lemma_digits_value_grows(s, from, mid, to - 1);
        lemma_digits_value_step(s, from, to - 1);
    }
}

} // verus!

verus! {

/// Bytes that are all ASCII form well-formed UTF-8.
pub proof fn lemma_ascii_valid(t: Seq<u8>)
    requires
        forall|q: int| 0 <= q < t.len() ==> #[trigger] t[q] < 0x80,
    ensures
        valid_utf8(t),
{
    assert(t.subrange(0, 0) =~= Seq::<u8>::empty());
    assert(partial_valid_utf8(t, 0));
    partial_valid_utf8_extend_ascii_block(t, 0, t.len() as int);
    assert(t.subrange(0, t.len() as int) =~= t);
}

/// A number token is ASCII, so its text is well-formed UTF-8.
pub proof fn lemma_number_ascii(s: Seq<u8>, j: int)
    requires
        0 <= j <= s.len(),
        number(s, j) is Ok,
    ensures
        j < number(s, j)->Ok_0.end <= s.len(),
        valid_utf8(s.subrange(j, number(s, j)->Ok_0.end)),
{
    let end = number(s, j)->Ok_0.end;
    let negative = byte_at(s, j) == Some(0x2du8);
    let k = if negative { j + 1 } else { j };
    lemma_digits_end(s, k);
    if k < s.len() {
        lemma_digits_end(s, k + 1);
    }
    let k1 = if byte_at(s, k) == Some(0x30u8) { k + 1 } else { digits_end(s, k) };
    if k1 < s.len() {
        lemma_digits_end(s, k1 + 1);
    }
    let k2 = if byte_at(s, k1) == Some(0x2eu8) { digits_end(s, k1 + 1) } else { k1 };
    if k2 < s.len() {
        lemma_digits_end(s, k2 + 1);
    }
    if k2 + 1 < s.len() {
        lemma_digits_end(s, k2 + 2);
    }
    let t = s.subrange(j, end);
    assert forall|q: int| 0 <= q < t.len() implies #[trigger] t[q] < 0x80 by {
        assert(t[q] == s[j + q]);
    }
    lemma_ascii_valid(t);
}

} // verus!

verus! {

/// A 128-bit signed integer token after optional whitespace.
pub open spec fn wide_integer(s: Seq<u8>, i: int) -> Result<(i128, int), (ErrorCode, int)> {
    let j = skip_ws(s, i);
    match number(s, j) {
        Err(e) => Err(e),
        Ok(shape) => if shape.float {
            Err((ErrorCode::ExpectedInteger, shape.end))
        } else {
            let v = integer_value(s, j, shape.end, shape.negative);
            if i128::MIN <= v <= i128::MAX {
                Ok((v as i128, shape.end))
            } else {
                Err((ErrorCode::IntegerOutOfRange, shape.end))
            }
        },
    }
}

/// A 128-bit unsigned integer token after optional whitespace.
pub open spec fn wide_unsigned(s: Seq<u8>, i: int) -> Result<(u128, int), (ErrorCode, int)> {
    let j = skip_ws(s, i);
    match number(s, j) {
        Err(e) => Err(e),
        Ok(shape) => if shape.float || shape.negative {
            Err((ErrorCode::ExpectedUnsigned, shape.end))
        } else {
            let v = digits_value(s, j, shape.end);
            if v <= u128::MAX {
                Ok((v as u128, shape.end))
            } else {
                Err((ErrorCode::IntegerOutOfRange, shape.end))
            }
        },
    }
}

/// An integer number token is a sign followed by a run of digits.
pub proof fn lemma_integer_token(s: Seq<u8>, j: int)
    requires
        0 <= j <= s.len(),
        number(s, j) is Ok,
        !number(s, j)->Ok_0.float,
    ensures
        ({
            let shape = number(s, j)->Ok_0;
            let k = if shape.negative { j + 1 } else { j };
            &&& k < shape.end <= s.len()
            &&& shape.negative == (byte_at(s, j) == Some(0x2du8))
            &&& forall|q: int| k <= q < shape.end ==> is_digit(#[trigger] s[q])
        }),
{
    let negative = byte_at(s, j) == Some(0x2du8);
    let k = if negative { j + 1 } else { j };
    lemma_digits_end(s, k);
}

} // verus!

verus! {

pub proof fn lemma_string_rest_progress(s: Seq<u8>, k: int)
    requires
        0 <= k <= s.len(),
    ensures
        string_rest(s, k) matches Ok(v) ==> k < v <= s.len(),
    decreases s.len() - k,
{
    lemma_next_special_props(s, k);
    match next_special(s, k) {
        None => {},
        Some(p) => {
            if s[p] == 0x5c && p + 1 < s.len() {
                let e = s[p + 1];
                if simple_escape(e) is Some {
                    lemma_string_rest_progress(s, p + 2);
                } else if e == 0x75 {
                    match unicode_escape(s, p + 2) {
                        Ok((_, q)) => {
                            if q > k && q <= s.len() {
                                lemma_string_rest_progress(s, q);
                            }
                        },
                        Err(_) => {},
                    }
                }
            }
        },
    }
}

pub proof fn lemma_skip_string_progress(s: Seq<u8>, i: int)
    requires
        0 <= i <= s.len(),
    ensures
        skip_string(s, i) matches Ok(v) ==> skip_ws(s, i) < v <= s.len(),
{
    lemma_skip_ws(s, i);
    let j = skip_ws(s, i);
    if byte_at(s, j) == Some(0x22u8) {
        lemma_string_rest_progress(s, j + 1);
    }
}

#[verifier::spinoff_prover]
#[verifier::rlimit(30)]
pub proof fn lemma_value_progress(s: Seq<u8>, i: int, depth: nat)
    requires
        0 <= i <= s.len(),
    ensures
        skip_value(s, i, depth) matches Ok(v) ==> skip_ws(s, i) < v <= s.len(),
    decreases s.len() - i, 1nat,
{
    lemma_skip_ws(s, i);
    let j = skip_ws(s, i);
    match byte_at(s, j) {
        None => {},
        Some(b) => {
            if b == 0x22 {
                lemma_skip_string_progress(s, j);
            } else if b == 0x2d || is_digit(b) {
                if number(s, j) is Ok {
                    lemma_number_ascii(s, j);
                }
            } else if b == 0x5b {
                lemma_array_progress(s, j, depth);
            } else if b == 0x7b {
                lemma_object_progress(s, j, depth);
            }
        },
    }
}

pub proof fn lemma_array_progress(s: Seq<u8>, j: int, depth: nat)
    requires
        0 <= j <= s.len(),
    ensures
        skip_array(s, j, depth) matches Ok(v) ==> j < v <= s.len(),
    decreases s.len() - j, 0nat,
{
    if 0 <= j < s.len() && depth < MAX_DEPTH {
        lemma_skip_ws(s, j + 1);
        lemma_items_progress(s, j + 1, depth + 1);
    }
}

pub proof fn lemma_items_progress(s: Seq<u8>, k: int, depth: nat)
    requires
        0 <= k <= s.len(),
    ensures
        array_items(s, k, depth) matches Ok(v) ==> k < v <= s.len(),
    decreases s.len() - k, 2nat,
{
    lemma_value_progress(s, k, depth);
    match skip_value(s, k, depth) {
        Err(_) => {},
        Ok(v) => {
            if v > k && v <= s.len() {
                lemma_skip_ws(s, v);
                let m = skip_ws(s, v);
                if byte_at(s, m) == Some(0x2cu8) {
                    lemma_items_progress(s, m + 1, depth);
                }
            }
        },
    }
}

pub proof fn lemma_object_progress(s: Seq<u8>, j: int, depth: nat)
    requires
        0 <= j <= s.len(),
    ensures
        skip_object(s, j, depth) matches Ok(v) ==> j < v <= s.len(),
    decreases s.len() - j, 0nat,
{
    if 0 <= j < s.len() && depth < MAX_DEPTH {
        lemma_skip_ws(s, j + 1);
        lemma_members_progress(s, j + 1, depth + 1);
    }
}

pub proof fn lemma_members_progress(s: Seq<u8>, k: int, depth: nat)
    requires
        0 <= k <= s.len(),
    ensures
        object_members(s, k, depth) matches Ok(v) ==> k < v <= s.len(),
    decreases s.len() - k, 2nat,
{
    match skip_string(s, k) {
        Err(_) => {},
        Ok(n) => match expect(s, n, 0x3a) {
            Err(_) => {},
            Ok(c) => {
                if c > k && c <= s.len() {
                    lemma_value_progress(s, c, depth);
                    match skip_value(s, c, depth) {
                        Err(_) => {},
                        Ok(v) => {
                            if v > k && v <= s.len() {
                                lemma_skip_ws(s, v);
                                let m = skip_ws(s, v);
                                if byte_at(s, m) == Some(0x2cu8) {
                                    lemma_members_progress(s, m + 1, depth);
                                }
                            }
                        },
                    }
                }
            },
        },
    }
}

/// Leading whitespace does not change what an array's elements are.
pub proof fn lemma_items_ws(s: Seq<u8>, k: int, depth: nat)
    requires
        0 <= k <= s.len(),
    ensures
        array_items(s, k, depth) == array_items(s, skip_ws(s, k), depth),
{
    lemma_skip_ws(s, k);
    let j = skip_ws(s, k);
    lemma_value_progress(s, k, depth);
    assert(skip_ws(s, j) == j);
    assert(skip_value(s, k, depth) == skip_value(s, j, depth));
}

/// Leading whitespace does not change what an object's members are.
pub proof fn lemma_members_ws(s: Seq<u8>, k: int, depth: nat)
    requires
        0 <= k <= s.len(),
    ensures
        object_members(s, k, depth) == object_members(s, skip_ws(s, k), depth),
{
    lemma_skip_ws(s, k);
    let j = skip_ws(s, k);
    assert(skip_ws(s, j) == j);
    assert(skip_string(s, k) == skip_string(s, j));
    lemma_skip_string_progress(s, k);
    let n = skip_string(s, k);
    match n {
        Ok(n) => {
            lemma_skip_ws(s, n);
            match expect(s, n, 0x3a) {
                Ok(c) => {
                    lemma_skip_ws(s, c);
                    lemma_value_progress(s, c, depth);
                },
                Err(_) => {},
            }
        },
        Err(_) => {},
    }
}

} // verus!

verus! {

/// The start of the next object member from `k`, for a visitor that reads
/// an object one member at a time: either the object closes (`true` and the
/// position after `}`), or the member's decoded name, whether it was borrowed,
/// and the position after its `:`.
pub open spec fn member_start(s: Seq<u8>, k: int, first: bool) -> Result<
    (bool, Seq<char>, bool, int),
    (ErrorCode, int),
> {
    let m = skip_ws(s, k);
    if byte_at(s, m) == Some(0x7du8) {
        Ok((true, Seq::empty(), false, m + 1))
    } else {
        let pre: Result<int, (ErrorCode, int)> = if first {
            Ok(k)
        } else {
            match expect(s, k, 0x2c) {
                Err(e) => Err(e),
                Ok(c) => {
                    let m2 = skip_ws(s, c);
                    if byte_at(s, m2) == Some(0x7du8) {
                        Err((ErrorCode::TrailingCommaInObject, m2))
                    } else {
                        Ok(c)
                    }
                },
            }
        };
        match pre {
            Err(e) => Err(e),
            Ok(c) => match parse_string(s, c) {
                Err(e) => Err(e),
                Ok((name, borrowed, n)) => match expect(s, n, 0x3a) {
                    Err(e) => Err(e),
                    Ok(v) => Ok((false, name, borrowed, v)),
                },
            },
        }
    }
}

/// The remaining members of an object from `k`, each skipped, through the
/// closing `}`.
pub open spec fn object_rest(s: Seq<u8>, k: int, first: bool, depth: nat) -> Scan
    decreases s.len() - k,
{
    if k < 0 || k > s.len() {
        Err((ErrorCode::UnexpectedEnd, k))
    } else {
        match member_start(s, k, first) {
            Err(e) => Err(e),
            Ok((closed, _, _, v0)) => if closed {
                Ok(v0)
            } else {
                match skip_value(s, v0, depth) {
                    Err(e) => Err(e),
                    Ok(v) => if v > k && v <= s.len() {
                        object_rest(s, v, false, depth)
                    } else {
                        Err((ErrorCode::ExpectedValue, k))
                    },
                }
            },
        }
    }
}

} // verus!

verus! {

pub proof fn lemma_escaped_rest_progress(s: Seq<u8>, k: int, acc: Seq<char>)
    requires
        0 <= k <= s.len(),
    ensures
        escaped_rest(s, k, acc) matches Ok((_, e)) ==> k < e <= s.len(),
    decreases s.len() - k,
{
    if 0 <= k < s.len() {
        if s[k] == 0x5c && k + 1 < s.len() {
            let e = s[k + 1];
            match simple_escape(e) {
                Some(c) => {
                    lemma_escaped_rest_progress(s, k + 2, acc.push(c));
                },
                None => {
                    if e == 0x75 {
                        match unicode_escape(s, k + 2) {
                            Ok((scalar, q)) => {
                                if q > k && q <= s.len() {
                                    lemma_escaped_rest_progress(s, q, acc.push(scalar as char));
                                }
                            },
                            Err(_) => {},
                        }
                    }
                },
            }
        } else if s[k] != 0x22 && s[k] >= 0x20 && s[k] != 0x5c {
            let m = run_end(s, k);
            if m > k && m <= s.len() {
                lemma_escaped_rest_progress(s, m, acc + chars_of(s, k, m));
            }
        }
    }
}

pub proof fn lemma_parse_string_progress(s: Seq<u8>, i: int)
    requires
        0 <= i <= s.len(),
    ensures
        parse_string(s, i) matches Ok((_, _, n)) ==> skip_ws(s, i) < n <= s.len(),
{
    lemma_skip_ws(s, i);
    let j = skip_ws(s, i);
    if byte_at(s, j) == Some(0x22u8) && valid_utf8(s) {
        lemma_next_special_props(s, j + 1);
        match next_special(s, j + 1) {
            Some(p) => {
                if s[p] == 0x5c {
                    lemma_escaped_rest_progress(s, p, chars_of(s, j + 1, p));
                }
            },
            None => {},
        }
    }
}

/// One step of `object_rest`: read a member start, skip its value, go on.
pub proof fn lemma_object_rest_unfold(s: Seq<u8>, k: int, first: bool, depth: nat)
    requires
        0 <= k <= s.len(),
    ensures
        member_start(s, k, first) matches Ok((closed, _, _, v0)) ==> (!closed ==> k < v0
            <= s.len()),
        object_rest(s, k, first, depth) == match member_start(s, k, first) {
            Err(e) => Err(e),
            Ok((closed, _, _, v0)) => if closed {
                Ok(v0)
            } else {
                match skip_value(s, v0, depth) {
                    Err(e) => Err(e),
                    Ok(v) => object_rest(s, v, false, depth),
                }
            },
        },
{
    lemma_skip_ws(s, k);
    let m = skip_ws(s, k);
    if byte_at(s, m) != Some(0x7du8) {
        let pre: Result<int, (ErrorCode, int)> = if first {
            Ok(k)
        } else {
            match expect(s, k, 0x2c) {
                Err(e) => Err(e),
                Ok(c) => {
                    lemma_skip_ws(s, c);
                    let m2 = skip_ws(s, c);
                    if byte_at(s, m2) == Some(0x7du8) {
                        Err((ErrorCode::TrailingCommaInObject, m2))
                    } else {
                        Ok(c)
                    }
                },
            }
        };
        match pre {
            Ok(c) => {
                lemma_skip_ws(s, c);
                lemma_parse_string_progress(s, c);
                match parse_string(s, c) {
                    Ok((_, _, n)) => {
                        lemma_skip_ws(s, n);
                        match expect(s, n, 0x3a) {
                            Ok(v0) => {
                                lemma_value_progress(s, v0, depth);
                                lemma_skip_ws(s, v0);
                            },
                            Err(_) => {},
                        }
                    },
                    Err(_) => {},
                }
            },
            Err(_) => {},
        }
    }
}

} // verus!

verus! {

/// A string body scanned from `k` and from the first special byte at or
/// after `k` ends alike.
pub proof fn lemma_string_rest_from_special(s: Seq<u8>, k: int, p: int)
    requires
        0 <= k <= s.len(),
        next_special(s, k) == Some(p),
    ensures
        string_rest(s, k) is Ok <==> string_rest(s, p) is Ok,
        string_rest(s, k) is Ok ==> string_rest(s, k) == string_rest(s, p),
{
    lemma_next_special_props(s, k);
    lemma_next_special_props(s, p);
    assert(next_special(s, p) == Some(p));
}

/// Scanning a string body without decoding and decoding it succeed together
/// and end at the same byte.
#[verifier::rlimit(80)]
#[verifier::spinoff_prover]
pub proof fn lemma_string_rest_decodes(s: Seq<u8>, k: int, acc: Seq<char>)
    requires
        0 <= k <= s.len(),
    ensures
        string_rest(s, k) is Ok <==> escaped_rest(s, k, acc) is Ok,
        string_rest(s, k) is Ok ==> string_rest(s, k)->Ok_0 == escaped_rest(s, k, acc)->Ok_0.1,
    decreases s.len() - k,
{
    if k < s.len() {
        let b = s[k];
        if is_string_special(b) {
            assert(next_special(s, k) == Some(k));
            if b == 0x22 {
                assert(string_rest(s, k) == Ok::<int, (ErrorCode, int)>(k + 1));
            } else if b != 0x5c {
                assert(string_rest(s, k) is Err);
                assert(escaped_rest(s, k, acc) is Err);
            }
            if b == 0x5c && k + 1 < s.len() {
                let e = s[k + 1];
                match simple_escape(e) {
                    Some(c) => {
                        lemma_string_rest_decodes(s, k + 2, acc.push(c));
                    },
                    None => {
                        if e == 0x75 {
                            match unicode_escape(s, k + 2) {
                                Ok((scalar, q)) => {
                                    if q > k && q <= s.len() {
                                        lemma_string_rest_decodes(s, q, acc.push(scalar as char));
                                    }
                                },
                                Err(_) => {},
                            }
                        }
                    },
                }
            }
        } else {
            lemma_next_special_props(s, k);
            assert(next_special(s, k) == next_special(s, k + 1));
            match next_special(s, k) {
                Some(p) => {
                    assert(run_end(s, k) == p);
                    lemma_string_rest_from_special(s, k, p);
                    lemma_string_rest_decodes(s, p, acc + chars_of(s, k, p));
                },
                None => {
                    assert(run_end(s, k) == s.len());
                    assert(escaped_rest(s, s.len() as int, acc + chars_of(s, k, s.len() as int)) is Err);
                    assert(string_rest(s, k) is Err);
                    assert(escaped_rest(s, k, acc) is Err);
                },
            }
        }
    } else {
        assert(next_special(s, k) is None);
        assert(string_rest(s, k) is Err);
        assert(escaped_rest(s, k, acc) is Err);
    }
}

} // verus!

verus! {

/// Every byte of `t` is an ASCII digit.
pub open spec fn all_digits(t: Seq<u8>) -> bool {
    forall|k: int| 0 <= k < t.len() ==> is_digit(#[trigger] t[k])
}

/// RFC 8259 `int`: a lone zero, or a nonzero digit followed by digits.
pub open spec fn rfc_int(t: Seq<u8>) -> bool {
    ||| t =~= seq![0x30u8]
    ||| t.len() >= 1 && 0x31 <= t[0] <= 0x39 && all_digits(t)
}

/// RFC 8259 `frac`, which may be absent: a point followed by one or more digits.
pub open spec fn rfc_frac(t: Seq<u8>) -> bool {
    ||| t.len() == 0
    ||| t.len() >= 2 && t[0] == 0x2e && all_digits(t.subrange(1, t.len() as int))
}

/// RFC 8259 `exp`, which may be absent: `e` or `E`, an optional sign, and one
/// or more digits.
pub open spec fn rfc_exp(t: Seq<u8>) -> bool {
    ||| t.len() == 0
    ||| t.len() >= 2 && (t[0] == 0x65 || t[0] == 0x45) && all_digits(t.subrange(1, t.len() as int))
    ||| t.len() >= 3 && (t[0] == 0x65 || t[0] == 0x45) && (t[1] == 0x2b || t[1] == 0x2d)
        && all_digits(t.subrange(2, t.len() as int))
}

/// RFC 8259 `number`: an optional minus, then `int`, `frac` and `exp`.
pub open spec fn rfc_number(t: Seq<u8>) -> bool {
    exists|a: int, b: int, c: int|
        #![trigger t.subrange(a, b), t.subrange(b, c)]
        0 <= a <= 1 && a <= b <= c <= t.len() && (a == 1 ==> t[0] == 0x2d) && rfc_int(
            t.subrange(a, b),
        ) && rfc_frac(t.subrange(b, c)) && rfc_exp(t.subrange(c, t.len() as int))
}

} // verus!

verus! {

/// The digits from `from` up to the first non-digit.
pub proof fn lemma_digit_run(s: Seq<u8>, from: int)
    requires
        0 <= from <= s.len(),
    ensures
        all_digits(s.subrange(from, digits_end(s, from))),
        from <= digits_end(s, from) <= s.len(),
        !digit_at(s, digits_end(s, from)),
{
    lemma_digits_end(s, from);
    let e = digits_end(s, from);
    assert forall|k: int| 0 <= k < e - from implies is_digit(#[trigger] s.subrange(from, e)[k]) by {
        assert(s.subrange(from, e)[k] == s[from + k]);
    }
}

/// The integer part that the number grammar reads at `k`.
pub proof fn lemma_rfc_int_part(s: Seq<u8>, k: int)
    requires
        0 <= k <= s.len(),
        byte_at(s, k) == Some(0x30u8) ==> !digit_at(s, k + 1),
        byte_at(s, k) != Some(0x30u8) ==> digit_at(s, k),
    ensures
        ({
            let k1 = if byte_at(s, k) == Some(0x30u8) {
                k + 1
            } else {
                digits_end(s, k)
            };
            &&& k < k1 <= s.len()
            &&& rfc_int(s.subrange(k, k1))
            &&& !digit_at(s, k1)
        }),
{
    if byte_at(s, k) != Some(0x30u8) {
        lemma_digit_run(s, k);
        lemma_digits_end(s, k);
        assert(digits_end(s, k) > k);
    }
}

/// The fraction that the number grammar reads at `k1`, if any.
pub proof fn lemma_rfc_frac_part(s: Seq<u8>, k1: int)
    requires
        0 <= k1 <= s.len(),
        byte_at(s, k1) == Some(0x2eu8) ==> digits_end(s, k1 + 1) != k1 + 1,
    ensures
        ({
            let k2 = if byte_at(s, k1) == Some(0x2eu8) {
                digits_end(s, k1 + 1)
            } else {
                k1
            };
            &&& k1 <= k2 <= s.len()
            &&& rfc_frac(s.subrange(k1, k2))
            &&& byte_at(s, k1) == Some(0x2eu8) ==> !digit_at(s, k2)
        }),
{
    if byte_at(s, k1) == Some(0x2eu8) {
        lemma_digit_run(s, k1 + 1);
        let k2 = digits_end(s, k1 + 1);
        assert(s.subrange(k1, k2).subrange(1, k2 - k1) =~= s.subrange(k1 + 1, k2));
    }
}

/// The exponent that the number grammar reads at `k2`, when there is one.
pub proof fn lemma_rfc_exp_part(s: Seq<u8>, k2: int, k3: int)
    requires
        0 <= k2 < s.len(),
        s[k2] == 0x65 || s[k2] == 0x45,
        k3 == if byte_at(s, k2 + 1) == Some(0x2bu8) || byte_at(s, k2 + 1) == Some(0x2du8) {
            k2 + 2
        } else {
            k2 + 1
        },
        digits_end(s, k3) != k3,
    ensures
        k3 < digits_end(s, k3) <= s.len(),
        rfc_exp(s.subrange(k2, digits_end(s, k3))),
        !digit_at(s, digits_end(s, k3)),
{
    lemma_digit_run(s, k3);
    let x = digits_end(s, k3);
    let e = s.subrange(k2, x);
    assert(e.subrange(k3 - k2, e.len() as int) =~= s.subrange(k3, x));
}

} // verus!

verus! {

/// Where reading stands after `n` members of an object have been read from
/// `k`, each value skipped: the position and whether no member has been read
/// yet; `None` when one of them is missing or malformed.
pub open spec fn member_walk(s: Seq<u8>, k: int, first: bool, depth: nat, n: nat) -> Option<
    (int, bool),
>
    decreases n,
{
    if n == 0 {
        Some((k, first))
    } else {
        match member_walk(s, k, first, depth, (n - 1) as nat) {
            None => None,
            Some((p, f)) => match member_start(s, p, f) {
                Ok((false, _, _, v0)) => match skip_value(s, v0, depth) {
                    Ok(v) => Some((v, false)),
                    Err(_) => None,
                },
                _ => None,
            },
        }
    }
}

/// The decoded names of an object's members from `k` up to its closing `}`.
pub open spec fn member_names(s: Seq<u8>, k: int, first: bool, depth: nat) -> Seq<Seq<char>>
    decreases s.len() - k,
{
    if k < 0 || k > s.len() {
        Seq::empty()
    } else {
        match member_start(s, k, first) {
            Ok((false, name, _, v0)) => match skip_value(s, v0, depth) {
                Ok(v) => if v > k && v <= s.len() {
                    seq![name] + member_names(s, v, false, depth)
                } else {
                    Seq::empty()
                },
                Err(_) => Seq::empty(),
            },
            _ => Seq::empty(),
        }
    }
}

/// After a first member read from `k` to `v`, the walk from `k` is the walk
/// from `v`, one member later.
pub proof fn lemma_member_walk_shift(s: Seq<u8>, k: int, first: bool, depth: nat, v: int, n: nat)
    requires
        member_walk(s, k, first, depth, 1) == Some((v, false)),
    ensures
        member_walk(s, k, first, depth, n + 1) == member_walk(s, v, false, depth, n),
    decreases n,
{
    if n > 0 {
        lemma_member_walk_shift(s, k, first, depth, v, (n - 1) as nat);
        assert(member_walk(s, k, first, depth, n + 1) == match member_walk(
            s,
            k,
            first,
            depth,
            n,
        ) {
            None => None,
            Some((p, f)) => match member_start(s, p, f) {
                Ok((false, _, _, v0)) => match skip_value(s, v0, depth) {
                    Ok(w) => Some((w, false)),
                    Err(_) => None,
                },
                _ => None,
            },
        });
    }
}

} // verus!
