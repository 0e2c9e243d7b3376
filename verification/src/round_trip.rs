//! What the parser reads back from what the serializer writes.
use crate::grammar::{
    byte_at, digit_at, digits_end, digits_value, escaped_rest, hex_digit, hex_quad, integer_digits,
    is_digit, is_ws, lemma_ascii_valid, lemma_digits_end, lemma_digits_value_grows,
    lemma_next_special_props, lemma_skip_ws, lemma_u64_digits, next_special, parse_string,
    run_end, chars_of, signed_integer, simple_escape, skip_ws, unicode_escape, unsigned_integer,
    wide_integer, wide_unsigned, number, rfc_number, rfc_int, rfc_frac, rfc_exp, all_digits,
};
use crate::laws::{law_number_is_rfc, law_rfc_number_is_accepted, is_float_mark};
use crate::ser::{decimal_digits, escape_byte, escape_bytes, hex_char, quoted, signed_decimal};
use crate::swar::is_string_special;
use vstd::prelude::*;
use vstd::utf8::*;

verus! {

broadcast use vstd::utf8::encode_utf8_decode_utf8, vstd::utf8::encode_utf8_valid_utf8;

/// A character that a JSON string cannot hold as is.
pub open spec fn special_char(c: char) -> bool {
    c == '"' || c == '\\' || (c as u32) < 0x20
}

/// The bytes written for character `c` inside a string.
pub open spec fn char_escape(c: char) -> Seq<u8> {
    if special_char(c) {
        escape_byte((c as u32) as u8)
    } else {
        encode_scalar(c as u32)
    }
}

/// The escaped body written for the characters `u`.
pub open spec fn escaped_chars(u: Seq<char>) -> Seq<u8>
    decreases u.len(),
{
    if u.len() == 0 {
        Seq::empty()
    } else {
        char_escape(u[0]) + escaped_chars(u.drop_first())
    }
}

/// How many characters at the start of `u` need no escape.
pub open spec fn run_len(u: Seq<char>) -> nat
    decreases u.len(),
{
    if u.len() == 0 || special_char(u[0]) {
        0
    } else {
        1 + run_len(u.drop_first())
    }
}

proof fn lemma_run_len(u: Seq<char>)
    ensures
        run_len(u) <= u.len(),
        forall|i: int| 0 <= i < run_len(u) ==> !special_char(#[trigger] u[i]),
        run_len(u) < u.len() ==> special_char(u[run_len(u) as int]),
    decreases u.len(),
{
    if u.len() > 0 && !special_char(u[0]) {
        lemma_run_len(u.drop_first());
        assert forall|i: int| 0 <= i < run_len(u) implies !special_char(#[trigger] u[i]) by {
            if i > 0 {
                assert(u[i] == u.drop_first()[i - 1]);
            }
        }
    }
}

proof fn lemma_scalar_bytes(c: char)
    ensures
        (c as u32) < 0x80 ==> encode_scalar(c as u32) == seq![(c as u32) as u8],
        (c as u32) < 0x80 ==> ((c as u32) as u8) as u32 == c as u32,
        (c as u32) >= 0x80 ==> forall|q: int|
            0 <= q < encode_scalar(c as u32).len() ==> #[trigger] encode_scalar(c as u32)[q]
                >= 0x80,
        encode_scalar(c as u32).len() >= 1,
{
    let v = c as u32;
    char_is_scalar(c);
    if v < 0x80 {
        assert((v & 0x7F) as u8 == v as u8) by (bit_vector)
            requires
                v < 0x80,
        ;
        assert((v as u8) as u32 == v) by (bit_vector)
            requires
                v < 0x80,
        ;
        assert(encode_scalar(v) =~= seq![v as u8]);
    } else {
        assert(0x80 <= (0x80 | (v & 0x3F) as u8)) by (bit_vector);
        assert(0x80 <= (0x80 | ((v >> 6) & 0x3F) as u8)) by (bit_vector);
        assert(0x80 <= (0x80 | ((v >> 12) & 0x3F) as u8)) by (bit_vector);
        assert(0x80 <= (0xC0 | ((v >> 6) & 0x1F) as u8)) by (bit_vector);
        assert(0x80 <= (0xE0 | ((v >> 12) & 0x0F) as u8)) by (bit_vector);
        assert(0x80 <= (0xF0 | ((v >> 18) & 0x7) as u8)) by (bit_vector);
    }
}

proof fn lemma_escape_concat(x: Seq<u8>, y: Seq<u8>)
    ensures
        escape_bytes(x + y) == escape_bytes(x) + escape_bytes(y),
    decreases y.len(),
{
    if y.len() == 0 {
        assert(x + y =~= x);
        assert(escape_bytes(x) + escape_bytes(y) =~= escape_bytes(x));
    } else {
        assert((x + y).drop_last() =~= x + y.drop_last());
        assert((x + y).last() == y.last());
        lemma_escape_concat(x, y.drop_last());
        assert(escape_bytes(x + y) =~= escape_bytes(x) + escape_bytes(y));
    }
}

proof fn lemma_escape_plain(x: Seq<u8>)
    requires
        forall|q: int| 0 <= q < x.len() ==> !is_string_special(#[trigger] x[q]),
    ensures
        escape_bytes(x) == x,
    decreases x.len(),
{
    if x.len() > 0 {
        lemma_escape_plain(x.drop_last());
        let b = x.last();
        assert(!is_string_special(x[x.len() - 1]));
        assert(escape_byte(b) =~= seq![b]);
        assert(escape_bytes(x) =~= x);
    }
}

/// The bytes of a character that needs no escape are themselves no special byte.
proof fn lemma_plain_char_bytes(c: char)
    requires
        !special_char(c),
    ensures
        forall|q: int|
            0 <= q < encode_scalar(c as u32).len() ==> !is_string_special(
                #[trigger] encode_scalar(c as u32)[q],
            ),
{
    lemma_scalar_bytes(c);
    if (c as u32) < 0x80 {
        let b = (c as u32) as u8;
        assert(b as u32 == c as u32);
        assert(b != 0x22) by {
            if b == 0x22 {
                assert(c as u32 == 0x22);
                assert(c == '"');
            }
        }
        assert(b != 0x5c) by {
            if b == 0x5c {
                assert(c as u32 == 0x5c);
                assert(c == '\\');
            }
        }
    }
}

proof fn lemma_char_escape(c: char)
    ensures
        escape_bytes(encode_scalar(c as u32)) == char_escape(c),
{
    lemma_scalar_bytes(c);
    if special_char(c) {
        assert((c as u32) < 0x80);
        let b = (c as u32) as u8;
        assert(seq![b].drop_last() =~= Seq::<u8>::empty());
        assert(seq![b].last() == b);
        assert(escape_bytes(Seq::<u8>::empty()) =~= Seq::<u8>::empty());
        assert(escape_bytes(seq![b]) =~= escape_byte(b));
    } else {
        lemma_plain_char_bytes(c);
        lemma_escape_plain(encode_scalar(c as u32));
    }
}

/// Escaping the encoded characters is the same as escaping each character.
pub proof fn lemma_escape_encode(u: Seq<char>)
    ensures
        escape_bytes(encode_utf8(u)) == escaped_chars(u),
    decreases u.len(),
{
    if u.len() == 0 {
        assert(encode_utf8(u) =~= Seq::<u8>::empty());
    } else {
        lemma_escape_concat(encode_scalar(u[0] as u32), encode_utf8(u.drop_first()));
        lemma_char_escape(u[0]);
        lemma_escape_encode(u.drop_first());
    }
}

proof fn lemma_escaped_concat(a: Seq<char>, b: Seq<char>)
    ensures
        escaped_chars(a + b) == escaped_chars(a) + escaped_chars(b),
    decreases a.len(),
{
    if a.len() == 0 {
        assert(a + b =~= b);
        assert(escaped_chars(a) + escaped_chars(b) =~= escaped_chars(b));
    } else {
        assert((a + b).drop_first() =~= a.drop_first() + b);
        assert((a + b)[0] == a[0]);
        lemma_escaped_concat(a.drop_first(), b);
        assert(escaped_chars(a + b) =~= escaped_chars(a) + escaped_chars(b));
    }
}

/// Characters that need no escape are written as their UTF-8 encoding, none
/// of whose bytes is special.
proof fn lemma_plain_run(r: Seq<char>)
    requires
        forall|i: int| 0 <= i < r.len() ==> !special_char(#[trigger] r[i]),
    ensures
        escaped_chars(r) == encode_utf8(r),
        forall|q: int| 0 <= q < encode_utf8(r).len() ==> !is_string_special(
            #[trigger] encode_utf8(r)[q],
        ),
    decreases r.len(),
{
    if r.len() > 0 {
        assert(!special_char(r[0]));
        assert forall|i: int| 0 <= i < r.drop_first().len() implies !special_char(
            #[trigger] r.drop_first()[i],
        ) by {
            assert(r.drop_first()[i] == r[i + 1]);
        }
        lemma_plain_run(r.drop_first());
        lemma_plain_char_bytes(r[0]);
        let head = encode_scalar(r[0] as u32);
        let tail = encode_utf8(r.drop_first());
        assert forall|q: int| 0 <= q < encode_utf8(r).len() implies !is_string_special(
            #[trigger] encode_utf8(r)[q],
        ) by {
            if q < head.len() {
                assert(encode_utf8(r)[q] == head[q]);
            } else {
                assert(encode_utf8(r)[q] == tail[q - head.len()]);
            }
        }
    }
}

/// The escape of a special character is a backslash and ASCII bytes.
proof fn lemma_special_escape(c: char)
    requires
        special_char(c),
    ensures
        char_escape(c).len() >= 2,
        char_escape(c)[0] == 0x5c,
        forall|q: int| 0 <= q < char_escape(c).len() ==> #[trigger] char_escape(c)[q] < 0x80,
{
    let b = (c as u32) as u8;
    assert(b / 16 < 16);
    assert(b % 16 < 16);
}

/// The escaped body of any characters is well-formed UTF-8.
pub proof fn lemma_escaped_valid(u: Seq<char>)
    ensures
        valid_utf8(escaped_chars(u)),
    decreases u.len(),
{
    if u.len() == 0 {
        assert(escaped_chars(u) =~= Seq::<u8>::empty());
        lemma_ascii_valid(escaped_chars(u));
    } else {
        let c = u[0];
        if special_char(c) {
            lemma_special_escape(c);
            lemma_ascii_valid(char_escape(c));
        } else {
            assert(encode_utf8(seq![c]) =~= encode_scalar(c as u32)) by {
                assert(seq![c].drop_first() =~= Seq::<char>::empty());
                assert(seq![c][0] == c);
                assert(encode_utf8(Seq::<char>::empty()) =~= Seq::<u8>::empty());
            }
            encode_utf8_valid_utf8(seq![c]);
        }
        lemma_escaped_valid(u.drop_first());
        valid_utf8_concat(char_escape(c), escaped_chars(u.drop_first()));
    }
}

pub proof fn lemma_next_special_at(s: Seq<u8>, k: int, p: int)
    requires
        0 <= k <= p < s.len(),
        forall|j: int| k <= j < p ==> !is_string_special(#[trigger] s[j]),
        is_string_special(s[p]),
    ensures
        next_special(s, k) == Some(p),
{
    lemma_next_special_props(s, k);
    match next_special(s, k) {
        Some(q) => {
            if q < p {
                assert(!is_string_special(s[q]));
            } else if q > p {
                assert(!is_string_special(s[p]));
            }
        },
        None => {
            assert(!is_string_special(s[p]));
        },
    }
}

/// The hexadecimal digit written for `n` reads back as `n`.
proof fn lemma_hex_char(n: u8)
    requires
        n < 16,
    ensures
        hex_digit(hex_char(n)) == Some(n),
{
}

/// One escaped character at `k` reads back as that character.
proof fn lemma_escape_step(s: Seq<u8>, k: int, acc: Seq<char>, c: char)
    requires
        special_char(c),
        0 <= k,
        k + char_escape(c).len() <= s.len(),
        forall|q: int| 0 <= q < char_escape(c).len() ==> s[k + q] == #[trigger] char_escape(c)[q],
    ensures
        escaped_rest(s, k, acc) == escaped_rest(s, k + char_escape(c).len(), acc.push(c)),
{
    lemma_special_escape(c);
    let esc = char_escape(c);
    let n = esc.len() as int;
    let b = (c as u32) as u8;
    assert((b as u32) == (c as u32));
    assert(s[k] == esc[0]);
    assert(s[k + 1] == esc[1]);
    if b == 0x22 {
        assert(c == '"');
        assert(simple_escape(s[k + 1]) == Some(c));
    } else if b == 0x5c {
        assert(c == '\\');
        assert(simple_escape(s[k + 1]) == Some(c));
    } else if b == 0x08 {
        assert(c == '\u{0008}');
        assert(simple_escape(s[k + 1]) == Some(c));
    } else if b == 0x09 {
        assert(c == '\t');
        assert(simple_escape(s[k + 1]) == Some(c));
    } else if b == 0x0a {
        assert(c == '\n');
        assert(simple_escape(s[k + 1]) == Some(c));
    } else if b == 0x0c {
        assert(c == '\u{000c}');
        assert(simple_escape(s[k + 1]) == Some(c));
    } else if b == 0x0d {
        assert(c == '\r');
        assert(simple_escape(s[k + 1]) == Some(c));
    } else {
        assert(n == 6);
        assert(s[k + 1] == 0x75);
        assert(simple_escape(s[k + 1]) is None);
        lemma_hex_char(b / 16);
        lemma_hex_char(b % 16);
        assert(s[k + 2] == esc[2]);
        assert(s[k + 3] == esc[3]);
        assert(s[k + 4] == esc[4]);
        assert(s[k + 5] == esc[5]);
        assert(hex_digit(s[k + 2]) == Some(0u8));
        assert(hex_digit(s[k + 3]) == Some(0u8));
        assert(hex_digit(s[k + 4]) == Some(b / 16));
        assert(hex_digit(s[k + 5]) == Some(b % 16));
        let code = (((b / 16) as int) * 16 + ((b % 16) as int)) as u16;
        assert(code == b as u16);
        assert(hex_quad(s, k + 2) == Ok::<(u16, int), (crate::error::ErrorCode, int)>(
            (code, k + 6),
        ));
        assert(unicode_escape(s, k + 2) == Ok::<(u32, int), (crate::error::ErrorCode, int)>(
            (code as u32, k + 6),
        ));
        char_u32_cast(c, code as u32);
    }
}

/// A run of characters that need no escape at `k` is read in one step.
proof fn lemma_run_step(s: Seq<u8>, k: int, acc: Seq<char>, r: Seq<char>)
    requires
        r.len() > 0,
        forall|i: int| 0 <= i < r.len() ==> !special_char(#[trigger] r[i]),
        0 <= k,
        k + encode_utf8(r).len() < s.len(),
        forall|q: int| 0 <= q < encode_utf8(r).len() ==> s[k + q] == #[trigger] encode_utf8(r)[q],
        is_string_special(s[k + encode_utf8(r).len()]),
    ensures
        escaped_rest(s, k, acc) == escaped_rest(s, k + encode_utf8(r).len(), acc + r),
{
    let er = encode_utf8(r);
    let p = k + er.len();
    lemma_plain_run(r);
    lemma_scalar_bytes(r[0]);
    assert(er.len() >= 1);
    assert forall|j: int| k <= j < p implies !is_string_special(#[trigger] s[j]) by {
        assert(s[k + (j - k)] == er[j - k]);
    }
    lemma_next_special_at(s, k, p);
    assert(run_end(s, k) == p);
    assert(s.subrange(k, p) =~= er) by {
        assert forall|q: int| 0 <= q < er.len() implies s.subrange(k, p)[q] == er[q] by {
            assert(s[k + q] == er[q]);
        }
    }
    assert(chars_of(s, k, p) == r);
    assert(s[k] == er[0]);
    assert(!is_string_special(s[k]));
}

/// `s` holds `bytes` from position `k` on.
pub open spec fn holds_at(s: Seq<u8>, k: int, bytes: Seq<u8>) -> bool {
    &&& 0 <= k
    &&& k + bytes.len() <= s.len()
    &&& forall|q: int| 0 <= q < bytes.len() ==> s[k + q] == #[trigger] bytes[q]
}

/// Reading past an escaped special character.
proof fn lemma_reads_special(s: Seq<u8>, k: int, acc: Seq<char>, u: Seq<char>) -> (next: (
    int,
    Seq<char>,
    Seq<char>,
))
    requires
        u.len() > 0,
        special_char(u[0]),
        holds_at(s, k, escaped_chars(u)),
    ensures
        next.2.len() < u.len(),
        escaped_rest(s, k, acc) == escaped_rest(s, next.0, next.1),
        next.1 + next.2 == acc + u,
        next.0 + escaped_chars(next.2).len() == k + escaped_chars(u).len(),
        holds_at(s, next.0, escaped_chars(next.2)),
{
    let c = u[0];
    let rest = u.drop_first();
    let esc = char_escape(c);
    let e = escaped_chars(u);
    lemma_special_escape(c);
    assert(e =~= esc + escaped_chars(rest));
    let n = esc.len() as int;
    assert forall|q: int| 0 <= q < esc.len() implies s[k + q] == #[trigger] esc[q] by {
        assert(s[k + q] == e[q]);
    }
    assert forall|q: int| 0 <= q < escaped_chars(rest).len() implies s[k + n + q]
        == #[trigger] escaped_chars(rest)[q] by {
        assert(s[k + (n + q)] == e[n + q]);
    }
    lemma_escape_step(s, k, acc, c);
    assert(acc.push(c) + rest =~= acc + u);
    (k + n, acc.push(c), rest)
}

/// Reading past a run of characters that need no escape.
proof fn lemma_reads_run(s: Seq<u8>, k: int, acc: Seq<char>, u: Seq<char>) -> (next: (
    int,
    Seq<char>,
    Seq<char>,
))
    requires
        u.len() > 0,
        !special_char(u[0]),
        holds_at(s, k, escaped_chars(u)),
        k + escaped_chars(u).len() < s.len(),
        s[k + escaped_chars(u).len()] == 0x22,
    ensures
        next.2.len() < u.len(),
        escaped_rest(s, k, acc) == escaped_rest(s, next.0, next.1),
        next.1 + next.2 == acc + u,
        next.0 + escaped_chars(next.2).len() == k + escaped_chars(u).len(),
        holds_at(s, next.0, escaped_chars(next.2)),
{
    let e = escaped_chars(u);
    let m = run_len(u);
    lemma_run_len(u);
    let r = u.take(m as int);
    let w = u.skip(m as int);
    assert(u =~= r + w);
    assert forall|i: int| 0 <= i < r.len() implies !special_char(#[trigger] r[i]) by {
        assert(r[i] == u[i]);
    }
    lemma_plain_run(r);
    lemma_escaped_concat(r, w);
    let er = encode_utf8(r);
    let ew = escaped_chars(w);
    assert(e == er + ew);
    let p = k + er.len();
    assert forall|q: int| 0 <= q < er.len() implies s[k + q] == #[trigger] er[q] by {
        assert(s[k + q] == e[q]);
    }
    if w.len() == 0 {
        assert(ew =~= Seq::<u8>::empty());
    } else {
        assert(special_char(w[0]));
        lemma_special_escape(w[0]);
        assert(s[k + er.len()] == e[er.len() as int]);
    }
    assert(is_string_special(s[p]));
    lemma_run_step(s, k, acc, r);
    assert forall|q: int| 0 <= q < ew.len() implies s[p + q] == #[trigger] ew[q] by {
        assert(s[k + (er.len() + q)] == e[er.len() + q]);
    }
    assert(acc + r + w =~= acc + u);
    (p, acc + r, w)
}

/// Reading an escaped body from `k` gives back its characters: with `acc`
/// read before it, the parser returns `acc + u` and stands after the closing
/// quote.
pub proof fn lemma_escaped_rest_reads(s: Seq<u8>, k: int, acc: Seq<char>, u: Seq<char>)
    requires
        holds_at(s, k, escaped_chars(u)),
        k + escaped_chars(u).len() < s.len(),
        s[k + escaped_chars(u).len()] == 0x22,
    ensures
        escaped_rest(s, k, acc) == Ok::<(Seq<char>, int), (crate::error::ErrorCode, int)>(
            (acc + u, k + escaped_chars(u).len() + 1),
        ),
    decreases u.len(),
{
    if u.len() == 0 {
        assert(acc + u =~= acc);
    } else {
        let next = if special_char(u[0]) {
            lemma_reads_special(s, k, acc, u)
        } else {
            lemma_reads_run(s, k, acc, u)
        };
        lemma_escaped_rest_reads(s, next.0, next.1, next.2);
    }
}

/// A string written by the serializer, found at position `i` of well-formed
/// input, reads back as the same characters; it is borrowed exactly when no
/// character needed an escape, and the parser stands right after it.
pub proof fn lemma_string_reads_back(s: Seq<u8>, i: int, text: Seq<char>)
    requires
        valid_utf8(s),
        0 <= i,
        i + quoted(encode_utf8(text)).len() <= s.len(),
        s.subrange(i, i + quoted(encode_utf8(text)).len()) == quoted(encode_utf8(text)),
    ensures
        parse_string(s, i) == Ok::<(Seq<char>, bool, int), (crate::error::ErrorCode, int)>(
            (
                text,
                run_len(text) == text.len(),
                i + quoted(encode_utf8(text)).len(),
            ),
        ),
{
    let q = quoted(encode_utf8(text));
    lemma_escape_encode(text);
    let e = escaped_chars(text);
    assert(q =~= seq![0x22u8] + e + seq![0x22u8]);
    assert(s[i] == q[0]);
    assert(skip_ws(s, i) == i);
    let start = i + 1;
    assert forall|j: int| 0 <= j < e.len() implies s[start + j] == #[trigger] e[j] by {
        assert(s.subrange(i, i + q.len())[1 + j] == q[1 + j]);
    }
    assert(s[start + e.len()] == 0x22) by {
        assert(s.subrange(i, i + q.len())[1 + e.len() as int] == q[1 + e.len() as int]);
    }
    let m = run_len(text);
    lemma_run_len(text);
    let r = text.take(m as int);
    let w = text.skip(m as int);
    assert(text =~= r + w);
    assert forall|k: int| 0 <= k < r.len() implies !special_char(#[trigger] r[k]) by {
        assert(r[k] == text[k]);
    }
    lemma_plain_run(r);
    lemma_escaped_concat(r, w);
    let er = encode_utf8(r);
    let ew = escaped_chars(w);
    let p = start + er.len();
    assert forall|j: int| start <= j < p implies !is_string_special(#[trigger] s[j]) by {
        assert(s[start + (j - start)] == e[j - start]);
        assert(e[j - start] == er[j - start]);
    }
    assert(s.subrange(start, p) =~= er) by {
        assert forall|k: int| 0 <= k < er.len() implies s.subrange(start, p)[k] == er[k] by {
            assert(s[start + k] == e[k]);
        }
    }
    if w.len() == 0 {
        assert(ew =~= Seq::<u8>::empty());
        assert(e =~= er);
        lemma_next_special_at(s, start, p);
        assert(r =~= text);
    } else {
        assert(special_char(w[0]));
        lemma_special_escape(w[0]);
        assert(s[p] == e[er.len() as int]);
        assert(s[p] == 0x5c);
        lemma_next_special_at(s, start, p);
        assert forall|k: int| 0 <= k < ew.len() implies s[p + k] == #[trigger] ew[k] by {
            assert(s[start + (er.len() + k)] == e[er.len() + k]);
        }
        assert(s[p + ew.len()] == 0x22);
        lemma_escaped_rest_reads(s, p, r, w);
        assert(w.len() > 0 ==> m < text.len());
    }
}

/// A string written on its own reads back as the same characters.
pub proof fn lemma_string_round_trip(text: Seq<char>)
    ensures
        parse_string(quoted(encode_utf8(text)), 0) == Ok::<
            (Seq<char>, bool, int),
            (crate::error::ErrorCode, int),
        >((text, run_len(text) == text.len(), quoted(encode_utf8(text)).len() as int)),
{
    let q = quoted(encode_utf8(text));
    lemma_escape_encode(text);
    lemma_escaped_valid(text);
    let e = escaped_chars(text);
    assert(q =~= seq![0x22u8] + e + seq![0x22u8]);
    lemma_ascii_valid(seq![0x22u8]);
    valid_utf8_concat(seq![0x22u8], e);
    valid_utf8_concat(seq![0x22u8] + e, seq![0x22u8]);
    assert(q.subrange(0, q.len() as int) =~= q);
    lemma_string_reads_back(q, 0, text);
}


proof fn lemma_digits_value_shift(s: Seq<u8>, d: Seq<u8>, k: int, to: int)
    requires
        0 <= k <= to,
        to - k <= d.len(),
        forall|j: int| k <= j < to ==> s[j] == #[trigger] d[j - k],
    ensures
        digits_value(s, k, to) == digits_value(d, 0, to - k),
    decreases to - k,
{
    if to > k {
        lemma_digits_value_shift(s, d, k, to - 1);
        assert(s[to - 1] == d[to - 1 - k]);
    }
}

/// The decimal digits of `n` are digits, read back as `n`, and start with a
/// zero only for zero itself.
pub proof fn lemma_decimal_digits(n: nat)
    ensures
        decimal_digits(n).len() >= 1,
        forall|q: int| 0 <= q < decimal_digits(n).len() ==> is_digit(#[trigger] decimal_digits(n)[q]),
        digits_value(decimal_digits(n), 0, decimal_digits(n).len() as int) == n,
        decimal_digits(n)[0] == 0x30 ==> n == 0 && decimal_digits(n).len() == 1,
    decreases n,
{
    let d = decimal_digits(n);
    if n < 10 {
        assert(d =~= seq![(0x30 + n) as u8]);
        assert(digits_value(d, 0, 0) == 0);
    } else {
        lemma_decimal_digits(n / 10);
        let p = decimal_digits(n / 10);
        assert(d == p.push((0x30 + n % 10) as u8));
        assert forall|q: int| 0 <= q < d.len() implies is_digit(#[trigger] d[q]) by {
            if q < p.len() {
                assert(d[q] == p[q]);
            }
        }
        lemma_digits_value_shift(d, p, 0, p.len() as int);
        assert(digits_value(d, 0, d.len() as int) == digits_value(d, 0, p.len() as int) * 10 + (
        d[p.len() as int] - 0x30) as nat);
        assert(d[0] == p[0]);
    }
}

proof fn lemma_digits_run_end(s: Seq<u8>, a: int, b: int)
    requires
        0 <= a <= b <= s.len(),
        forall|j: int| a <= j < b ==> is_digit(#[trigger] s[j]),
        !digit_at(s, b),
    ensures
        digits_end(s, a) == b,
{
    lemma_digits_end(s, a);
    let e = digits_end(s, a);
    if e < b {
        assert(is_digit(s[e]));
    } else if e > b {
        assert(is_digit(s[b]));
    }
}

/// The decimal digits of `n`, at `k` and not followed by another digit,
/// read back as `n`.
pub proof fn lemma_integer_digits_reads(s: Seq<u8>, k: int, n: nat)
    requires
        n <= u64::MAX,
        holds_at(s, k, decimal_digits(n)),
        !digit_at(s, k + decimal_digits(n).len()),
    ensures
        integer_digits(s, k) == Ok::<(nat, int), (crate::error::ErrorCode, int)>(
            (n, k + decimal_digits(n).len()),
        ),
{
    let d = decimal_digits(n);
    let end = k + d.len();
    lemma_decimal_digits(n);
    assert(s[k] == d[0]);
    assert forall|j: int| k <= j < end implies is_digit(#[trigger] s[j]) by {
        assert(s[k + (j - k)] == d[j - k]);
    }
    lemma_digits_value_shift(s, d, k, end);
    if s[k] == 0x30 {
        assert(end == k + 1);
    } else {
        let acc = (s[k] - 0x30) as nat;
        assert(digits_value(s, k, k + 1) == acc) by {
            assert(digits_value(s, k, k) == 0);
        }
        lemma_digits_run_end(s, k + 1, end);
        lemma_u64_digits(s, k, k + 1, acc);
        match crate::grammar::u64_digits(s, k + 1, acc) {
            Ok((v, e)) => {},
            Err((code, at)) => {
                lemma_digits_value_grows(s, k, at + 1, end);
            },
        }
    }
}

/// An unsigned integer written on its own reads back as the same value.
pub proof fn lemma_unsigned_round_trip(v: u64)
    ensures
        unsigned_integer(decimal_digits(v as nat), 0) == Ok::<(u64, int), (crate::error::ErrorCode, int)>(
            (v, decimal_digits(v as nat).len() as int),
        ),
{
    let t = decimal_digits(v as nat);
    lemma_decimal_digits(v as nat);
    assert(is_digit(t[0]));
    assert(skip_ws(t, 0) == 0);
    lemma_integer_digits_reads(t, 0, v as nat);
}

/// A signed integer written on its own reads back as the same value.
pub proof fn lemma_signed_round_trip(v: i64)
    ensures
        signed_integer(signed_decimal(v as int), 0) == Ok::<(i64, int), (crate::error::ErrorCode, int)>(
            (v, signed_decimal(v as int).len() as int),
        ),
{
    let t = signed_decimal(v as int);
    if v < 0 {
        let m = (-v) as nat;
        let d = decimal_digits(m);
        lemma_decimal_digits(m);
        assert(t == seq![0x2du8] + d);
        assert(skip_ws(t, 0) == 0);
        assert forall|q: int| 0 <= q < d.len() implies t[1 + q] == #[trigger] d[q] by {}
        lemma_integer_digits_reads(t, 1, m);
    } else {
        lemma_decimal_digits(v as nat);
        assert(is_digit(t[0]));
        assert(skip_ws(t, 0) == 0);
        lemma_integer_digits_reads(t, 0, v as nat);
    }
}

/// The decimal digits of `n`, with a minus sign in front when `negative`,
/// form an RFC 8259 integer that the number grammar reads in full, with no
/// point or exponent and with the sign it was written with.
proof fn lemma_decimal_token(n: nat, negative: bool)
    ensures
        ({
            let d = decimal_digits(n);
            let t = if negative {
                seq![0x2du8] + d
            } else {
                d
            };
            &&& skip_ws(t, 0) == 0
            &&& number(t, 0) matches Ok(shape)
            &&& shape.end == t.len()
            &&& !shape.float
            &&& shape.negative == negative
            &&& digits_value(t, if negative {
                1int
            } else {
                0int
            }, t.len() as int) == n
        }),
{
    let d = decimal_digits(n);
    lemma_decimal_digits(n);
    let t = if negative {
        seq![0x2du8] + d
    } else {
        d
    };
    let a: int = if negative {
        1
    } else {
        0
    };
    let len = t.len() as int;
    assert(t.subrange(a, len) =~= d);
    assert(all_digits(d)) by {
        assert forall|q: int| 0 <= q < d.len() implies is_digit(#[trigger] d[q]) by {}
    }
    assert(rfc_int(d)) by {
        if d[0] == 0x30 {
            assert(d =~= seq![0x30u8]);
        }
    }
    assert(t.subrange(len, len) =~= Seq::<u8>::empty());
    assert(rfc_frac(t.subrange(len, len)));
    assert(rfc_exp(t.subrange(len, len)));
    assert(rfc_number(t));
    assert(t.subrange(0, len) =~= t);
    law_rfc_number_is_accepted(t, 0, len);
    law_number_is_rfc(t, 0);
    assert(t[0] == 0x2d <==> negative) by {
        if !negative {
            assert(is_digit(d[0]));
        }
    }
    assert forall|q: int| 0 <= q < len implies !is_float_mark(#[trigger] t[q]) by {
        if q >= a {
            assert(t[q] == d[q - a]);
            assert(is_digit(d[q - a]));
        }
    }
    assert(!is_ws(t[0])) by {
        if !negative {
            assert(is_digit(d[0]));
        }
    }
    lemma_digits_value_shift(t, d, a, len);
}

/// Any 128-bit signed integer written in decimal reads back as itself.
pub proof fn lemma_wide_signed_round_trip(v: i128)
    ensures
        wide_integer(signed_decimal(v as int), 0) == Ok::<(i128, int), (crate::error::ErrorCode, int)>(
            (v, signed_decimal(v as int).len() as int),
        ),
{
    if v < 0 {
        lemma_decimal_token((-v) as nat, true);
    } else {
        lemma_decimal_token(v as nat, false);
    }
}

/// Any 128-bit unsigned integer written in decimal reads back as itself.
pub proof fn lemma_wide_unsigned_round_trip(v: u128)
    ensures
        wide_unsigned(decimal_digits(v as nat), 0) == Ok::<(u128, int), (crate::error::ErrorCode, int)>(
            (v, decimal_digits(v as nat).len() as int),
        ),
{
    lemma_decimal_token(v as nat, false);
}

} // verus!
