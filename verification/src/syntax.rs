//! JSON text as RFC 8259 writes it down: which byte sequences are one value,
//! stated by how they decompose, with no reference to how a parser reads them.
//! One restriction is kept from the parser: a `\u` escape must write a
//! Unicode scalar, so a surrogate only stands as a high one followed by a low
//! one. The parser accepts exactly these values, within the nesting limit.
use crate::grammar::{
    array_items, byte_at, expect, false_literal, hex_digit, hex_quad, is_digit, is_ws, lemma_skip_ws,
    lemma_next_special_props, lemma_value_progress, next_special, null_literal, number,
    object_members, rfc_number, simple_escape, skip_array, skip_object, skip_string, skip_value,
    skip_ws, string_rest, true_literal, unicode_escape, MAX_DEPTH, is_high_surrogate,
    is_low_surrogate, parse_string, digits_end, digit_at, lemma_digits_end,
    lemma_string_rest_from_special, rfc_int, rfc_frac, rfc_exp, all_digits,
};
use crate::laws::law_string_scans_agree;
use crate::laws::law_number_is_rfc;
use crate::swar::is_string_special;
use vstd::prelude::*;
use vstd::utf8::valid_utf8;

verus! {

/// Every byte of `t` is JSON whitespace.
pub open spec fn all_ws(t: Seq<u8>) -> bool {
    forall|k: int| 0 <= k < t.len() ==> is_ws(#[trigger] t[k])
}

/// The code unit written by four hexadecimal digits at `i` of `u`.
pub open spec fn code_unit(u: Seq<u8>, i: int) -> Option<u16> {
    if 0 <= i && i + 4 <= u.len() {
        match (hex_digit(u[i]), hex_digit(u[i + 1]), hex_digit(u[i + 2]), hex_digit(u[i + 3])) {
            (Some(a), Some(b), Some(c), Some(d)) => Some(
                ((a as int) * 4096 + (b as int) * 256 + (c as int) * 16 + (d as int)) as u16,
            ),
            _ => None,
        }
    } else {
        None
    }
}

/// The characters between a string's quotes: bytes that need no escape, the
/// two-character escapes, and `\u` escapes with four hexadecimal digits that
/// write a Unicode scalar, a high surrogate only when a `\u` escape of a low
/// surrogate follows it.
pub open spec fn string_chars(u: Seq<u8>) -> bool
    decreases u.len(),
{
    if u.len() == 0 {
        true
    } else if u[0] == 0x5c {
        if u.len() >= 2 && simple_escape(u[1]) is Some {
            string_chars(u.subrange(2, u.len() as int))
        } else if u.len() >= 2 && u[1] == 0x75 {
            match code_unit(u, 2) {
                None => false,
                Some(c) => if is_low_surrogate(c) {
                    false
                } else if is_high_surrogate(c) {
                    u.len() >= 12 && u[6] == 0x5c && u[7] == 0x75 && (code_unit(u, 8) matches Some(
                        low,
                    ) && is_low_surrogate(low)) && string_chars(u.subrange(12, u.len() as int))
                } else {
                    string_chars(u.subrange(6, u.len() as int))
                },
            }
        } else {
            false
        }
    } else if is_string_special(u[0]) {
        false
    } else {
        string_chars(u.subrange(1, u.len() as int))
    }
}

/// A string: characters between two quotes.
pub open spec fn json_string(t: Seq<u8>) -> bool {
    &&& t.len() >= 2
    &&& t[0] == 0x22
    &&& t[t.len() - 1] == 0x22
    &&& string_chars(t.subrange(1, t.len() - 1))
}

/// One value, with no whitespace around it, whose arrays and objects open
/// no deeper than the nesting limit when the value itself stands at `depth`.
pub open spec fn json_value(t: Seq<u8>, depth: nat) -> bool
    decreases t.len(), 0nat,
{
    ||| t == null_literal()
    ||| t == true_literal()
    ||| t == false_literal()
    ||| json_string(t)
    ||| rfc_number(t)
    ||| depth < MAX_DEPTH && t.len() >= 2 && t[0] == 0x5b && t[t.len() - 1] == 0x5d
        && json_elements(t.subrange(1, t.len() - 1), depth + 1)
    ||| depth < MAX_DEPTH && t.len() >= 2 && t[0] == 0x7b && t[t.len() - 1] == 0x7d
        && json_members(t.subrange(1, t.len() - 1), depth + 1)
}

/// A value with whitespace around it.
pub open spec fn json_element(t: Seq<u8>, depth: nat) -> bool
    decreases t.len(), 1nat,
{
    exists|a: int, b: int|
        #![trigger t.subrange(0, a), t.subrange(a, b)]
        0 <= a <= b <= t.len() && all_ws(t.subrange(0, a)) && json_value(t.subrange(a, b), depth)
            && all_ws(t.subrange(b, t.len() as int))
}

/// One or more elements separated by commas.
pub open spec fn json_element_list(t: Seq<u8>, depth: nat) -> bool
    decreases t.len(), 2nat,
{
    ||| json_element(t, depth)
    ||| exists|c: int|
        #![trigger t.subrange(0, c)]
        0 <= c < t.len() && t[c] == 0x2c && json_element(t.subrange(0, c), depth)
            && json_element_list(t.subrange(c + 1, t.len() as int), depth)
}

/// What stands between an array's brackets: whitespace alone, or elements.
pub open spec fn json_elements(t: Seq<u8>, depth: nat) -> bool
    decreases t.len(), 3nat,
{
    all_ws(t) || json_element_list(t, depth)
}

/// A member name with whitespace around it.
pub open spec fn json_key(t: Seq<u8>) -> bool {
    exists|a: int, b: int|
        #![trigger t.subrange(0, a), t.subrange(a, b)]
        0 <= a <= b <= t.len() && all_ws(t.subrange(0, a)) && json_string(t.subrange(a, b))
            && all_ws(t.subrange(b, t.len() as int))
}

/// A member: a name, a colon, and an element.
pub open spec fn json_member(t: Seq<u8>, depth: nat) -> bool
    decreases t.len(), 2nat,
{
    exists|c: int|
        #![trigger t.subrange(0, c)]
        0 <= c < t.len() && t[c] == 0x3a && json_key(t.subrange(0, c)) && json_element(
            t.subrange(c + 1, t.len() as int),
            depth,
        )
}

/// One or more members separated by commas.
pub open spec fn json_member_list(t: Seq<u8>, depth: nat) -> bool
    decreases t.len(), 3nat,
{
    ||| json_member(t, depth)
    ||| exists|c: int|
        #![trigger t.subrange(0, c)]
        0 <= c < t.len() && t[c] == 0x2c && json_member(t.subrange(0, c), depth)
            && json_member_list(t.subrange(c + 1, t.len() as int), depth)
}

/// What stands between an object's braces: whitespace alone, or members.
pub open spec fn json_members(t: Seq<u8>, depth: nat) -> bool
    decreases t.len(), 4nat,
{
    all_ws(t) || json_member_list(t, depth)
}

/// Bytes that need no escape, in front of string characters, are string
/// characters too.
proof fn lemma_plain_prefix(s: Seq<u8>, k: int, p: int, e: int)
    requires
        0 <= k <= p <= e <= s.len(),
        forall|j: int| k <= j < p ==> !is_string_special(#[trigger] s[j]),
        string_chars(s.subrange(p, e)),
    ensures
        string_chars(s.subrange(k, e)),
    decreases p - k,
{
    if k < p {
        lemma_plain_prefix(s, k + 1, p, e);
        let u = s.subrange(k, e);
        assert(u[0] == s[k]);
        assert(u.subrange(1, u.len() as int) =~= s.subrange(k + 1, e));
    }
}

/// The code unit of a subrange is read from the same bytes as in the whole.
proof fn lemma_code_unit_at(s: Seq<u8>, p: int, e: int, i: int)
    requires
        0 <= p,
        0 <= i,
        p + i + 4 <= e <= s.len(),
    ensures
        code_unit(s.subrange(p, e), i) == match hex_quad(s, p + i) {
            Ok((c, _)) => Some(c),
            Err(_) => None::<u16>,
        },
{
    let u = s.subrange(p, e);
    assert(u[i] == s[p + i] && u[i + 1] == s[p + i + 1] && u[i + 2] == s[p + i + 2] && u[i + 3]
        == s[p + i + 3]);
}

/// A two-character escape at `p` in front of string characters.
proof fn lemma_simple_escape_prefix(s: Seq<u8>, p: int, e: int)
    requires
        0 <= p,
        p + 2 <= e <= s.len(),
        s[p] == 0x5c,
        simple_escape(s[p + 1]) is Some,
        string_chars(s.subrange(p + 2, e)),
    ensures
        string_chars(s.subrange(p, e)),
{
    let u = s.subrange(p, e);
    assert(u[0] == s[p] && u[1] == s[p + 1]);
    assert(u.subrange(2, u.len() as int) =~= s.subrange(p + 2, e));
}

/// A `\u` escape at `p` that the scan reads to `q`, in front of string
/// characters.
proof fn lemma_unicode_escape_prefix(s: Seq<u8>, p: int, q: int, e: int)
    requires
        0 <= p,
        p + 2 <= s.len(),
        s[p] == 0x5c,
        s[p + 1] == 0x75,
        unicode_escape(s, p + 2) matches Ok((_, q2)) && q2 == q,
        q <= e <= s.len(),
        string_chars(s.subrange(q, e)),
    ensures
        string_chars(s.subrange(p, e)),
{
    let u = s.subrange(p, e);
    assert(u[0] == s[p] && u[1] == s[p + 1]);
    assert(simple_escape(u[1]) is None);
    lemma_code_unit_at(s, p, e, 2);
    if let Ok((code, _)) = hex_quad(s, p + 2) {
        if is_high_surrogate(code) {
            lemma_code_unit_at(s, p, e, 8);
            assert(u[6] == s[p + 6] && u[7] == s[p + 7]);
            assert(u.subrange(12, u.len() as int) =~= s.subrange(p + 12, e));
        } else {
            assert(u.subrange(6, u.len() as int) =~= s.subrange(p + 6, e));
        }
    }
}

/// What the string scan accepts from `k` is string characters and the
/// closing quote.
pub proof fn lemma_string_rest_sound(s: Seq<u8>, k: int)
    requires
        0 <= k <= s.len(),
    ensures
        string_rest(s, k) matches Ok(e) ==> k < e <= s.len() && s[e - 1] == 0x22 && string_chars(
            s.subrange(k, e - 1),
        ),
    decreases s.len() - k,
{
    lemma_next_special_props(s, k);
    if let Some(p) = next_special(s, k) {
        if s[p] == 0x22 {
            assert(s.subrange(p, p) =~= Seq::<u8>::empty());
            lemma_plain_prefix(s, k, p, p);
        } else if s[p] == 0x5c && p + 1 < s.len() {
            let c = s[p + 1];
            if simple_escape(c) is Some {
                lemma_string_rest_sound(s, p + 2);
                if let Ok(e) = string_rest(s, p + 2) {
                    lemma_simple_escape_prefix(s, p, e - 1);
                    lemma_plain_prefix(s, k, p, e - 1);
                }
            } else if c == 0x75 {
                if let Ok((_, q)) = unicode_escape(s, p + 2) {
                    if q > k && q <= s.len() {
                        lemma_string_rest_sound(s, q);
                        if let Ok(e) = string_rest(s, q) {
                            lemma_unicode_escape_prefix(s, p, q, e - 1);
                            lemma_plain_prefix(s, k, p, e - 1);
                        }
                    }
                }
            }
        }
    }
}

/// The whitespace that `skip_ws` passes over.
proof fn lemma_ws_span(s: Seq<u8>, i: int)
    requires
        0 <= i <= s.len(),
    ensures
        i <= skip_ws(s, i) <= s.len(),
        all_ws(s.subrange(i, skip_ws(s, i))),
        skip_ws(s, skip_ws(s, i)) == skip_ws(s, i),
{
    lemma_skip_ws(s, i);
    let j = skip_ws(s, i);
    assert forall|k: int| 0 <= k < j - i implies is_ws(#[trigger] s.subrange(i, j)[k]) by {
        assert(s.subrange(i, j)[k] == s[i + k]);
    }
}

/// Whitespace, a value from `j` to `v`, then whitespace up to `m`, is an element.
proof fn lemma_element_at(s: Seq<u8>, k: int, j: int, v: int, m: int, depth: nat)
    requires
        0 <= k <= j <= v <= m <= s.len(),
        all_ws(s.subrange(k, j)),
        json_value(s.subrange(j, v), depth),
        all_ws(s.subrange(v, m)),
    ensures
        json_element(s.subrange(k, m), depth),
{
    let t = s.subrange(k, m);
    assert(t.subrange(0, j - k) =~= s.subrange(k, j));
    assert(t.subrange(j - k, v - k) =~= s.subrange(j, v));
    assert(t.subrange(v - k, t.len() as int) =~= s.subrange(v, m));
}

/// What the string scan accepts at `j`, after a quote, is a string.
proof fn lemma_string_at(s: Seq<u8>, j: int)
    requires
        0 <= j < s.len(),
        s[j] == 0x22,
    ensures
        string_rest(s, j + 1) matches Ok(e) ==> j + 1 < e <= s.len() && json_string(s.subrange(j, e)),
{
    lemma_string_rest_sound(s, j + 1);
    if let Ok(e) = string_rest(s, j + 1) {
        let t = s.subrange(j, e);
        assert(t.subrange(1, t.len() - 1) =~= s.subrange(j + 1, e - 1));
    }
}

/// What the value scan accepts from `i` is whitespace and one value.
pub(crate) proof fn lemma_value_sound(s: Seq<u8>, i: int, depth: nat)
    requires
        0 <= i <= s.len(),
    ensures
        skip_value(s, i, depth) matches Ok(e) ==> ({
            let j = skip_ws(s, i);
            &&& i <= j < e <= s.len()
            &&& all_ws(s.subrange(i, j))
            &&& json_value(s.subrange(j, e), depth)
        }),
    decreases s.len() - i, 1nat,
{
    lemma_ws_span(s, i);
    lemma_value_progress(s, i, depth);
    let j = skip_ws(s, i);
    if let Ok(e) = skip_value(s, i, depth) {
        let b = s[j];
        if b == 0x22 {
            lemma_string_at(s, j);
        } else if b == 0x2d || is_digit(b) {
            law_number_is_rfc(s, j);
        } else if b == 0x5b {
            lemma_array_sound(s, j, depth);
        } else if b == 0x7b {
            lemma_object_sound(s, j, depth);
        }
    }
}

/// What the array scan accepts at `j` is one array.
proof fn lemma_array_sound(s: Seq<u8>, j: int, depth: nat)
    requires
        0 <= j < s.len(),
    ensures
        skip_array(s, j, depth) matches Ok(e) ==> j < e <= s.len() && s[j] == 0x5b ==> json_value(
            s.subrange(j, e),
            depth,
        ),
    decreases s.len() - j, 0nat,
{
    if depth < MAX_DEPTH && s[j] == 0x5b {
        lemma_ws_span(s, j + 1);
        let m = skip_ws(s, j + 1);
        if byte_at(s, m) == Some(0x5du8) {
            let t = s.subrange(j, m + 1);
            assert(t.subrange(1, t.len() - 1) =~= s.subrange(j + 1, m));
        } else {
            lemma_items_sound(s, j + 1, depth + 1);
            if let Ok(e) = array_items(s, j + 1, depth + 1) {
                let t = s.subrange(j, e);
                assert(t.subrange(1, t.len() - 1) =~= s.subrange(j + 1, e - 1));
            }
        }
    }
}

/// What the element scan accepts from `k` is elements and the closing `]`.
proof fn lemma_items_sound(s: Seq<u8>, k: int, depth: nat)
    requires
        0 <= k <= s.len(),
    ensures
        array_items(s, k, depth) matches Ok(e) ==> k < e <= s.len() && s[e - 1] == 0x5d
            && json_element_list(s.subrange(k, e - 1), depth),
    decreases s.len() - k, 2nat,
{
    lemma_value_sound(s, k, depth);
    if let Ok(v) = skip_value(s, k, depth) {
        if k < v <= s.len() {
            lemma_ws_span(s, v);
            let m = skip_ws(s, v);
            lemma_element_at(s, k, skip_ws(s, k), v, m, depth);
            if byte_at(s, m) == Some(0x2cu8) {
                lemma_items_sound(s, m + 1, depth);
                if let Ok(e) = array_items(s, m + 1, depth) {
                    let t = s.subrange(k, e - 1);
                    assert(t.subrange(0, m - k) =~= s.subrange(k, m));
                    assert(t.subrange(m - k + 1, t.len() as int) =~= s.subrange(m + 1, e - 1));
                    assert(t[m - k] == 0x2c);
                }
            }
        }
    }
}

/// What the object scan accepts at `j` is one object.
proof fn lemma_object_sound(s: Seq<u8>, j: int, depth: nat)
    requires
        0 <= j < s.len(),
    ensures
        skip_object(s, j, depth) matches Ok(e) ==> j < e <= s.len() && s[j] == 0x7b ==> json_value(
            s.subrange(j, e),
            depth,
        ),
    decreases s.len() - j, 0nat,
{
    if depth < MAX_DEPTH && s[j] == 0x7b {
        lemma_ws_span(s, j + 1);
        let m = skip_ws(s, j + 1);
        if byte_at(s, m) == Some(0x7du8) {
            let t = s.subrange(j, m + 1);
            assert(t.subrange(1, t.len() - 1) =~= s.subrange(j + 1, m));
        } else {
            lemma_members_sound(s, j + 1, depth + 1);
            if let Ok(e) = object_members(s, j + 1, depth + 1) {
                let t = s.subrange(j, e);
                assert(t.subrange(1, t.len() - 1) =~= s.subrange(j + 1, e - 1));
            }
        }
    }
}

/// A name scanned from `k`, with whitespace up to the colon at `c - 1`.
proof fn lemma_key_at(s: Seq<u8>, k: int, n: int, c: int)
    requires
        0 <= k <= s.len(),
        skip_string(s, k) == Ok::<int, (crate::error::ErrorCode, int)>(n),
        expect(s, n, 0x3a) == Ok::<int, (crate::error::ErrorCode, int)>(c),
    ensures
        k < n < c <= s.len(),
        s[c - 1] == 0x3a,
        json_key(s.subrange(k, c - 1)),
{
    lemma_ws_span(s, k);
    let j0 = skip_ws(s, k);
    lemma_string_at(s, j0);
    lemma_ws_span(s, n);
    let t0 = s.subrange(k, c - 1);
    assert(t0.subrange(0, j0 - k) =~= s.subrange(k, j0));
    assert(t0.subrange(j0 - k, n - k) =~= s.subrange(j0, n));
    assert(t0.subrange(n - k, t0.len() as int) =~= s.subrange(n, c - 1));
}

/// One member scanned from `k`: its name, colon and value, and the
/// whitespace after the value.
proof fn lemma_member_at(s: Seq<u8>, k: int, depth: nat)
    requires
        0 <= k <= s.len(),
        object_members(s, k, depth) is Ok,
    ensures
        ({
            let n = skip_string(s, k)->Ok_0;
            let c = expect(s, n, 0x3a)->Ok_0;
            let v = skip_value(s, c, depth)->Ok_0;
            let m = skip_ws(s, v);
            &&& skip_string(s, k) is Ok
            &&& expect(s, n, 0x3a) is Ok
            &&& skip_value(s, c, depth) is Ok
            &&& k < v <= m <= s.len()
            &&& json_member(s.subrange(k, m), depth)
        }),
    decreases s.len() - k, 1nat,
{
    let n = skip_string(s, k)->Ok_0;
    let c = expect(s, n, 0x3a)->Ok_0;
    lemma_key_at(s, k, n, c);
    lemma_value_sound(s, c, depth);
    let v = skip_value(s, c, depth)->Ok_0;
    lemma_ws_span(s, v);
    let m = skip_ws(s, v);
    lemma_element_at(s, c, skip_ws(s, c), v, m, depth);
    let t1 = s.subrange(k, m);
    assert(t1.subrange(0, c - 1 - k) =~= s.subrange(k, c - 1));
    assert(t1.subrange(c - k, t1.len() as int) =~= s.subrange(c, m));
    assert(t1[c - 1 - k] == 0x3a);
}

/// What the member scan accepts from `k` is members and the closing `}`.
#[verifier::rlimit(40)]
proof fn lemma_members_sound(s: Seq<u8>, k: int, depth: nat)
    requires
        0 <= k <= s.len(),
    ensures
        object_members(s, k, depth) matches Ok(e) ==> k < e <= s.len() && s[e - 1] == 0x7d
            && json_member_list(s.subrange(k, e - 1), depth),
    decreases s.len() - k, 2nat,
{
    if let Ok(e) = object_members(s, k, depth) {
        lemma_member_at(s, k, depth);
        let n = skip_string(s, k)->Ok_0;
        let c = expect(s, n, 0x3a)->Ok_0;
        let v = skip_value(s, c, depth)->Ok_0;
        let m = skip_ws(s, v);
        let t1 = s.subrange(k, m);
        if byte_at(s, m) == Some(0x2cu8) {
            lemma_members_sound(s, m + 1, depth);
            let t = s.subrange(k, e - 1);
            assert(t.subrange(0, m - k) =~= t1);
            assert(t.subrange(m - k + 1, t.len() as int) =~= s.subrange(m + 1, e - 1));
            assert(t[m - k] == 0x2c);
        } else {
            assert(e == m + 1);
        }
    }
}

/// Whitespace from `i` up to a byte that is not whitespace is what
/// `skip_ws` passes over.
proof fn lemma_ws_to(s: Seq<u8>, i: int, j: int)
    requires
        0 <= i <= j <= s.len(),
        all_ws(s.subrange(i, j)),
        j == s.len() || !is_ws(s[j]),
    ensures
        skip_ws(s, i) == j,
    decreases j - i,
{
    if i < j {
        assert(s.subrange(i, j)[0] == s[i]);
        assert(all_ws(s.subrange(i + 1, j))) by {
            assert forall|k: int| 0 <= k < j - i - 1 implies is_ws(#[trigger] s.subrange(i + 1, j)[k]) by {
                assert(s.subrange(i + 1, j)[k] == s.subrange(i, j)[k + 1]);
            }
        }
        lemma_ws_to(s, i + 1, j);
    }
}

/// Digits from `a` up to a byte that is not a digit are what `digits_end`
/// passes over.
proof fn lemma_digits_to(s: Seq<u8>, a: int, b: int)
    requires
        0 <= a <= b <= s.len(),
        forall|q: int| a <= q < b ==> is_digit(#[trigger] s[q]),
        !digit_at(s, b),
    ensures
        digits_end(s, a) == b,
    decreases b - a,
{
    if a < b {
        lemma_digits_to(s, a + 1, b);
        assert(is_digit(s[a]));
    }
}

/// String characters from `k` up to a quote at `e` are what the string scan
/// reads, through that quote.
#[verifier::rlimit(50)]
#[verifier::spinoff_prover]
proof fn lemma_string_rest_complete(s: Seq<u8>, k: int, e: int)
    requires
        0 <= k <= e < s.len(),
        s[e] == 0x22,
        string_chars(s.subrange(k, e)),
    ensures
        string_rest(s, k) == Ok::<int, (crate::error::ErrorCode, int)>(e + 1),
    decreases e - k,
{
    let u = s.subrange(k, e);
    if k == e {
        assert(next_special(s, k) == Some(k));
    } else if s[k] == 0x5c {
        assert(u[0] == s[k] && u[1] == s[k + 1]);
        assert(next_special(s, k) == Some(k));
        if simple_escape(s[k + 1]) is Some {
            assert(u.subrange(2, u.len() as int) =~= s.subrange(k + 2, e));
            lemma_string_rest_complete(s, k + 2, e);
        } else {
            lemma_code_unit_at(s, k, e, 2);
            let code = code_unit(u, 2)->Some_0;
            if is_high_surrogate(code) {
                lemma_code_unit_at(s, k, e, 8);
                assert(u[6] == s[k + 6] && u[7] == s[k + 7]);
                assert(u.subrange(12, u.len() as int) =~= s.subrange(k + 12, e));
                assert(unicode_escape(s, k + 2) matches Ok((_, q)) && q == k + 12);
                lemma_string_rest_complete(s, k + 12, e);
            } else {
                assert(u.subrange(6, u.len() as int) =~= s.subrange(k + 6, e));
                assert(unicode_escape(s, k + 2) matches Ok((_, q)) && q == k + 6);
                lemma_string_rest_complete(s, k + 6, e);
            }
        }
    } else {
        assert(u[0] == s[k]);
        assert(!is_string_special(s[k]));
        assert(u.subrange(1, u.len() as int) =~= s.subrange(k + 1, e));
        lemma_string_rest_complete(s, k + 1, e);
        lemma_next_special_props(s, k + 1);
        assert(next_special(s, k + 1) is Some) by {
            if next_special(s, k + 1) is None {
                assert(!is_string_special(s[e]));
            }
        }
        let p = next_special(s, k + 1)->Some_0;
        assert(next_special(s, k) == next_special(s, k + 1));
        lemma_string_rest_from_special(s, k, p);
        lemma_string_rest_from_special(s, k + 1, p);
    }
}

/// A string at `j` in well-formed UTF-8 is read through its closing quote,
/// with or without decoding.
pub(crate) proof fn lemma_string_complete(s: Seq<u8>, j: int, e: int)
    requires
        valid_utf8(s),
        0 <= j < e <= s.len(),
        json_string(s.subrange(j, e)),
    ensures
        skip_string(s, j) == Ok::<int, (crate::error::ErrorCode, int)>(e),
        parse_string(s, j) matches Ok((_, _, end)) && end == e,
{
    let t = s.subrange(j, e);
    assert(t[0] == s[j] && t[t.len() - 1] == s[e - 1]);
    assert(t.subrange(1, t.len() - 1) =~= s.subrange(j + 1, e - 1));
    lemma_ws_to(s, j, j);
    assert(skip_ws(s, j) == j) by {
        assert(s.subrange(j, j) =~= Seq::<u8>::empty());
    }
    lemma_string_rest_complete(s, j + 1, e - 1);
    law_string_scans_agree(s, j);
}

/// A byte that a number token cannot continue with: whitespace or one of the
/// bytes that may follow a value inside JSON text, or the end of the input.
pub open spec fn ends_value(s: Seq<u8>, e: int) -> bool {
    e == s.len() || (0 <= e < s.len() && (is_ws(s[e]) || s[e] == 0x2c || s[e] == 0x5d || s[e]
        == 0x7d || s[e] == 0x3a))
}

/// The digits of a span that `all_digits` states.
proof fn lemma_span_digits(s: Seq<u8>, a: int, b: int)
    requires
        0 <= a <= b <= s.len(),
        all_digits(s.subrange(a, b)),
    ensures
        forall|q: int| a <= q < b ==> is_digit(#[trigger] s[q]),
{
    assert forall|q: int| a <= q < b implies is_digit(#[trigger] s[q]) by {
        assert(s.subrange(a, b)[q - a] == s[q]);
    }
}

/// An RFC 8259 number at `j` that ends at `e`, where nothing can continue it,
/// is read by the number grammar to `e`.
#[verifier::rlimit(50)]
#[verifier::spinoff_prover]
pub(crate) proof fn lemma_number_complete(s: Seq<u8>, j: int, e: int)
    requires
        0 <= j < e <= s.len(),
        rfc_number(s.subrange(j, e)),
        ends_value(s, e),
    ensures
        number(s, j) matches Ok(shape) && shape.end == e,
{
    let t = s.subrange(j, e);
    let (a, b, c) = choose|a: int, b: int, c: int|
        #![trigger t.subrange(a, b), t.subrange(b, c)]
        0 <= a <= 1 && a <= b <= c <= t.len() && (a == 1 ==> t[0] == 0x2d) && rfc_int(
            t.subrange(a, b),
        ) && rfc_frac(t.subrange(b, c)) && rfc_exp(t.subrange(c, t.len() as int));
    let k = j + a;
    let k1 = j + b;
    let k2 = j + c;
    assert(t.subrange(a, b) =~= s.subrange(k, k1));
    assert(t.subrange(b, c) =~= s.subrange(k1, k2));
    assert(t.subrange(c, t.len() as int) =~= s.subrange(k2, e));
    let int_part = s.subrange(k, k1);
    let frac = s.subrange(k1, k2);
    let exp = s.subrange(k2, e);
    assert(int_part.len() >= 1 && is_digit(int_part[0])) by {
        if !(int_part =~= seq![0x30u8]) {
            assert(is_digit(int_part[0]));
        }
    }
    assert(s[k] == int_part[0]);
    assert(a == 1 <==> s[j] == 0x2d) by {
        if a == 0 {
            assert(s[j] == s[k]);
        } else {
            assert(t[0] == s[j]);
        }
    }
    // what follows the integer part, the fraction and the exponent
    assert(k1 < e ==> (s[k1] == 0x2e || s[k1] == 0x65 || s[k1] == 0x45)) by {
        if k1 < e {
            if k1 < k2 {
                assert(s[k1] == frac[0]);
            } else {
                assert(s[k2] == exp[0]);
            }
        }
    }
    assert(!digit_at(s, k1)) by {
        if k1 == e {
            assert(ends_value(s, e));
        }
    }
    if int_part =~= seq![0x30u8] {
        assert(s[k] == 0x30);
        assert(k1 == k + 1);
    } else {
        lemma_span_digits(s, k, k1);
        assert(s[k] != 0x30);
        lemma_digits_to(s, k, k1);
    }
    if k1 < k2 {
        assert(s[k1] == 0x2e);
        assert(frac.subrange(1, frac.len() as int) =~= s.subrange(k1 + 1, k2));
        lemma_span_digits(s, k1 + 1, k2);
        assert(k2 < e ==> (s[k2] == 0x65 || s[k2] == 0x45)) by {
            if k2 < e {
                assert(s[k2] == exp[0]);
            }
        }
        assert(!digit_at(s, k2)) by {
            if k2 == e {
                assert(ends_value(s, e));
            }
        }
        lemma_digits_to(s, k1 + 1, k2);
    } else {
        assert(byte_at(s, k1) != Some(0x2eu8)) by {
            if k1 < e {
                assert(s[k1] == exp[0]);
            } else {
                assert(ends_value(s, e));
            }
        }
    }
    if k2 < e {
        assert(s[k2] == exp[0] && s[k2 + 1] == exp[1]);
        assert(!digit_at(s, e)) by {
            assert(ends_value(s, e));
        }
        if exp[1] == 0x2b || exp[1] == 0x2d {
            assert(exp.subrange(1, exp.len() as int)[0] == exp[1]);
            assert(!is_digit(exp[1]));
            assert(exp.subrange(2, exp.len() as int) =~= s.subrange(k2 + 2, e));
            lemma_span_digits(s, k2 + 2, e);
            lemma_digits_to(s, k2 + 2, e);
        } else {
            assert(exp.subrange(1, exp.len() as int) =~= s.subrange(k2 + 1, e));
            lemma_span_digits(s, k2 + 1, e);
            lemma_digits_to(s, k2 + 1, e);
        }
    } else {
        assert(byte_at(s, k2) != Some(0x65u8) && byte_at(s, k2) != Some(0x45u8)) by {
            assert(ends_value(s, e));
        }
    }
}

/// The first byte of a value tells which kind of value it is.
proof fn lemma_value_first(t: Seq<u8>, depth: nat)
    requires
        json_value(t, depth),
    ensures
        t.len() >= 1,
        !is_ws(t[0]),
        t[0] != 0x5d && t[0] != 0x7d,
        t[0] == 0x6e ==> t == null_literal(),
        t[0] == 0x74 ==> t == true_literal(),
        t[0] == 0x66 ==> t == false_literal(),
        t[0] == 0x22 ==> json_string(t),
        (t[0] == 0x2d || is_digit(t[0])) ==> rfc_number(t),
        t[0] == 0x5b ==> depth < MAX_DEPTH && t.len() >= 2 && t[t.len() - 1] == 0x5d
            && json_elements(t.subrange(1, t.len() - 1), depth + 1),
        t[0] == 0x7b ==> depth < MAX_DEPTH && t.len() >= 2 && t[t.len() - 1] == 0x7d
            && json_members(t.subrange(1, t.len() - 1), depth + 1),
        t[0] == 0x6e || t[0] == 0x74 || t[0] == 0x66 || t[0] == 0x22 || t[0] == 0x2d || is_digit(
            t[0],
        ) || t[0] == 0x5b || t[0] == 0x7b,
{
    if rfc_number(t) {
        let (a, b, c) = choose|a: int, b: int, c: int|
            #![trigger t.subrange(a, b), t.subrange(b, c)]
            0 <= a <= 1 && a <= b <= c <= t.len() && (a == 1 ==> t[0] == 0x2d) && rfc_int(
                t.subrange(a, b),
            ) && rfc_frac(t.subrange(b, c)) && rfc_exp(t.subrange(c, t.len() as int));
        let int_part = t.subrange(a, b);
        if a == 0 {
            assert(int_part[0] == t[0]);
            if !(int_part =~= seq![0x30u8]) {
                assert(is_digit(int_part[0]));
            }
        }
    }
    if json_string(t) {
        assert(t[0] == 0x22);
    }
}

/// Whitespace, then a value from `j` to `e` that nothing continues, is what
/// the value scan reads from `i`.
pub(crate) proof fn lemma_value_complete(s: Seq<u8>, i: int, j: int, e: int, depth: nat)
    requires
        valid_utf8(s),
        0 <= i <= j <= e <= s.len(),
        all_ws(s.subrange(i, j)),
        json_value(s.subrange(j, e), depth),
        ends_value(s, e),
    ensures
        skip_value(s, i, depth) == Ok::<int, (crate::error::ErrorCode, int)>(e),
    decreases e - j, 1nat,
{
    let t = s.subrange(j, e);
    lemma_value_first(t, depth);
    assert(t[0] == s[j]);
    lemma_ws_to(s, i, j);
    lemma_ws_to(s, j, j);
    assert(s.subrange(j, j) =~= Seq::<u8>::empty());
    let b = s[j];
    if b == 0x6e || b == 0x74 || b == 0x66 {
        assert(s.subrange(j, j + t.len()) =~= t);
    } else if b == 0x22 {
        lemma_string_complete(s, j, e);
    } else if b == 0x2d || is_digit(b) {
        lemma_number_complete(s, j, e);
    } else if b == 0x5b {
        assert(t[t.len() - 1] == s[e - 1]);
        assert(t.subrange(1, t.len() - 1) =~= s.subrange(j + 1, e - 1));
        lemma_array_complete(s, j, e, depth);
    } else {
        assert(t[t.len() - 1] == s[e - 1]);
        assert(t.subrange(1, t.len() - 1) =~= s.subrange(j + 1, e - 1));
        lemma_object_complete(s, j, e, depth);
    }
}

/// An array from `j` to `e` is what the array scan reads.
proof fn lemma_array_complete(s: Seq<u8>, j: int, e: int, depth: nat)
    requires
        valid_utf8(s),
        0 <= j,
        j + 2 <= e <= s.len(),
        depth < MAX_DEPTH,
        s[j] == 0x5b,
        s[e - 1] == 0x5d,
        json_elements(s.subrange(j + 1, e - 1), depth + 1),
    ensures
        skip_array(s, j, depth) == Ok::<int, (crate::error::ErrorCode, int)>(e),
    decreases e - j, 0nat,
{
    if all_ws(s.subrange(j + 1, e - 1)) {
        lemma_ws_to(s, j + 1, e - 1);
    } else {
        lemma_items_complete(s, j + 1, e - 1, depth + 1);
    }
}

/// Elements from `k` up to a `]` at `end` are what the element scan reads,
/// through that bracket.
proof fn lemma_items_complete(s: Seq<u8>, k: int, end: int, depth: nat)
    requires
        valid_utf8(s),
        0 <= k <= end < s.len(),
        s[end] == 0x5d,
        json_element_list(s.subrange(k, end), depth),
    ensures
        array_items(s, k, depth) == Ok::<int, (crate::error::ErrorCode, int)>(end + 1),
        byte_at(s, skip_ws(s, k)) != Some(0x5du8),
    decreases end - k, 3nat,
{
    let u = s.subrange(k, end);
    if json_element(u, depth) {
        lemma_element_complete(s, k, end, depth);
    } else {
        let c = choose|c: int|
            #![trigger u.subrange(0, c)]
            0 <= c < u.len() && u[c] == 0x2c && json_element(u.subrange(0, c), depth)
                && json_element_list(u.subrange(c + 1, u.len() as int), depth);
        let m = k + c;
        assert(u.subrange(0, c) =~= s.subrange(k, m));
        assert(u.subrange(c + 1, u.len() as int) =~= s.subrange(m + 1, end));
        assert(s[m] == u[c]);
        lemma_element_complete(s, k, m, depth);
        lemma_items_complete(s, m + 1, end, depth);
    }
}

/// An element from `k` to `m`, where `m` holds a byte that ends a value, is
/// read by the value scan up to the whitespace before `m`.
proof fn lemma_element_complete(s: Seq<u8>, k: int, m: int, depth: nat)
    requires
        valid_utf8(s),
        0 <= k <= m < s.len(),
        s[m] == 0x2c || s[m] == 0x5d || s[m] == 0x7d,
        json_element(s.subrange(k, m), depth),
    ensures
        skip_value(s, k, depth) matches Ok(v) && k < v <= m && skip_ws(s, v) == m,
        skip_ws(s, k) < m,
        s[skip_ws(s, k)] != 0x5d && s[skip_ws(s, k)] != 0x7d,
    decreases m - k, 2nat,
{
    let u = s.subrange(k, m);
    let (a, b) = choose|a: int, b: int|
        #![trigger u.subrange(0, a), u.subrange(a, b)]
        0 <= a <= b <= u.len() && all_ws(u.subrange(0, a)) && json_value(u.subrange(a, b), depth)
            && all_ws(u.subrange(b, u.len() as int));
    assert(u.subrange(0, a) =~= s.subrange(k, k + a));
    assert(u.subrange(a, b) =~= s.subrange(k + a, k + b));
    assert(u.subrange(b, u.len() as int) =~= s.subrange(k + b, m));
    lemma_value_first(s.subrange(k + a, k + b), depth);
    assert(s.subrange(k + a, k + b)[0] == s[k + a]);
    assert(ends_value(s, k + b)) by {
        if k + b < m {
            assert(s.subrange(k + b, m)[0] == s[k + b]);
        }
    }
    lemma_value_complete(s, k, k + a, k + b, depth);
    lemma_ws_to(s, k + b, m);
    lemma_ws_to(s, k, k + a);
}

/// An object from `j` to `e` is what the object scan reads.
proof fn lemma_object_complete(s: Seq<u8>, j: int, e: int, depth: nat)
    requires
        valid_utf8(s),
        0 <= j,
        j + 2 <= e <= s.len(),
        depth < MAX_DEPTH,
        s[j] == 0x7b,
        s[e - 1] == 0x7d,
        json_members(s.subrange(j + 1, e - 1), depth + 1),
    ensures
        skip_object(s, j, depth) == Ok::<int, (crate::error::ErrorCode, int)>(e),
    decreases e - j, 0nat,
{
    if all_ws(s.subrange(j + 1, e - 1)) {
        lemma_ws_to(s, j + 1, e - 1);
    } else {
        lemma_members_complete(s, j + 1, e - 1, depth + 1);
    }
}

/// Members from `k` up to a `}` at `end` are what the member scan reads,
/// through that brace.
proof fn lemma_members_complete(s: Seq<u8>, k: int, end: int, depth: nat)
    requires
        valid_utf8(s),
        0 <= k <= end < s.len(),
        s[end] == 0x7d,
        json_member_list(s.subrange(k, end), depth),
    ensures
        object_members(s, k, depth) == Ok::<int, (crate::error::ErrorCode, int)>(end + 1),
        byte_at(s, skip_ws(s, k)) != Some(0x7du8),
    decreases end - k, 3nat,
{
    let u = s.subrange(k, end);
    if json_member(u, depth) {
        lemma_member_complete(s, k, end, depth);
    } else {
        let c = choose|c: int|
            #![trigger u.subrange(0, c)]
            0 <= c < u.len() && u[c] == 0x2c && json_member(u.subrange(0, c), depth)
                && json_member_list(u.subrange(c + 1, u.len() as int), depth);
        let m = k + c;
        assert(u.subrange(0, c) =~= s.subrange(k, m));
        assert(u.subrange(c + 1, u.len() as int) =~= s.subrange(m + 1, end));
        assert(s[m] == u[c]);
        lemma_member_complete(s, k, m, depth);
        lemma_members_complete(s, m + 1, end, depth);
    }
}

/// A member from `k` to `m`, where `m` holds `,` or `}`, is read by the
/// member scan: its name, colon and value, up to the whitespace before `m`.
proof fn lemma_member_complete(s: Seq<u8>, k: int, m: int, depth: nat)
    requires
        valid_utf8(s),
        0 <= k <= m < s.len(),
        s[m] == 0x2c || s[m] == 0x7d,
        json_member(s.subrange(k, m), depth),
    ensures
        skip_string(s, k) is Ok,
        expect(s, skip_string(s, k)->Ok_0, 0x3a) is Ok,
        ({
            let c = expect(s, skip_string(s, k)->Ok_0, 0x3a)->Ok_0;
            &&& k < c <= s.len()
            &&& skip_value(s, c, depth) is Ok
            &&& k < skip_value(s, c, depth)->Ok_0 <= m
            &&& skip_ws(s, skip_value(s, c, depth)->Ok_0) == m
        }),
        byte_at(s, skip_ws(s, k)) == Some(0x22u8),
    decreases m - k, 2nat,
{
    let u = s.subrange(k, m);
    let c0 = choose|c: int|
        #![trigger u.subrange(0, c)]
        0 <= c < u.len() && u[c] == 0x3a && json_key(u.subrange(0, c)) && json_element(
            u.subrange(c + 1, u.len() as int),
            depth,
        );
    let colon = k + c0;
    assert(u.subrange(0, c0) =~= s.subrange(k, colon));
    assert(u.subrange(c0 + 1, u.len() as int) =~= s.subrange(colon + 1, m));
    assert(s[colon] == u[c0]);
    let w = s.subrange(k, colon);
    let (a, b) = choose|a: int, b: int|
        #![trigger w.subrange(0, a), w.subrange(a, b)]
        0 <= a <= b <= w.len() && all_ws(w.subrange(0, a)) && json_string(w.subrange(a, b))
            && all_ws(w.subrange(b, w.len() as int));
    assert(w.subrange(0, a) =~= s.subrange(k, k + a));
    assert(w.subrange(a, b) =~= s.subrange(k + a, k + b));
    assert(w.subrange(b, w.len() as int) =~= s.subrange(k + b, colon));
    assert(s.subrange(k + a, k + b)[0] == s[k + a]);
    lemma_ws_to(s, k, k + a);
    lemma_string_complete(s, k + a, k + b);
    lemma_ws_to(s, k + a, k + a);
    assert(s.subrange(k + a, k + a) =~= Seq::<u8>::empty());
    lemma_ws_to(s, k + b, colon);
    lemma_element_complete(s, colon + 1, m, depth);
}

/// A value starts and ends with ASCII bytes.
pub(crate) proof fn lemma_value_ascii_ends(t: Seq<u8>, depth: nat)
    requires
        json_value(t, depth),
    ensures
        t.len() >= 1,
        t[0] < 0x80,
        t[t.len() - 1] < 0x80,
{
    lemma_value_first(t, depth);
    if rfc_number(t) {
        let (a, b, c) = choose|a: int, b: int, c: int|
            #![trigger t.subrange(a, b), t.subrange(b, c)]
            0 <= a <= 1 && a <= b <= c <= t.len() && (a == 1 ==> t[0] == 0x2d) && rfc_int(
                t.subrange(a, b),
            ) && rfc_frac(t.subrange(b, c)) && rfc_exp(t.subrange(c, t.len() as int));
        let n = t.len() as int;
        let exp = t.subrange(c, n);
        let frac = t.subrange(b, c);
        let int_part = t.subrange(a, b);
        if c < n {
            assert(exp[exp.len() - 1] == t[n - 1]);
            if exp.len() >= 3 && (exp[1] == 0x2b || exp[1] == 0x2d) && all_digits(
                exp.subrange(2, exp.len() as int),
            ) {
                assert(exp.subrange(2, exp.len() as int)[exp.len() - 3] == exp[exp.len() - 1]);
            } else {
                assert(exp.subrange(1, exp.len() as int)[exp.len() - 2] == exp[exp.len() - 1]);
            }
        } else if b < c {
            assert(frac[frac.len() - 1] == t[c - 1]);
            assert(frac.subrange(1, frac.len() as int)[frac.len() - 2] == frac[frac.len() - 1]);
        } else {
            assert(int_part[int_part.len() - 1] == t[b - 1]);
            assert(int_part.len() >= 1);
        }
    }
}

} // verus!
