//! Properties that relate several operations of the library.
use crate::canonical::{first_occurrence, lemma_first_occurrence, plain_string_at};
use crate::grammar::{
    byte_at, chars_of, false_literal, lemma_next_special_props, lemma_skip_ws,
    lemma_string_rest_decodes, lemma_string_rest_from_special, literal, next_special, null_literal,
    parse_string, skip_string, skip_ws, string_rest, true_literal, number, rfc_number,
    digits_end, digit_at, lemma_rfc_int_part, lemma_rfc_frac_part, lemma_rfc_exp_part,
    member_start, member_walk, member_names, object_rest, lemma_member_walk_shift,
    lemma_object_rest_unfold, lemma_value_progress, skip_value, lemma_digits_end, is_digit,
    lemma_boundary_after_ascii, lemma_boundary_at_ascii, escaped_rest, hex_digit,
};
use crate::de::{object_opens, opened_object, visit_opens, Deserializer, Object};
use crate::error::{Error, ErrorCode};
use crate::ser::{
    closing, hex_char, CompactFormatter, CompoundState, Formatter, Kind, PrettyFormatter, Wrapper,
};
use crate::round_trip::lemma_next_special_at;
use crate::syntax::{
    all_ws, ends_value, json_string, json_value, lemma_number_complete, lemma_string_complete,
    lemma_value_complete, lemma_value_sound, lemma_value_ascii_ends,
};
use crate::swar::is_first_special;
use crate::value::{decode_token, replaced, resolve, step, Value};
use vstd::prelude::*;
use vstd::utf8::*;

verus! {

/// The offset that the string scan reports is determined by the bytes: two
/// answers that both meet its contract are the same answer.
pub proof fn law_first_special_is_unique(bytes: Seq<u8>, a: Option<usize>, b: Option<usize>)
    requires
        is_first_special(bytes, a),
        is_first_special(bytes, b),
    ensures
        a == b,
{
    match (a, b) {
        (Some(x), Some(y)) => {
            if x < y {
                assert(!crate::swar::is_string_special(bytes[x as int]));
            } else if y < x {
                assert(!crate::swar::is_string_special(bytes[y as int]));
            }
        },
        (Some(x), None) => {
            assert(!crate::swar::is_string_special(bytes[x as int]));
        },
        (None, Some(y)) => {
            assert(!crate::swar::is_string_special(bytes[y as int]));
        },
        (None, None) => {},
    }
}

/// Reading an object key right after writing it gives the value written;
/// every other key keeps whether it is present and its value.
pub proof fn law_read_after_write<V>(m: Map<Seq<char>, V>, key: Seq<char>, value: V, other: Seq<char>)
    ensures
        m.insert(key, value).contains_key(key),
        m.insert(key, value)[key] == value,
        other != key ==> m.insert(key, value).contains_key(other) == m.contains_key(other),
        other != key && m.contains_key(other) ==> m.insert(key, value)[other] == m[other],
{
}

/// Writing a key twice keeps only the last value.
pub proof fn law_last_write_wins<V>(m: Map<Seq<char>, V>, key: Seq<char>, first: V, second: V)
    ensures
        m.insert(key, first).insert(key, second) == m.insert(key, second),
{
    assert(m.insert(key, first).insert(key, second) =~= m.insert(key, second));
}

/// A removed key is absent, and removing undoes inserting a key that was absent.
pub proof fn law_remove_after_insert<V>(m: Map<Seq<char>, V>, key: Seq<char>, value: V)
    ensures
        !m.insert(key, value).remove(key).contains_key(key),
        !m.contains_key(key) ==> m.insert(key, value).remove(key) == m,
{
    if !m.contains_key(key) {
        assert(m.insert(key, value).remove(key) =~= m);
    }
}

/// Inserting a key that is absent adds one entry; replacing one keeps the count.
pub proof fn law_insert_count<V>(m: Map<Seq<char>, V>, key: Seq<char>, value: V)
    requires
        m.dom().finite(),
    ensures
        m.contains_key(key) ==> m.insert(key, value).len() == m.len(),
        !m.contains_key(key) ==> m.insert(key, value).len() == m.len() + 1,
{
    if m.contains_key(key) {
        assert(m.insert(key, value).dom() =~= m.dom());
    } else {
        assert(m.insert(key, value).dom() =~= m.dom().insert(key));
    }
}

/// After a value is changed in place through a pointer, following the same
/// pointer reaches the new value.
pub proof fn law_pointer_reads_what_was_written(
    before: Value,
    after: Value,
    tokens: Seq<Seq<u8>>,
    leaf: Value,
)
    requires
        replaced(before, after, tokens, leaf),
    ensures
        resolve(after, tokens) == Some(leaf),
    decreases tokens.len(),
{
    if tokens.len() > 0 {
        let t = decode_token(tokens[0]);
        match (step(before, t), step(after, t)) {
            (Some(c), Some(c2)) => {
                law_pointer_reads_what_was_written(c, c2, tokens.drop_first(), leaf);
            },
            _ => {},
        }
    }
}

/// The text written for a boolean reads back as that boolean, and the text
/// written for `null` reads back as `null`.
pub proof fn law_literals_read_back()
    ensures
        ({
            let t = seq![0x74u8, 0x72u8, 0x75u8, 0x65u8];
            skip_ws(t, 0) == 0 && byte_at(t, 0) == Some(0x74u8) && literal(t, 0, true_literal())
                == Ok::<int, (crate::error::ErrorCode, int)>(4)
        }),
        ({
            let f = seq![0x66u8, 0x61u8, 0x6cu8, 0x73u8, 0x65u8];
            skip_ws(f, 0) == 0 && byte_at(f, 0) == Some(0x66u8) && literal(f, 0, false_literal())
                == Ok::<int, (crate::error::ErrorCode, int)>(5)
        }),
        ({
            let n = seq![0x6eu8, 0x75u8, 0x6cu8, 0x6cu8];
            skip_ws(n, 0) == 0 && byte_at(n, 0) == Some(0x6eu8) && literal(n, 0, null_literal())
                == Ok::<int, (crate::error::ErrorCode, int)>(4)
        }),
{
    let t = seq![0x74u8, 0x72u8, 0x75u8, 0x65u8];
    let f = seq![0x66u8, 0x61u8, 0x6cu8, 0x73u8, 0x65u8];
    let n = seq![0x6eu8, 0x75u8, 0x6cu8, 0x6cu8];
    assert(t.subrange(0, 4) =~= true_literal());
    assert(f.subrange(0, 5) =~= false_literal());
    assert(n.subrange(0, 4) =~= null_literal());
}


/// A string that the canonical recognizer accepts is read the same way by the
/// general parser: the same characters, borrowed, ending at the same place.
pub proof fn law_canonical_string_agrees(r: Seq<u8>)
    requires
        valid_utf8(r),
        plain_string_at(r) is Some,
    ensures
        plain_string_at(r) matches Some((body, used)) && parse_string(r, 0) == Ok::<
            (Seq<char>, bool, int),
            (crate::error::ErrorCode, int),
        >((decode_utf8(body), true, used)),
{
    let rest = r.subrange(1, r.len() as int);
    lemma_first_occurrence(rest, 0x22, 0);
    let e = match first_occurrence(rest, 0x22, 0) {
        Some(i) => i,
        None => 0,
    };
    let body = rest.subrange(0, e);
    assert(skip_ws(r, 0) == 0);
    assert forall|j: int| 1 <= j < 1 + e implies !crate::swar::is_string_special(#[trigger] r[j]) by {
        assert(r[j] == rest[j - 1]);
        assert(body[j - 1] == rest[j - 1]);
        assert(!(body[j - 1] == 0x5c || body[j - 1] < 0x20));
    }
    assert(r[1 + e] == rest[e]);
    lemma_next_special_at(r, 1, 1 + e);
    assert(r.subrange(1, 1 + e) =~= body);
}

/// Validating a string without decoding it accepts exactly the strings that
/// decoding accepts, and stops at the same byte.
pub proof fn law_string_scans_agree(s: Seq<u8>, i: int)
    requires
        0 <= i <= s.len(),
    ensures
        skip_string(s, i) is Ok <==> parse_string(s, i) is Ok,
        skip_string(s, i) is Ok ==> skip_string(s, i)->Ok_0 == parse_string(s, i)->Ok_0.2,
{
    lemma_skip_ws(s, i);
    let j = skip_ws(s, i);
    if byte_at(s, j) == Some(0x22u8) && valid_utf8(s) {
        let start = j + 1;
        lemma_next_special_props(s, start);
        match next_special(s, start) {
            Some(p) => {
                lemma_string_rest_from_special(s, start, p);
                lemma_next_special_props(s, p);
                assert(next_special(s, p) == Some(p));
                lemma_string_rest_decodes(s, p, chars_of(s, start, p));
            },
            None => {
                assert(string_rest(s, start) is Err);
            },
        }
    }
}

/// The number grammar accepts only numbers of RFC 8259's form, and a token it
/// accepts is not followed by another digit. The token is negative exactly
/// when it starts with `-`, and is read as a float exactly when it holds a
/// point or an exponent.
pub proof fn law_number_is_rfc(s: Seq<u8>, j: int)
    requires
        0 <= j <= s.len(),
    ensures
        number(s, j) matches Ok(shape) ==> j < shape.end <= s.len() && rfc_number(
            s.subrange(j, shape.end),
        ) && !digit_at(s, shape.end),
        number(s, j) matches Ok(shape) ==> shape.negative == (s[j] == 0x2d) && (shape.float
            <==> exists|q: int| j <= q < shape.end && is_float_mark(#[trigger] s[q])),
{
    if let Ok(shape) = number(s, j) {
        let k = if byte_at(s, j) == Some(0x2du8) {
            j + 1
        } else {
            j
        };
        lemma_rfc_int_part(s, k);
        let k1 = if byte_at(s, k) == Some(0x30u8) {
            k + 1
        } else {
            digits_end(s, k)
        };
        lemma_rfc_frac_part(s, k1);
        let k2 = if byte_at(s, k1) == Some(0x2eu8) {
            digits_end(s, k1 + 1)
        } else {
            k1
        };
        let end = shape.end;
        if byte_at(s, k2) == Some(0x65u8) || byte_at(s, k2) == Some(0x45u8) {
            let k3 = if byte_at(s, k2 + 1) == Some(0x2bu8) || byte_at(s, k2 + 1) == Some(0x2du8) {
                k2 + 2
            } else {
                k2 + 1
            };
            lemma_rfc_exp_part(s, k2, k3);
            assert(end == digits_end(s, k3));
        } else {
            assert(end == k2);
            assert(s.subrange(k2, end) =~= Seq::<u8>::empty());
        }
        let t = s.subrange(j, end);
        assert(t.subrange(k - j, k1 - j) =~= s.subrange(k, k1));
        assert(t.subrange(k1 - j, k2 - j) =~= s.subrange(k1, k2));
        assert(t.subrange(k2 - j, t.len() as int) =~= s.subrange(k2, end));
        assert(rfc_number(t));
        assert(shape.negative == (s[j] == 0x2d));
        if byte_at(s, k1) == Some(0x2eu8) {
            assert(shape.float);
            lemma_digits_end(s, k1 + 1);
            assert(k2 > k1);
            assert(end >= k2);
            assert(k1 < end);
            assert(is_float_mark(s[k1]));
        } else if byte_at(s, k2) == Some(0x65u8) || byte_at(s, k2) == Some(0x45u8) {
            assert(shape.float);
            assert(k2 < end);
            assert(is_float_mark(s[k2]));
        } else {
            assert(end == k1);
            assert(!shape.float);
            if byte_at(s, k) != Some(0x30u8) {
                lemma_digits_end(s, k);
            }
            assert forall|q: int| j <= q < end implies !is_float_mark(#[trigger] s[q]) by {
                if q >= k && byte_at(s, k) != Some(0x30u8) {
                    assert(is_digit(s[q]));
                }
            }
        }
    }
}

/// A byte that makes a number token a float: a point or an exponent mark.
pub open spec fn is_float_mark(b: u8) -> bool {
    b == 0x2e || b == 0x65 || b == 0x45
}

/// Two parsers that read the same bytes from the same place at the same
/// depth get the same outcome from an object visit: whether the object opens,
/// the object handed to the visitor, and the errors before it. A cursor made
/// from a text and one made from the text's bytes are two such parsers.
pub proof fn law_same_bytes_same_visit<'de, T>(
    a: Deserializer<'de>,
    b: Deserializer<'de>,
    r: Result<T, Error>,
    after: Deserializer<'de>,
    object: Object<'de>,
)
    requires
        a.spec_input() == b.spec_input(),
        a.spec_index() == b.spec_index(),
        a.spec_depth() == b.spec_depth(),
    ensures
        object_opens(a) == object_opens(b),
        opened_object(object, a) == opened_object(object, b),
        visit_opens(r, a, after) == visit_opens(r, b, after),
{
}

/// Reading a well-formed object member by member from `k` meets its members
/// in document order: the `i`-th step finds a member named `names[i]`, and the
/// step after the last member finds the closing `}`, where the whole object
/// ends.
#[verifier::rlimit(60)]
#[verifier::spinoff_prover]
pub proof fn law_fields_in_order(s: Seq<u8>, k: int, first: bool, depth: nat)
    requires
        0 <= k <= s.len(),
        object_rest(s, k, first, depth) is Ok,
    ensures
        ({
            let names = member_names(s, k, first, depth);
            &&& forall|i: int|
                0 <= i < names.len() ==> (#[trigger] member_walk(s, k, first, depth, i as nat) matches Some(
                    (p, f),
                ) && member_start(s, p, f) matches Ok((closed, name, _, _)) && !closed && name
                    == names[i])
            &&& member_walk(s, k, first, depth, names.len()) matches Some((p, f)) && member_start(
                s,
                p,
                f,
            ) matches Ok((closed, _, _, end)) && closed && object_rest(s, k, first, depth) == Ok::<
                int,
                (crate::error::ErrorCode, int),
            >(end)
        }),
    decreases s.len() - k,
{
    lemma_object_rest_unfold(s, k, first, depth);
    let names = member_names(s, k, first, depth);
    match member_start(s, k, first) {
        Ok((closed, name, _, v0)) => {
            if closed {
                assert(names =~= Seq::<Seq<char>>::empty());
            } else {
                lemma_value_progress(s, v0, depth);
                assert(skip_value(s, v0, depth) is Ok);
                let v = match skip_value(s, v0, depth) {
                    Ok(v) => v,
                    Err(_) => 0,
                };
                assert(k < v <= s.len());
                assert(member_walk(s, k, first, depth, 0) == Some((k, first)));
                assert(member_walk(s, k, first, depth, 1) == Some((v, false)));
                law_fields_in_order(s, v, false, depth);
                let rest = member_names(s, v, false, depth);
                assert(names == seq![name] + rest);
                assert forall|i: int|
                    0 <= i < names.len() implies (#[trigger] member_walk(
                    s,
                    k,
                    first,
                    depth,
                    i as nat,
                ) matches Some((p, f)) && member_start(s, p, f) matches Ok((closed, nm, _, _))
                    && !closed && nm == names[i]) by {
                    if i > 0 {
                        lemma_member_walk_shift(s, k, first, depth, v, (i - 1) as nat);
                        assert(member_walk(s, v, false, depth, (i - 1) as nat) is Some);
                        assert(names[i] == rest[i - 1]);
                    }
                }
                lemma_member_walk_shift(s, k, first, depth, v, rest.len());
            }
        },
        Err(_) => {},
    }
}

/// Skipping a value (as `Field::skip`, `skip_value` and `capture_raw` do)
/// succeeds only on whitespace followed by one complete JSON value, in the
/// sense of `json_value`, whose arrays and objects stay within the nesting
/// limit; it stops just after that value.
pub proof fn law_skipped_value_is_json(s: Seq<u8>, i: int, depth: nat)
    requires
        0 <= i <= s.len(),
    ensures
        skip_value(s, i, depth) matches Ok(e) ==> ({
            let j = skip_ws(s, i);
            &&& i <= j < e <= s.len()
            &&& all_ws(s.subrange(i, j))
            &&& json_value(s.subrange(j, e), depth)
        }),
{
    lemma_value_sound(s, i, depth);
}

/// Every JSON value is accepted: in well-formed UTF-8, whitespace followed by
/// one value in the sense of `json_value`, ending where the input ends or
/// where a byte that may follow a value stands, is skipped exactly to the end
/// of that value. With `law_skipped_value_is_json`, skipping a value accepts
/// exactly the JSON values within the nesting limit.
pub proof fn law_json_value_is_accepted(s: Seq<u8>, i: int, j: int, e: int, depth: nat)
    requires
        valid_utf8(s),
        0 <= i <= j <= e <= s.len(),
        all_ws(s.subrange(i, j)),
        json_value(s.subrange(j, e), depth),
        ends_value(s, e),
    ensures
        skip_value(s, i, depth) == Ok::<int, (crate::error::ErrorCode, int)>(e),
{
    lemma_value_complete(s, i, j, e, depth);
}

/// Every JSON string in well-formed UTF-8 is decoded, and validated, through
/// its closing quote.
pub proof fn law_json_string_is_accepted(s: Seq<u8>, j: int, e: int)
    requires
        valid_utf8(s),
        0 <= j < e <= s.len(),
        json_string(s.subrange(j, e)),
    ensures
        parse_string(s, j) matches Ok((_, _, end)) && end == e,
        skip_string(s, j) == Ok::<int, (crate::error::ErrorCode, int)>(e),
{
    lemma_string_complete(s, j, e);
}

/// Every number of RFC 8259's form, where nothing can continue it, is read
/// by the number grammar to its end.
pub proof fn law_rfc_number_is_accepted(s: Seq<u8>, j: int, e: int)
    requires
        0 <= j < e <= s.len(),
        rfc_number(s.subrange(j, e)),
        ends_value(s, e),
    ensures
        number(s, j) matches Ok(shape) && shape.end == e,
{
    lemma_number_complete(s, j, e);
}

/// In well-formed UTF-8, the text of a skipped value is well-formed UTF-8 on
/// its own: it starts and ends at character boundaries. So capturing a value
/// from valid input succeeds exactly when skipping it does.
pub proof fn law_value_text_is_utf8(s: Seq<u8>, i: int, depth: nat)
    requires
        valid_utf8(s),
        0 <= i <= s.len(),
    ensures
        skip_value(s, i, depth) matches Ok(e) ==> valid_utf8(s.subrange(skip_ws(s, i), e)),
{
    lemma_value_sound(s, i, depth);
    if let Ok(e) = skip_value(s, i, depth) {
        let j = skip_ws(s, i);
        let t = s.subrange(j, e);
        lemma_value_ascii_ends(t, depth);
        assert(t[0] == s[j] && t[t.len() - 1] == s[e - 1]);
        lemma_boundary_at_ascii(s, j);
        valid_utf8_split(s, j);
        let r = s.subrange(j, s.len() as int);
        assert(r[e - j - 1] == s[e - 1]);
        lemma_boundary_after_ascii(r, e - j - 1);
        valid_utf8_split(r, e - j);
        assert(r.subrange(0, e - j) =~= t);
    }
}

/// Each two-character escape decodes to the character RFC 8259 gives it
/// (section 7): `\"` a quotation mark, `\\` a reverse solidus, `\/` a
/// solidus, and `\b`, `\f`, `\n`, `\r`, `\t` backspace, form feed, line
/// feed, carriage return and tab. Decoding goes on after the escape with that
/// character added.
pub proof fn law_short_escapes_decode(s: Seq<u8>, k: int, acc: Seq<char>)
    requires
        0 <= k,
        k + 1 < s.len(),
        s[k] == 0x5c,
    ensures
        s[k + 1] == 0x22 ==> escaped_rest(s, k, acc) == escaped_rest(s, k + 2, acc.push('"')),
        s[k + 1] == 0x5c ==> escaped_rest(s, k, acc) == escaped_rest(s, k + 2, acc.push('\\')),
        s[k + 1] == 0x2f ==> escaped_rest(s, k, acc) == escaped_rest(s, k + 2, acc.push('/')),
        s[k + 1] == 0x62 ==> escaped_rest(s, k, acc) == escaped_rest(
            s,
            k + 2,
            acc.push(8u8 as char),
        ),
        s[k + 1] == 0x66 ==> escaped_rest(s, k, acc) == escaped_rest(
            s,
            k + 2,
            acc.push(12u8 as char),
        ),
        s[k + 1] == 0x6e ==> escaped_rest(s, k, acc) == escaped_rest(
            s,
            k + 2,
            acc.push(10u8 as char),
        ),
        s[k + 1] == 0x72 ==> escaped_rest(s, k, acc) == escaped_rest(
            s,
            k + 2,
            acc.push(13u8 as char),
        ),
        s[k + 1] == 0x74 ==> escaped_rest(s, k, acc) == escaped_rest(
            s,
            k + 2,
            acc.push(9u8 as char),
        ),
{
}

/// Hexadecimal digits read back as the writer writes them, and an uppercase
/// letter digit has the same value as its lowercase form: `A` to `F` are ten
/// to fifteen, like `a` to `f`.
pub proof fn law_hex_digits_read_back()
    ensures
        forall|n: u8| n < 16 ==> hex_digit(#[trigger] hex_char(n)) == Some(n),
        forall|b: u8|
            0x41 <= b <= 0x46 ==> #[trigger] hex_digit(b) == hex_digit((b + 0x20) as u8),
{
}

/// A compound wrapped as an enum variant's object closes as the compound on
/// its own, followed by the close of an ordinary object with one member one
/// level further out: a variant is written as the map `{name: value}`.
pub proof fn law_variant_closes_as_object<F: Formatter>(
    kind: Kind,
    state: CompoundState,
    depth: nat,
)
    requires
        depth >= 2,
    ensures
        closing::<F>(kind, state, Wrapper::Object, depth) == closing::<F>(
            kind,
            state,
            Wrapper::Bare,
            depth,
        ) + closing::<F>(Kind::Object, CompoundState::Complete, Wrapper::Bare, (depth - 1) as nat),
{
    assert(closing::<F>(kind, state, Wrapper::Object, depth) =~= closing::<F>(
        kind,
        state,
        Wrapper::Bare,
        depth,
    ) + closing::<F>(Kind::Object, CompoundState::Complete, Wrapper::Bare, (depth - 1) as nat));
}

/// A `\u` escape of four hexadecimal digits decodes to the code unit the
/// digits write, most significant first; a high-surrogate escape followed by
/// a low-surrogate escape decodes to the one character UTF-16 pairs them into.
pub proof fn law_unicode_escapes_decode(
    s: Seq<u8>,
    k: int,
    acc: Seq<char>,
    a: u8,
    b: u8,
    c: u8,
    d: u8,
)
    requires
        0 <= k,
        k + 6 <= s.len(),
        a < 16 && b < 16 && c < 16 && d < 16,
        s[k] == 0x5c,
        s[k + 1] == 0x75,
        s[k + 2] == hex_char(a),
        s[k + 3] == hex_char(b),
        s[k + 4] == hex_char(c),
        s[k + 5] == hex_char(d),
    ensures
        ({
            let code = a * 4096 + b * 256 + c * 16 + d;
            &&& !(0xD800 <= code <= 0xDFFF) ==> escaped_rest(s, k, acc) == escaped_rest(
                s,
                k + 6,
                acc.push((code as u32) as char),
            )
            &&& 0xDC00 <= code <= 0xDFFF ==> escaped_rest(s, k, acc) is Err
        }),
{
    law_hex_digits_read_back();
    assert(hex_digit(hex_char(a)) == Some(a));
    assert(hex_digit(hex_char(b)) == Some(b));
    assert(hex_digit(hex_char(c)) == Some(c));
    assert(hex_digit(hex_char(d)) == Some(d));
}

/// A high-surrogate `\u` escape followed by a low-surrogate one decodes to
/// the character that UTF-16 pairs them into.
pub proof fn law_surrogate_pairs_decode(
    s: Seq<u8>,
    k: int,
    acc: Seq<char>,
    high: Seq<u8>,
    low: Seq<u8>,
)
    requires
        0 <= k,
        k + 12 <= s.len(),
        high.len() == 4 && low.len() == 4,
        forall|q: int| 0 <= q < 4 ==> high[q] < 16 && low[q] < 16,
        s[k] == 0x5c && s[k + 1] == 0x75 && s[k + 6] == 0x5c && s[k + 7] == 0x75,
        forall|q: int| 0 <= q < 4 ==> s[k + 2 + q] == hex_char(#[trigger] high[q]),
        forall|q: int| 0 <= q < 4 ==> s[k + 8 + q] == hex_char(#[trigger] low[q]),
    ensures
        ({
            let h = high[0] * 4096 + high[1] * 256 + high[2] * 16 + high[3];
            let l = low[0] * 4096 + low[1] * 256 + low[2] * 16 + low[3];
            0xD800 <= h <= 0xDBFF && 0xDC00 <= l <= 0xDFFF ==> escaped_rest(s, k, acc)
                == escaped_rest(
                s,
                k + 12,
                acc.push(((0x1_0000 + (h - 0xD800) * 0x400 + (l - 0xDC00)) as u32) as char),
            )
        }),
{
    law_hex_digits_read_back();
    assert forall|q: int| 0 <= q < 4 implies hex_digit(s[k + 2 + q]) == Some(high[q]) && hex_digit(
        s[k + 8 + q],
    ) == Some(low[q]) by {
        assert(hex_digit(hex_char(high[q])) == Some(high[q]));
        assert(hex_digit(hex_char(low[q])) == Some(low[q]));
    }
    assert(hex_digit(s[k + 2]) == Some(high[0]));
    assert(hex_digit(s[k + 3]) == Some(high[1]));
    assert(hex_digit(s[k + 4]) == Some(high[2]));
    assert(hex_digit(s[k + 5]) == Some(high[3]));
    assert(hex_digit(s[k + 8]) == Some(low[0]));
    assert(hex_digit(s[k + 9]) == Some(low[1]));
    assert(hex_digit(s[k + 10]) == Some(low[2]));
    assert(hex_digit(s[k + 11]) == Some(low[3]));
}

/// How an array or object closes: in compact output, with its bracket alone;
/// in pretty output, an empty one with its bracket alone, and one with
/// members on a new line indented two spaces for each enclosing level, so
/// that the bracket lines up with the line that opened it.
pub proof fn law_compound_closing_layout(state: CompoundState, depth: nat)
    requires
        depth >= 1,
        state != CompoundState::KeyPending,
    ensures
        closing::<CompactFormatter>(Kind::Array, state, Wrapper::Bare, depth) == seq![0x5du8],
        closing::<CompactFormatter>(Kind::Object, state, Wrapper::Bare, depth) == seq![0x7du8],
        state == CompoundState::Empty ==> closing::<PrettyFormatter>(
            Kind::Array,
            state,
            Wrapper::Bare,
            depth,
        ) == seq![0x5du8],
        state == CompoundState::Empty ==> closing::<PrettyFormatter>(
            Kind::Object,
            state,
            Wrapper::Bare,
            depth,
        ) == seq![0x7du8],
        state == CompoundState::Complete ==> closing::<PrettyFormatter>(
            Kind::Array,
            state,
            Wrapper::Bare,
            depth,
        ) == seq![0x0au8] + Seq::new((2 * (depth - 1)) as nat, |i: int| 0x20u8) + seq![0x5du8],
        state == CompoundState::Complete ==> closing::<PrettyFormatter>(
            Kind::Object,
            state,
            Wrapper::Bare,
            depth,
        ) == seq![0x0au8] + Seq::new((2 * (depth - 1)) as nat, |i: int| 0x20u8) + seq![0x7du8],
{
    assert(closing::<CompactFormatter>(Kind::Array, state, Wrapper::Bare, depth) =~= seq![0x5du8]);
    assert(closing::<CompactFormatter>(Kind::Object, state, Wrapper::Bare, depth) =~= seq![0x7du8]);
    if state == CompoundState::Empty {
        assert(closing::<PrettyFormatter>(Kind::Array, state, Wrapper::Bare, depth) =~= seq![0x5du8]);
        assert(closing::<PrettyFormatter>(Kind::Object, state, Wrapper::Bare, depth) =~= seq![
            0x7du8,
        ]);
    } else {
        assert(closing::<PrettyFormatter>(Kind::Array, state, Wrapper::Bare, depth) =~= seq![
            0x0au8,
        ] + Seq::new((2 * (depth - 1)) as nat, |i: int| 0x20u8) + seq![0x5du8]);
        assert(closing::<PrettyFormatter>(Kind::Object, state, Wrapper::Bare, depth) =~= seq![
            0x0au8,
        ] + Seq::new((2 * (depth - 1)) as nat, |i: int| 0x20u8) + seq![0x7du8]);
    }
}

} // verus!
