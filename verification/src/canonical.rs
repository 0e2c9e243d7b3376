//! A zero-allocation recognizer for a known canonical JSON layout.
use crate::foreign::str_from_utf8;
use crate::grammar::{digit_at, digits_end, digits_value, is_digit};
use vstd::prelude::*;
use vstd::string::StringSliceAdditionalSpecFns;
use vstd::utf8::valid_utf8;

verus! {

/// The first position at or after `from` that holds `needle`.
pub open spec fn first_occurrence(bytes: Seq<u8>, needle: u8, from: int) -> Option<int>
    decreases bytes.len() - from,
{
    if from < 0 || from >= bytes.len() {
        None
    } else if bytes[from] == needle {
        Some(from)
    } else {
        first_occurrence(bytes, needle, from + 1)
    }
}

/// Finds the first occurrence of a byte with the `memchr` crate.
///
/// Calls `memchr::memchr(needle, haystack)`, which the crate documents as
/// returning the index of the first occurrence of `needle`, or `None`.
#[verifier::external_body]
fn find_byte(needle: u8, haystack: &[u8]) -> (found: Option<usize>)
    ensures
        match found {
            Some(i) => first_occurrence(haystack@, needle, 0) == Some(i as int),
            None => first_occurrence(haystack@, needle, 0) is None,
        },
{
    memchr::memchr(needle, haystack)
}

/// A plain string at the start of `r`: a quote, bytes with no escape, no
/// control byte and well-formed UTF-8, and the closing quote. Gives the body
/// and the length consumed.
pub open spec fn plain_string_at(r: Seq<u8>) -> Option<(Seq<u8>, int)> {
    if r.len() == 0 || r[0] != 0x22 {
        None
    } else {
        let rest = r.subrange(1, r.len() as int);
        match first_occurrence(rest, 0x22, 0) {
            None => None,
            Some(end) => {
                let body = rest.subrange(0, end);
                if exists|q: int| 0 <= q < body.len() && (body[q] == 0x5c || body[q] < 0x20) {
                    None
                } else if !valid_utf8(body) {
                    None
                } else {
                    Some((body, end + 2))
                }
            },
        }
    }
}

/// An unsigned integer at the start of `r` with no leading zero that fits
/// in 64 bits: its value and the number of digits.
pub open spec fn unsigned_at(r: Seq<u8>) -> Option<(u64, int)> {
    if !digit_at(r, 0) {
        None
    } else if r[0] == 0x30 && digit_at(r, 1) {
        None
    } else {
        let end = digits_end(r, 0);
        let value = digits_value(r, 0, end);
        if value <= u64::MAX {
            Some((value as u64, end))
        } else {
            None
        }
    }
}

/// `r` starts with `prefix`.
pub open spec fn starts_with(r: Seq<u8>, prefix: Seq<u8>) -> bool {
    prefix.len() <= r.len() && r.subrange(0, prefix.len() as int) == prefix
}

/// A zero-allocation recognizer for a known canonical JSON layout.
///
/// This is not a general JSON parser. It is an optimization primitive for
/// generated or protocol-specific code that first attempts one exact layout
/// and falls back to the general parser when any expectation does not match.
/// Every successful recognizer must consume and check the complete input.
#[derive(Clone, Copy, Debug)]
pub struct CanonicalScanner<'a> {
    remaining: &'a [u8],
}

impl<'a> CanonicalScanner<'a> {
    /// The unmatched suffix.
    pub closed spec fn spec_remaining(&self) -> Seq<u8> {
        self.remaining@
    }

    /// Starts matching an input slice.
    pub fn new(input: &'a [u8]) -> (scanner: Self)
        ensures
            scanner.spec_remaining() == input@,
    {
        CanonicalScanner { remaining: input }
    }

    /// Consumes an exact byte sequence. Returns `None` without advancing when
    /// the sequence does not match.
    pub fn literal(&mut self, expected: &[u8]) -> (r: Option<()>)
        ensures
            starts_with(old(self).spec_remaining(), expected@) ==> r is Some
                && final(self).spec_remaining() == old(self).spec_remaining().subrange(
                expected@.len() as int,
                old(self).spec_remaining().len() as int,
            ),
            !starts_with(old(self).spec_remaining(), expected@) ==> r is None
                && final(self).spec_remaining() == old(self).spec_remaining(),
    {
        if expected.len() > self.remaining.len() {
            return None;
        }
        let mut k: usize = 0;
        while k < expected.len()
            invariant
                expected@.len() <= self.remaining@.len(),
                self.remaining == old(self).remaining,
                k <= expected@.len(),
                forall|j: int| 0 <= j < k ==> self.remaining@[j] == expected@[j],
            decreases expected@.len() - k,
        {
            if self.remaining[k] != expected[k] {
                assert(self.remaining@.subrange(0, expected@.len() as int)[k as int]
                    != expected@[k as int]);
                return None;
            }
            k = k + 1;
        }
        assert(self.remaining@.subrange(0, expected@.len() as int) =~= expected@);
        self.remaining = &self.remaining[expected.len()..self.remaining.len()];
        Some(())
    }

    /// Consumes a JSON string with no escapes and returns its borrowed value.
    /// Escaped strings deliberately return `None` so the caller can use the
    /// general parser instead.
    pub fn plain_string(&mut self) -> (r: Option<&'a str>)
        ensures
            match plain_string_at(old(self).spec_remaining()) {
                Some((body, used)) => r matches Some(text) && text.spec_bytes() == body
                    && final(self).spec_remaining() == old(self).spec_remaining().subrange(
                    used,
                    old(self).spec_remaining().len() as int,
                ),
                None => r is None && final(self).spec_remaining() == old(self).spec_remaining(),
            },
    {
        if self.remaining.len() == 0 || self.remaining[0] != 0x22 {
            return None;
        }
        let input = &self.remaining[1..self.remaining.len()];
        let end = match find_byte(0x22, input) {
            Some(end) => end,
            None => {
                return None;
            },
        };
        proof {
            lemma_first_occurrence(input@, 0x22, 0);
        }
        let value = &input[0..end];
        let mut q: usize = 0;
        while q < value.len()
            invariant
                self.remaining == old(self).remaining,
                self.remaining@.len() > 0 && self.remaining@[0] == 0x22,
                input@ == self.remaining@.subrange(1, self.remaining@.len() as int),
                first_occurrence(input@, 0x22, 0) == Some(end as int),
                value@ == input@.subrange(0, end as int),
                q <= value@.len(),
                forall|j: int| 0 <= j < q ==> !(value@[j] == 0x5c || value@[j] < 0x20),
            decreases value@.len() - q,
        {
            if value[q] == 0x5c || value[q] < 0x20 {
                assert(value@[q as int] == 0x5c || value@[q as int] < 0x20);
                return None;
            }
            q = q + 1;
        }
        let text = match str_from_utf8(value) {
            Some(text) => text,
            None => {
                return None;
            },
        };
        self.remaining = &input[end + 1..input.len()];
        assert(self.remaining@ =~= old(self).remaining@.subrange(
            end + 2,
            old(self).remaining@.len() as int,
        ));
        Some(text)
    }

    /// Consumes one unsigned JSON integer.
    pub fn unsigned(&mut self) -> (r: Option<u64>)
        ensures
            match unsigned_at(old(self).spec_remaining()) {
                Some((value, used)) => r == Some(value) && final(self).spec_remaining()
                    == old(self).spec_remaining().subrange(
                    used,
                    old(self).spec_remaining().len() as int,
                ),
                None => r is None && final(self).spec_remaining() == old(self).spec_remaining(),
            },
    {
        let ghost r0 = self.remaining@;
        if self.remaining.len() == 0 || !(0x30 <= self.remaining[0] && self.remaining[0] <= 0x39) {
            return None;
        }
        if self.remaining[0] == 0x30 && self.remaining.len() > 1 && 0x30 <= self.remaining[1]
            && self.remaining[1] <= 0x39 {
            return None;
        }
        proof {
            crate::grammar::lemma_digits_end(r0, 0);
        }
        let mut value: u64 = 0;
        let mut length: usize = 0;
        while length < self.remaining.len() && 0x30 <= self.remaining[length]
            && self.remaining[length] <= 0x39
            invariant
                self.remaining@ == r0,
                r0 == old(self).remaining@,
                length <= digits_end(r0, 0),
                digits_end(r0, length as int) == digits_end(r0, 0),
                forall|j: int| 0 <= j < digits_end(r0, 0) ==> is_digit(#[trigger] r0[j]),
                value == digits_value(r0, 0, length as int),
            decreases r0.len() - length,
        {
            proof {
                crate::grammar::lemma_digits_value_step(r0, 0, length as int);
                crate::grammar::lemma_digits_end(r0, length as int);
                crate::grammar::lemma_digits_end(r0, length + 1);
            }
            let digit = (self.remaining[length] - 0x30) as u64;
            let scaled = match value.checked_mul(10) {
                Some(scaled) => scaled,
                None => {
                    proof {
                        crate::grammar::lemma_digits_value_grows(
                            r0,
                            0,
                            length + 1,
                            digits_end(r0, 0),
                        );
                    }
                    return None;
                },
            };
            value = match scaled.checked_add(digit) {
                Some(next) => next,
                None => {
                    proof {
                        crate::grammar::lemma_digits_value_grows(
                            r0,
                            0,
                            length + 1,
                            digits_end(r0, 0),
                        );
                    }
                    return None;
                },
            };
            length = length + 1;
        }
        self.remaining = &self.remaining[length..self.remaining.len()];
        Some(value)
    }

    /// Consumes `true` or `false`.
    pub fn boolean(&mut self) -> (r: Option<bool>)
        ensures
            starts_with(old(self).spec_remaining(), seq![0x74u8, 0x72, 0x75, 0x65]) ==> r == Some(
                true,
            ) && final(self).spec_remaining() == old(self).spec_remaining().subrange(
                4,
                old(self).spec_remaining().len() as int,
            ),
            !starts_with(old(self).spec_remaining(), seq![0x74u8, 0x72, 0x75, 0x65])
                && starts_with(old(self).spec_remaining(), seq![0x66u8, 0x61, 0x6c, 0x73, 0x65])
                ==> r == Some(false) && final(self).spec_remaining()
                == old(self).spec_remaining().subrange(5, old(self).spec_remaining().len() as int),
            !starts_with(old(self).spec_remaining(), seq![0x74u8, 0x72, 0x75, 0x65])
                && !starts_with(old(self).spec_remaining(), seq![0x66u8, 0x61, 0x6c, 0x73, 0x65])
                ==> r is None && final(self).spec_remaining() == old(self).spec_remaining(),
    {
        let t: [u8; 4] = [0x74, 0x72, 0x75, 0x65];
        let f: [u8; 5] = [0x66, 0x61, 0x6c, 0x73, 0x65];
        assert(t@ =~= seq![0x74u8, 0x72, 0x75, 0x65]);
        assert(f@ =~= seq![0x66u8, 0x61, 0x6c, 0x73, 0x65]);
        if self.literal(&t).is_some() {
            Some(true)
        } else if self.literal(&f).is_some() {
            Some(false)
        } else {
            None
        }
    }

    /// Returns the unmatched suffix.
    pub fn remaining(&self) -> (rest: &'a [u8])
        ensures
            rest@ == self.spec_remaining(),
    {
        self.remaining
    }

    /// Returns true only when the recognizer consumed the complete input.
    pub fn is_finished(&self) -> (finished: bool)
        ensures
            finished == (self.spec_remaining().len() == 0),
    {
        self.remaining.len() == 0
    }
}

pub proof fn lemma_first_occurrence(bytes: Seq<u8>, needle: u8, from: int)
    requires
        0 <= from <= bytes.len(),
    ensures
        match first_occurrence(bytes, needle, from) {
            Some(i) => from <= i < bytes.len() && bytes[i] == needle && forall|j: int|
                from <= j < i ==> bytes[j] != needle,
            None => forall|j: int| from <= j < bytes.len() ==> bytes[j] != needle,
        },
    decreases bytes.len() - from,
{
    if from < bytes.len() && bytes[from] != needle {
        lemma_first_occurrence(bytes, needle, from + 1);
    }
}

} // verus!
