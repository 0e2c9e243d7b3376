//! The parser: a position in a JSON byte slice and the operations that
//! recognize, validate, decode or skip the next piece of JSON.
use crate::error::{Error, ErrorCode};
use crate::raw::RawJson;
use crate::foreign::{char_from_u32, str_from_utf8, str_range, string_push};
use crate::grammar;
use crate::grammar::{
    byte_at, chars_of, digits_end, digits_value, escaped_rest, array_items, false_literal, member_start, object_rest, integer_digits, is_digit, null_literal, object_members,
    true_literal, magnitude_of, number, signed_integer, u64_digits,
    unsigned_integer, wide_integer, wide_unsigned, expect, hex_digit, hex_quad, lemma_skip_ws, literal, skip_ws,
    string_rest, unicode_escape, Scan, MAX_DEPTH,
};
use crate::swar::find_string_special;
use std::borrow::Cow;
use vstd::prelude::*;
use vstd::string::StringExecFns;
use vstd::string::StringSliceAdditionalSpecFns;
use vstd::utf8::*;

verus! {

/// A zero-copy JSON parser over a byte slice.
pub struct Deserializer<'de> {
    input: &'de [u8],
    source: Option<&'de str>,
    index: usize,
    depth: usize,
}

/// The outcome of an operation matches the grammar: on success the parser
/// stands after the recognized piece, on failure it reports the error at the
/// position where it stopped.
pub open spec fn follows<T>(r: Result<T, Error>, scan: Scan, input: Seq<u8>, index: int) -> bool {
    match scan {
        Ok(end) => r is Ok && index == end,
        Err((code, at)) => r matches Err(e) && e.is_syntax(code, input, at) && index == at,
    }
}

impl<'de> Deserializer<'de> {
    #[verifier::type_invariant]
    spec fn well_formed(self) -> bool {
        &&& self.index <= self.input@.len()
        &&& self.input@.len() < usize::MAX
        &&& self.depth <= MAX_DEPTH
        &&& match self.source {
            Some(text) => text.spec_bytes() == self.input@,
            None => true,
        }
    }

    /// The bytes being parsed.
    pub closed spec fn spec_input(&self) -> Seq<u8> {
        self.input@
    }

    /// The position of the next unread byte.
    pub closed spec fn spec_index(&self) -> int {
        self.index as int
    }

    /// How many arrays and objects are open.
    pub closed spec fn spec_depth(&self) -> nat {
        self.depth as nat
    }

    /// Starts parsing a byte slice.
    pub fn from_slice(input: &'de [u8]) -> (parser: Self)
        requires
            input@.len() < usize::MAX,
        ensures
            parser.spec_input() == input@,
            parser.spec_index() == 0,
            parser.spec_depth() == 0,
    {
        Deserializer { input, source: None, index: 0, depth: 0 }
    }

    /// Starts parsing a UTF-8 string.
    pub fn from_str(input: &'de str) -> (parser: Self)
        requires
            input.spec_bytes().len() < usize::MAX,
        ensures
            parser.spec_input() == input.spec_bytes(),
            parser.spec_index() == 0,
            parser.spec_depth() == 0,
    {
        Deserializer { input: input.as_bytes(), source: Some(input), index: 0, depth: 0 }
    }

    /// The number of bytes not read yet.
    pub fn remaining_len(&self) -> (count: usize)
        ensures
            0 <= self.spec_index() <= self.spec_input().len(),
            count == self.spec_input().len() - self.spec_index(),
    {
        proof {
            use_type_invariant(self);
        }
        self.input.len() - self.index
    }

    /// The bytes not read yet.
    pub fn rest(&self) -> (rest: &'de [u8])
        ensures
            rest@ == self.spec_input().subrange(self.spec_index(), self.spec_input().len() as int),
    {
        proof {
            use_type_invariant(self);
        }
        &self.input[self.index..self.input.len()]
    }

    /// Moves past `count` bytes that a caller has read from `rest`.
    pub fn advance(&mut self, count: usize)
        requires
            old(self).spec_index() + count <= old(self).spec_input().len(),
        ensures
            final(self).spec_input() == old(self).spec_input(),
            final(self).spec_depth() == old(self).spec_depth(),
            final(self).spec_index() == old(self).spec_index() + count,
    {
        proof {
            use_type_invariant(&*self);
        }
        self.index = self.index + count;
    }

    /// The syntax error `code` at the current position.
    pub fn error(&self, code: ErrorCode) -> (e: Error)
        ensures
            e.is_syntax(code, self.spec_input(), self.spec_index()),
    {
        proof {
            use_type_invariant(self);
        }
        Error::syntax(code, self.input, self.index)
    }

    /// The input as a string, checking once that it is well-formed UTF-8.
    fn utf8_source(&mut self) -> (r: Result<&'de str, Error>)
        ensures
            final(self).spec_input() == old(self).spec_input(),
            final(self).spec_index() == old(self).spec_index(),
            final(self).spec_depth() == old(self).spec_depth(),
            match r {
                Ok(text) => valid_utf8(old(self).spec_input()) && text.spec_bytes()
                    == old(self).spec_input(),
                Err(e) => !valid_utf8(old(self).spec_input()) && e.is_syntax(
                    ErrorCode::NotUtf8,
                    old(self).spec_input(),
                    old(self).spec_index(),
                ),
            },
    {
        proof {
            use_type_invariant(&*self);
        }
        if let Some(source) = self.source {
            proof {
                vstd::utf8::encode_utf8_valid_utf8(source@);
            }
            return Ok(source);
        }
        match str_from_utf8(self.input) {
            Some(source) => {
                self.source = Some(source);
                Ok(source)
            },
            None => Err(self.error(ErrorCode::NotUtf8)),
        }
    }

    /// Skips whitespace and returns the next byte, if any.
    pub fn peek(&mut self) -> (next: Option<u8>)
        ensures
            final(self).spec_input() == old(self).spec_input(),
            final(self).spec_depth() == old(self).spec_depth(),
            final(self).spec_index() == skip_ws(old(self).spec_input(), old(self).spec_index()),
            next == byte_at(old(self).spec_input(), final(self).spec_index()),
    {
        self.skip_whitespace();
        proof {
            use_type_invariant(&*self);
        }
        if self.index < self.input.len() {
            Some(self.input[self.index])
        } else {
            None
        }
    }

    /// Moves past spaces, tabs, carriage returns and line feeds.
    pub fn skip_whitespace(&mut self)
        ensures
            final(self).spec_input() == old(self).spec_input(),
            final(self).spec_depth() == old(self).spec_depth(),
            final(self).spec_index() == skip_ws(old(self).spec_input(), old(self).spec_index()),
    {
        proof {
            use_type_invariant(&*self);
            lemma_skip_ws(self.input@, self.index as int);
        }
        let ghost start = self.index as int;
        while self.index < self.input.len() && (self.input[self.index] == 0x20
            || self.input[self.index] == 0x0a || self.input[self.index] == 0x0d
            || self.input[self.index] == 0x09)
            invariant
                self.input@ == old(self).input@,
                self.depth == old(self).depth,
                skip_ws(self.input@, self.index as int) == skip_ws(self.input@, start),
            decreases self.input@.len() - self.index,
        {
            proof {
                use_type_invariant(&*self);
            }
            self.index = self.index + 1;
        }
        proof {
            use_type_invariant(&*self);
        }
    }

    /// Consumes one expected byte after optional whitespace.
    pub fn expect_byte(&mut self, expected: u8) -> (r: Result<(), Error>)
        ensures
            final(self).spec_input() == old(self).spec_input(),
            final(self).spec_depth() == old(self).spec_depth(),
            follows(
                r,
                expect(old(self).spec_input(), old(self).spec_index(), expected),
                old(self).spec_input(),
                final(self).spec_index(),
            ),
    {
        self.skip_whitespace();
        proof {
            use_type_invariant(&*self);
        }
        if self.index < self.input.len() && self.input[self.index] == expected {
            self.index = self.index + 1;
            Ok(())
        } else {
            Err(self.error(ErrorCode::ExpectedByte(expected)))
        }
    }

    /// Consumes an exact literal such as `null` after optional whitespace.
    pub fn parse_literal(&mut self, lit: &[u8]) -> (r: Result<(), Error>)
        ensures
            final(self).spec_input() == old(self).spec_input(),
            final(self).spec_depth() == old(self).spec_depth(),
            follows(
                r,
                literal(old(self).spec_input(), old(self).spec_index(), lit@),
                old(self).spec_input(),
                final(self).spec_index(),
            ),
    {
        self.skip_whitespace();
        proof {
            use_type_invariant(&*self);
        }
        let start = self.index;
        if lit.len() <= self.input.len() - start {
            let mut k: usize = 0;
            while k < lit.len()
                invariant
                    self.input == old(self).input,
                    self.depth == old(self).depth,
                    self.index == start,
                    start == skip_ws(old(self).spec_input(), old(self).spec_index()),
                    start + lit@.len() <= self.input@.len(),
                    k <= lit@.len(),
                    forall|j: int| 0 <= j < k ==> self.input@[start + j] == lit@[j],
                decreases lit@.len() - k,
            {
                if self.input[start + k] != lit[k] {
                    assert(self.input@.subrange(start as int, start + lit@.len())[k as int]
                        != lit@[k as int]);
                    assert(self.input@.subrange(start as int, start + lit@.len()) != lit@);
                    return Err(self.error(ErrorCode::ExpectedLiteral));
                }
                k = k + 1;
            }
            assert(self.input@.subrange(start as int, start + lit@.len()) =~= lit@);
            self.index = start + lit.len();
            Ok(())
        } else {
            Err(self.error(ErrorCode::ExpectedLiteral))
        }
    }

    /// Opens one array or object level.
    pub fn enter(&mut self) -> (r: Result<(), Error>)
        ensures
            final(self).spec_input() == old(self).spec_input(),
            final(self).spec_index() == old(self).spec_index(),
            old(self).spec_depth() >= MAX_DEPTH ==> (r matches Err(e) && e.is_syntax(
                ErrorCode::RecursionLimit,
                old(self).spec_input(),
                old(self).spec_index(),
            )) && final(self).spec_depth() == old(self).spec_depth(),
            old(self).spec_depth() < MAX_DEPTH ==> r is Ok && final(self).spec_depth()
                == old(self).spec_depth() + 1,
    {
        proof {
            use_type_invariant(&*self);
        }
        if self.depth >= MAX_DEPTH {
            return Err(self.error(ErrorCode::RecursionLimit));
        }
        self.depth = self.depth + 1;
        Ok(())
    }

    /// Closes one array or object level.
    pub fn leave(&mut self)
        ensures
            final(self).spec_input() == old(self).spec_input(),
            final(self).spec_index() == old(self).spec_index(),
            final(self).spec_depth() == if old(self).spec_depth() > 0 {
                (old(self).spec_depth() - 1) as nat
            } else {
                0
            },
    {
        proof {
            use_type_invariant(&*self);
        }
        if self.depth > 0 {
            self.depth = self.depth - 1;
        }
    }

    /// Verifies that the input contains no second value or trailing garbage.
    pub fn end(&mut self) -> (r: Result<(), Error>)
        ensures
            final(self).spec_input() == old(self).spec_input(),
            final(self).spec_depth() == old(self).spec_depth(),
            ({
                let j = skip_ws(old(self).spec_input(), old(self).spec_index());
                &&& final(self).spec_index() == j
                &&& j == old(self).spec_input().len() ==> r is Ok
                &&& j != old(self).spec_input().len() ==> (r matches Err(e) && e.is_syntax(
                    ErrorCode::TrailingCharacters,
                    old(self).spec_input(),
                    j,
                ))
            }),
    {
        self.skip_whitespace();
        proof {
            use_type_invariant(&*self);
        }
        if self.index == self.input.len() {
            Ok(())
        } else {
            Err(self.error(ErrorCode::TrailingCharacters))
        }
    }

    /// Reads four hexadecimal digits of a `\u` escape.
    fn parse_hex_quad(&mut self) -> (r: Result<u16, Error>)
        ensures
            final(self).spec_input() == old(self).spec_input(),
            final(self).spec_depth() == old(self).spec_depth(),
            match hex_quad(old(self).spec_input(), old(self).spec_index()) {
                Ok((value, end)) => r == Ok::<u16, Error>(value) && final(self).spec_index()
                    == end,
                Err((code, at)) => r matches Err(e) && e.is_syntax(
                    code,
                    old(self).spec_input(),
                    at,
                ) && final(self).spec_index() == at,
            },
    {
        proof {
            use_type_invariant(&*self);
        }
        if self.input.len() - self.index < 4 {
            return Err(self.error(ErrorCode::IncompleteUnicodeEscape));
        }
        let a = hex_value(self.input[self.index]);
        let b = hex_value(self.input[self.index + 1]);
        let c = hex_value(self.input[self.index + 2]);
        let d = hex_value(self.input[self.index + 3]);
        match (a, b, c, d) {
            (Some(a), Some(b), Some(c), Some(d)) => {
                let value: u16 = (a as u16) * 4096 + (b as u16) * 256 + (c as u16) * 16 + (
                d as u16);
                self.index = self.index + 4;
                Ok(value)
            },
            _ => Err(self.error(ErrorCode::InvalidUnicodeEscape)),
        }
    }

    /// Reads the rest of a `\u` escape, standing just after the `u`: one
    /// code unit, or a surrogate pair joined into one scalar.
    fn parse_unicode_escape(&mut self) -> (r: Result<u32, Error>)
        ensures
            final(self).spec_input() == old(self).spec_input(),
            final(self).spec_depth() == old(self).spec_depth(),
            match unicode_escape(old(self).spec_input(), old(self).spec_index()) {
                Ok((scalar, end)) => r == Ok::<u32, Error>(scalar) && final(self).spec_index()
                    == end,
                Err((code, at)) => r matches Err(e) && e.is_syntax(
                    code,
                    old(self).spec_input(),
                    at,
                ) && final(self).spec_index() == at,
            },
    {
        let code = self.parse_hex_quad()?;
        proof {
            use_type_invariant(&*self);
        }
        if 0xD800 <= code && code <= 0xDBFF {
            if !(self.input.len() - self.index >= 2 && self.input[self.index] == 0x5c
                && self.input[self.index + 1] == 0x75) {
                return Err(self.error(ErrorCode::HighSurrogateWithoutLow));
            }
            self.index = self.index + 2;
            let low = self.parse_hex_quad()?;
            if !(0xDC00 <= low && low <= 0xDFFF) {
                return Err(self.error(ErrorCode::InvalidLowSurrogate));
            }
            let scalar: u32 = 0x1_0000 + ((code as u32 - 0xD800) * 0x400) + (low as u32 - 0xDC00);
            Ok(scalar)
        } else if 0xDC00 <= code && code <= 0xDFFF {
            Err(self.error(ErrorCode::UnexpectedLowSurrogate))
        } else {
            Ok(code as u32)
        }
    }

    /// Validates a string without decoding it.
    fn skip_string(&mut self) -> (r: Result<(), Error>)
        ensures
            final(self).spec_input() == old(self).spec_input(),
            final(self).spec_depth() == old(self).spec_depth(),
            follows(
                r,
                grammar::skip_string(old(self).spec_input(), old(self).spec_index()),
                old(self).spec_input(),
                final(self).spec_index(),
            ),
    {
        self.skip_whitespace();
        proof {
            use_type_invariant(&*self);
        }
        if !(self.index < self.input.len() && self.input[self.index] == 0x22) {
            return Err(self.error(ErrorCode::ExpectedString));
        }
        self.index = self.index + 1;
        self.utf8_source()?;
        let ghost s = self.input@;
        proof {
            use_type_invariant(&*self);
        }
        loop
            invariant
                s == self.input@,
                s == old(self).spec_input(),
                self.depth == old(self).depth,
                valid_utf8(s),
                self.index <= s.len(),
                grammar::skip_string(s, old(self).spec_index()) == string_rest(
                    s,
                    self.index as int,
                ),
            decreases s.len() - self.index,
        {
            proof {
                use_type_invariant(&*self);
            }
            let rest = &self.input[self.index..self.input.len()];
            let found = find_string_special(rest);
            proof {
                grammar::lemma_next_special(s, self.index as int, found);
                grammar::lemma_next_special_props(s, self.index as int);
            }
            let relative = match found {
                Some(relative) => relative,
                None => {
                    return Err(self.error(ErrorCode::UnterminatedString));
                },
            };
            let special = self.index + relative;
            if self.input[special] == 0x22 {
                self.index = special + 1;
                return Ok(());
            } else if self.input[special] == 0x5c {
                self.index = special + 1;
                if self.index >= self.input.len() {
                    return Err(self.error(ErrorCode::UnterminatedEscape));
                }
                let escaped = self.input[self.index];
                self.index = self.index + 1;
                if escaped == 0x22 || escaped == 0x5c || escaped == 0x2f || escaped == 0x62
                    || escaped == 0x66 || escaped == 0x6e || escaped == 0x72 || escaped == 0x74 {
                } else if escaped == 0x75 {
                    self.parse_unicode_escape()?;
                } else {
                    return Err(self.error(ErrorCode::InvalidEscape));
                }
            } else {
                self.index = special;
                return Err(self.error(ErrorCode::ControlCharacter));
            }
        }
    }

    /// Decodes a string, borrowing it from the input when it has no escapes.
    pub fn parse_string(&mut self) -> (r: Result<Cow<'de, str>, Error>)
        ensures
            final(self).spec_input() == old(self).spec_input(),
            final(self).spec_depth() == old(self).spec_depth(),
            match grammar::parse_string(old(self).spec_input(), old(self).spec_index()) {
                Ok((chars, borrowed, end)) => r matches Ok(text) && text@ == chars && (
                text is Borrowed) == borrowed && final(self).spec_index() == end,
                Err((code, at)) => r matches Err(e) && e.is_syntax(
                    code,
                    old(self).spec_input(),
                    at,
                ) && final(self).spec_index() == at,
            },
    {
        self.skip_whitespace();
        proof {
            use_type_invariant(&*self);
        }
        if !(self.index < self.input.len() && self.input[self.index] == 0x22) {
            return Err(self.error(ErrorCode::ExpectedString));
        }
        self.index = self.index + 1;
        let start = self.index;
        let source = self.utf8_source()?;
        let ghost s = self.input@;
        proof {
            use_type_invariant(&*self);
            grammar::lemma_boundary_after_ascii(s, start - 1);
        }
        let rest = &self.input[self.index..self.input.len()];
        let found = find_string_special(rest);
        proof {
            grammar::lemma_next_special(s, self.index as int, found);
            grammar::lemma_next_special_props(s, self.index as int);
        }
        let relative = match found {
            Some(relative) => relative,
            None => {
                return Err(self.error(ErrorCode::UnterminatedString));
            },
        };
        let special = self.index + relative;
        if self.input[special] == 0x22 {
            proof {
                grammar::lemma_boundary_at_ascii(s, special as int);
            }
            let raw = str_range(source, start, special);
            proof {
                vstd::utf8::encode_utf8_decode_utf8(raw@);
            }
            self.index = special + 1;
            Ok(Cow::Borrowed(raw))
        } else if self.input[special] == 0x5c {
            self.index = special;
            self.parse_escaped_string(start)
        } else {
            self.index = special;
            Err(self.error(ErrorCode::ControlCharacter))
        }
    }

    /// Decodes the rest of a string that has an escape at the current
    /// position, given where its body started.
    #[verifier::rlimit(40)]
    fn parse_escaped_string(&mut self, start: usize) -> (r: Result<Cow<'de, str>, Error>)
        requires
            valid_utf8(old(self).spec_input()),
            0 < start <= old(self).spec_index() < old(self).spec_input().len(),
            old(self).spec_input()[start - 1] == 0x22,
            grammar::next_special(old(self).spec_input(), start as int) == Some(
                old(self).spec_index(),
            ),
            old(self).spec_input()[old(self).spec_index()] == 0x5c,
        ensures
            final(self).spec_input() == old(self).spec_input(),
            final(self).spec_depth() == old(self).spec_depth(),
            match escaped_rest(
                old(self).spec_input(),
                old(self).spec_index(),
                chars_of(old(self).spec_input(), start as int, old(self).spec_index()),
            ) {
                Ok((chars, end)) => r matches Ok(text) && text@ == chars && text is Owned
                    && final(self).spec_index() == end,
                Err((code, at)) => r matches Err(e) && e.is_syntax(
                    code,
                    old(self).spec_input(),
                    at,
                ) && final(self).spec_index() == at,
            },
    {
        let source = self.utf8_source()?;
        let ghost s = self.input@;
        proof {
            use_type_invariant(&*self);
            grammar::lemma_boundary_after_ascii(s, start - 1);
            grammar::lemma_boundary_at_ascii(s, self.index as int);
        }
        let prefix = str_range(source, start, self.index);
        proof {
            vstd::utf8::encode_utf8_decode_utf8(prefix@);
        }
        let mut output = String::new();
        output.append(prefix);
        let ghost goal = escaped_rest(s, self.index as int, output@);
        loop
            invariant
                s == self.input@,
                s == old(self).spec_input(),
                self.depth == old(self).depth,
                valid_utf8(s),
                source.spec_bytes() == s,
                is_char_boundary(s, self.index as int),
                goal == escaped_rest(
                    old(self).spec_input(),
                    old(self).spec_index(),
                    chars_of(old(self).spec_input(), start as int, old(self).spec_index()),
                ),
                goal == escaped_rest(s, self.index as int, output@),
            decreases s.len() - self.index,
        {
            proof {
                use_type_invariant(&*self);
            }
            if self.index >= self.input.len() {
                return Err(self.error(ErrorCode::UnterminatedString));
            }
            let byte = self.input[self.index];
            if byte == 0x22 {
                self.index = self.index + 1;
                return Ok(Cow::Owned(output));
            } else if byte == 0x5c {
                self.index = self.index + 1;
                if self.index >= self.input.len() {
                    return Err(self.error(ErrorCode::UnterminatedEscape));
                }
                let escaped = self.input[self.index];
                self.index = self.index + 1;
                if escaped == 0x22 {
                    string_push(&mut output, '"');
                } else if escaped == 0x5c {
                    string_push(&mut output, '\\');
                } else if escaped == 0x2f {
                    string_push(&mut output, '/');
                } else if escaped == 0x62 {
                    string_push(&mut output, '\u{0008}');
                } else if escaped == 0x66 {
                    string_push(&mut output, '\u{000c}');
                } else if escaped == 0x6e {
                    string_push(&mut output, '\n');
                } else if escaped == 0x72 {
                    string_push(&mut output, '\r');
                } else if escaped == 0x74 {
                    string_push(&mut output, '\t');
                } else if escaped == 0x75 {
                    let scalar = self.parse_unicode_escape()?;
                    match char_from_u32(scalar) {
                        Some(c) => {
                            proof {
                                vstd::utf8::char_u32_cast(c, scalar);
                            }
                            string_push(&mut output, c);
                        },
                        None => {
                            return Err(self.error(ErrorCode::InvalidUnicodeScalar));
                        },
                    }
                    proof {
                        use_type_invariant(&*self);
                        grammar::lemma_boundary_after_ascii(s, self.index - 1);
                    }
                } else {
                    return Err(self.error(ErrorCode::InvalidEscape));
                }
                proof {
                    grammar::lemma_boundary_after_ascii(s, self.index - 1);
                }
            } else if byte < 0x20 {
                return Err(self.error(ErrorCode::ControlCharacter));
            } else {
                let segment_start = self.index;
                proof {
                    grammar::lemma_next_special_props(s, self.index as int);
                }
                while self.index < self.input.len() && !(self.input[self.index] == 0x22
                    || self.input[self.index] == 0x5c || self.input[self.index] < 0x20)
                    invariant
                        s == self.input@,
                        self.depth == old(self).depth,
                        segment_start <= self.index <= s.len(),
                        grammar::next_special(s, segment_start as int) == grammar::next_special(
                            s,
                            self.index as int,
                        ),
                    decreases s.len() - self.index,
                {
                    proof {
                        use_type_invariant(&*self);
                    }
                    self.index = self.index + 1;
                }
                proof {
                    use_type_invariant(&*self);
                    if self.index < s.len() {
                        grammar::lemma_boundary_at_ascii(s, self.index as int);
                    } else {
                        vstd::utf8::is_char_boundary_start_end_of_seq(s);
                    }
                }
                let segment = str_range(source, segment_start, self.index);
                proof {
                    vstd::utf8::encode_utf8_decode_utf8(segment@);
                }
                output.append(segment);
            }
        }
    }

    /// Moves past a run of ASCII digits.
    fn skip_digits(&mut self)
        ensures
            final(self).spec_input() == old(self).spec_input(),
            final(self).spec_depth() == old(self).spec_depth(),
            final(self).spec_index() == digits_end(old(self).spec_input(), old(self).spec_index()),
    {
        proof {
            use_type_invariant(&*self);
            grammar::lemma_digits_end(self.input@, self.index as int);
        }
        let ghost start = self.index as int;
        while self.index < self.input.len() && 0x30 <= self.input[self.index]
            && self.input[self.index] <= 0x39
            invariant
                self.input == old(self).input,
                self.depth == old(self).depth,
                digits_end(self.input@, self.index as int) == digits_end(self.input@, start),
            decreases self.input@.len() - self.index,
        {
            proof {
                use_type_invariant(&*self);
            }
            self.index = self.index + 1;
        }
    }

    /// Reads one number token, classifying it without converting a fraction
    /// or an exponent.
    pub fn parse_number(&mut self) -> (r: Result<ParsedNumber<'de>, Error>)
        ensures
            final(self).spec_input() == old(self).spec_input(),
            final(self).spec_depth() == old(self).spec_depth(),
            ({
                let s = old(self).spec_input();
                let j = skip_ws(s, old(self).spec_index());
                match number(s, j) {
                    Ok(shape) => r matches Ok(n) && n.float == shape.float && n.negative
                        == shape.negative && n.magnitude == shape.magnitude
                        && n.raw.spec_bytes() == s.subrange(j, shape.end)
                        && final(self).spec_index() == shape.end,
                    Err((code, at)) => r matches Err(e) && e.is_syntax(code, s, at)
                        && final(self).spec_index() == at,
                }
            }),
    {
        self.skip_whitespace();
        proof {
            use_type_invariant(&*self);
        }
        let ghost s = self.input@;
        let start = self.index;
        let negative = self.index < self.input.len() && self.input[self.index] == 0x2d;
        if negative {
            self.index = self.index + 1;
        }
        let ghost k = self.index as int;
        let mut magnitude: Option<u64> = Some(0);
        if self.index < self.input.len() && self.input[self.index] == 0x30 {
            self.index = self.index + 1;
            if self.index < self.input.len() && 0x30 <= self.input[self.index]
                && self.input[self.index] <= 0x39 {
                return Err(self.error(ErrorCode::LeadingZero));
            }
        } else if self.index < self.input.len() && 0x30 <= self.input[self.index]
            && self.input[self.index] <= 0x39 {
            magnitude = Some((self.input[self.index] - 0x30) as u64);
            self.index = self.index + 1;
            proof {
                grammar::lemma_digits_end(s, k);
                grammar::lemma_digits_value_step(s, k, k);
            }
            while self.index < self.input.len() && 0x30 <= self.input[self.index]
                && self.input[self.index] <= 0x39
                invariant
                    self.input@ == s,
                    self.depth == old(self).depth,
                    k < self.index <= s.len(),
                    self.index <= digits_end(s, k),
                    digits_end(s, self.index as int) == digits_end(s, k),
                    forall|q: int| k <= q < digits_end(s, k) ==> is_digit(#[trigger] s[q]),
                    magnitude == magnitude_of(digits_value(s, k, self.index as int)),
                decreases s.len() - self.index,
            {
                proof {
                    use_type_invariant(&*self);
                    grammar::lemma_digits_value_step(s, k, self.index as int);
                    grammar::lemma_digits_end(s, self.index as int);
                    grammar::lemma_digits_end(s, self.index + 1);
                }
                let digit = (self.input[self.index] - 0x30) as u64;
                magnitude = match magnitude {
                    Some(value) => match value.checked_mul(10) {
                        Some(scaled) => scaled.checked_add(digit),
                        None => None,
                    },
                    None => None,
                };
                self.index = self.index + 1;
            }
        } else {
            return Err(self.error(ErrorCode::InvalidNumber));
        }
        proof {
            use_type_invariant(&*self);
        }
        let ghost k1 = self.index as int;
        let mut float = false;
        if self.index < self.input.len() && self.input[self.index] == 0x2e {
            float = true;
            self.index = self.index + 1;
            let fraction_start = self.index;
            self.skip_digits();
            if self.index == fraction_start {
                return Err(self.error(ErrorCode::FractionWithoutDigits));
            }
        }
        proof {
            use_type_invariant(&*self);
        }
        let ghost k2 = self.index as int;
        if self.index < self.input.len() && (self.input[self.index] == 0x65 || self.input[self.index]
            == 0x45) {
            float = true;
            self.index = self.index + 1;
            if self.index < self.input.len() && (self.input[self.index] == 0x2b
                || self.input[self.index] == 0x2d) {
                self.index = self.index + 1;
            }
            let exponent_start = self.index;
            self.skip_digits();
            if self.index == exponent_start {
                return Err(self.error(ErrorCode::ExponentWithoutDigits));
            }
        }
        proof {
            use_type_invariant(&*self);
            grammar::lemma_number_ascii(s, start as int);
        }
        let raw = match str_from_utf8(&self.input[start..self.index]) {
            Some(raw) => raw,
            None => {
                return Err(self.error(ErrorCode::NumberNotAscii));
            },
        };
        Ok(ParsedNumber { raw, float, negative, magnitude })
    }

    /// The integer part of a number whose first digit is at the current position.
    fn parse_integer_digits(&mut self) -> (r: Result<u64, Error>)
        ensures
            final(self).spec_input() == old(self).spec_input(),
            final(self).spec_depth() == old(self).spec_depth(),
            match integer_digits(old(self).spec_input(), old(self).spec_index()) {
                Ok((m, e)) => r == Ok::<u64, Error>(m as u64) && m <= u64::MAX
                    && final(self).spec_index() == e,
                Err((code, at)) => r matches Err(err) && err.is_syntax(
                    code,
                    old(self).spec_input(),
                    at,
                ) && final(self).spec_index() == at,
            },
    {
        proof {
            use_type_invariant(&*self);
        }
        if self.index >= self.input.len() {
            return Err(self.error(ErrorCode::InvalidNumber));
        }
        let first = self.input[self.index];
        if first == 0x30 {
            self.index = self.index + 1;
            if self.index < self.input.len() && 0x30 <= self.input[self.index]
                && self.input[self.index] <= 0x39 {
                return Err(self.error(ErrorCode::LeadingZero));
            }
            return Ok(0);
        }
        if !(0x31 <= first && first <= 0x39) {
            return Err(self.error(ErrorCode::InvalidNumber));
        }
        let mut value: u64 = (first - 0x30) as u64;
        self.index = self.index + 1;
        let ghost s = self.input@;
        let ghost goal = integer_digits(s, old(self).spec_index());
        loop
            invariant
                self.input@ == s,
                s == old(self).spec_input(),
                self.depth == old(self).depth,
                goal == integer_digits(s, old(self).spec_index()),
                goal == u64_digits(s, self.index as int, value as nat),
            decreases s.len() - self.index,
        {
            proof {
                use_type_invariant(&*self);
            }
            if !(self.index < self.input.len() && 0x30 <= self.input[self.index]
                && self.input[self.index] <= 0x39) {
                return Ok(value);
            }
            let digit = (self.input[self.index] - 0x30) as u64;
            value = match value.checked_mul(10) {
                Some(scaled) => match scaled.checked_add(digit) {
                    Some(next) => next,
                    None => {
                        return Err(self.error(ErrorCode::IntegerOutOfRange));
                    },
                },
                None => {
                    return Err(self.error(ErrorCode::IntegerOutOfRange));
                },
            };
            self.index = self.index + 1;
        }
    }

    /// Reads an unsigned 64-bit integer, rejecting signs, fractions and exponents.
    pub fn parse_u64_value(&mut self) -> (r: Result<u64, Error>)
        ensures
            final(self).spec_input() == old(self).spec_input(),
            final(self).spec_depth() == old(self).spec_depth(),
            match unsigned_integer(old(self).spec_input(), old(self).spec_index()) {
                Ok((v, e)) => r == Ok::<u64, Error>(v) && final(self).spec_index() == e,
                Err((code, at)) => r matches Err(err) && err.is_syntax(
                    code,
                    old(self).spec_input(),
                    at,
                ) && final(self).spec_index() == at,
            },
    {
        self.skip_whitespace();
        proof {
            use_type_invariant(&*self);
        }
        if self.index < self.input.len() && self.input[self.index] == 0x2d {
            return Err(self.error(ErrorCode::ExpectedUnsigned));
        }
        let value = self.parse_integer_digits()?;
        proof {
            use_type_invariant(&*self);
        }
        if self.index < self.input.len() && (self.input[self.index] == 0x2e
            || self.input[self.index] == 0x65 || self.input[self.index] == 0x45) {
            return Err(self.error(ErrorCode::ExpectedUnsigned));
        }
        Ok(value)
    }

    /// Reads a signed 64-bit integer, rejecting fractions and exponents.
    pub fn parse_i64_value(&mut self) -> (r: Result<i64, Error>)
        ensures
            final(self).spec_input() == old(self).spec_input(),
            final(self).spec_depth() == old(self).spec_depth(),
            match signed_integer(old(self).spec_input(), old(self).spec_index()) {
                Ok((v, e)) => r == Ok::<i64, Error>(v) && final(self).spec_index() == e,
                Err((code, at)) => r matches Err(err) && err.is_syntax(
                    code,
                    old(self).spec_input(),
                    at,
                ) && final(self).spec_index() == at,
            },
    {
        self.skip_whitespace();
        proof {
            use_type_invariant(&*self);
        }
        let negative = self.index < self.input.len() && self.input[self.index] == 0x2d;
        if negative {
            self.index = self.index + 1;
        }
        let magnitude = self.parse_integer_digits()?;
        proof {
            use_type_invariant(&*self);
        }
        if self.index < self.input.len() && (self.input[self.index] == 0x2e
            || self.input[self.index] == 0x65 || self.input[self.index] == 0x45) {
            return Err(self.error(ErrorCode::ExpectedInteger));
        }
        if negative {
            if magnitude == 0x8000_0000_0000_0000 {
                Ok(i64::MIN)
            } else if magnitude <= 0x7fff_ffff_ffff_ffff {
                Ok(-(magnitude as i64))
            } else {
                Err(self.error(ErrorCode::IntegerOutOfRange))
            }
        } else if magnitude <= 0x7fff_ffff_ffff_ffff {
            Ok(magnitude as i64)
        } else {
            Err(self.error(ErrorCode::IntegerOutOfRange))
        }
    }

    /// Finds where a number starts, checking its sign and first digits; the
    /// caller converts the token from there.
    pub fn numeric_start(&mut self) -> (r: Result<usize, Error>)
        ensures
            final(self).spec_input() == old(self).spec_input(),
            final(self).spec_depth() == old(self).spec_depth(),
            final(self).spec_index() == skip_ws(old(self).spec_input(), old(self).spec_index()),
            match grammar::numeric_start(old(self).spec_input(), old(self).spec_index()) {
                Ok(start) => r == Ok::<usize, Error>(start as usize),
                Err((code, at)) => r matches Err(err) && err.is_syntax(
                    code,
                    old(self).spec_input(),
                    at,
                ),
            },
    {
        self.skip_whitespace();
        proof {
            use_type_invariant(&*self);
        }
        let start = self.index;
        let unsigned_start = if start < self.input.len() && self.input[start] == 0x2d {
            start + 1
        } else {
            start
        };
        if !(unsigned_start < self.input.len() && 0x30 <= self.input[unsigned_start]
            && self.input[unsigned_start] <= 0x39) {
            return Err(self.error(ErrorCode::InvalidNumber));
        }
        if self.input[unsigned_start] == 0x30 && unsigned_start + 1 < self.input.len() && 0x30
            <= self.input[unsigned_start + 1] && self.input[unsigned_start + 1] <= 0x39 {
            return Err(self.error(ErrorCode::LeadingZero));
        }
        Ok(start)
    }

    /// Reads a 128-bit signed integer token.
    pub fn parse_integer(&mut self) -> (r: Result<i128, Error>)
        ensures
            final(self).spec_input() == old(self).spec_input(),
            final(self).spec_depth() == old(self).spec_depth(),
            match wide_integer(old(self).spec_input(), old(self).spec_index()) {
                Ok((v, e)) => r == Ok::<i128, Error>(v) && final(self).spec_index() == e,
                Err((code, at)) => r matches Err(err) && err.is_syntax(
                    code,
                    old(self).spec_input(),
                    at,
                ) && final(self).spec_index() == at,
            },
    {
        self.skip_whitespace();
        let start = self.index;
        proof {
            use_type_invariant(&*self);
            lemma_skip_ws(self.input@, old(self).spec_index());
        }
        let number = self.parse_number()?;
        proof {
            use_type_invariant(&*self);
        }
        if number.float {
            return Err(self.error(ErrorCode::ExpectedInteger));
        }
        let ghost s = self.input@;
        let end = self.index;
        proof {
            grammar::lemma_integer_token(s, start as int);
        }
        let negative = number.negative;
        let first = if negative {
            start + 1
        } else {
            start
        };
        let mut value: Option<i128> = Some(0);
        let mut p = first;
        while p < end
            invariant
                self.input@ == s,
                first <= p <= end <= s.len(),
                forall|q: int| first <= q < end ==> is_digit(#[trigger] s[q]),
                value == (if negative {
                    if digits_value(s, first as int, p as int) <= 0x8000_0000_0000_0000_0000_0000_0000_0000 {
                        Some((0 - digits_value(s, first as int, p as int)) as i128)
                    } else {
                        None
                    }
                } else {
                    if digits_value(s, first as int, p as int) <= i128::MAX {
                        Some(digits_value(s, first as int, p as int) as i128)
                    } else {
                        None
                    }
                }),
            decreases end - p,
        {
            proof {
                grammar::lemma_digits_value_step(s, first as int, p as int);
            }
            let digit = (self.input[p] - 0x30) as i128;
            value = match value {
                Some(v) => match v.checked_mul(10) {
                    Some(scaled) => if negative {
                        scaled.checked_sub(digit)
                    } else {
                        scaled.checked_add(digit)
                    },
                    None => None,
                },
                None => None,
            };
            p = p + 1;
        }
        match value {
            Some(v) => Ok(v),
            None => Err(self.error(ErrorCode::IntegerOutOfRange)),
        }
    }

    /// Reads a 128-bit unsigned integer token.
    pub fn parse_unsigned(&mut self) -> (r: Result<u128, Error>)
        ensures
            final(self).spec_input() == old(self).spec_input(),
            final(self).spec_depth() == old(self).spec_depth(),
            match wide_unsigned(old(self).spec_input(), old(self).spec_index()) {
                Ok((v, e)) => r == Ok::<u128, Error>(v) && final(self).spec_index() == e,
                Err((code, at)) => r matches Err(err) && err.is_syntax(
                    code,
                    old(self).spec_input(),
                    at,
                ) && final(self).spec_index() == at,
            },
    {
        self.skip_whitespace();
        let start = self.index;
        proof {
            use_type_invariant(&*self);
            lemma_skip_ws(self.input@, old(self).spec_index());
        }
        let number = self.parse_number()?;
        proof {
            use_type_invariant(&*self);
        }
        if number.float || number.negative {
            return Err(self.error(ErrorCode::ExpectedUnsigned));
        }
        let ghost s = self.input@;
        let end = self.index;
        proof {
            grammar::lemma_integer_token(s, start as int);
        }
        let mut value: Option<u128> = Some(0);
        let mut p = start;
        while p < end
            invariant
                self.input@ == s,
                start <= p <= end <= s.len(),
                forall|q: int| start <= q < end ==> is_digit(#[trigger] s[q]),
                value == magnitude_u128(digits_value(s, start as int, p as int)),
            decreases end - p,
        {
            proof {
                grammar::lemma_digits_value_step(s, start as int, p as int);
            }
            let digit = (self.input[p] - 0x30) as u128;
            value = match value {
                Some(v) => match v.checked_mul(10) {
                    Some(scaled) => scaled.checked_add(digit),
                    None => None,
                },
                None => None,
            };
            p = p + 1;
        }
        match value {
            Some(v) => Ok(v),
            None => Err(self.error(ErrorCode::IntegerOutOfRange)),
        }
    }

    /// Skips and validates one JSON value without building it.
    pub fn skip_value(&mut self) -> (r: Result<(), Error>)
        ensures
            final(self).spec_input() == old(self).spec_input(),
            final(self).spec_depth() == old(self).spec_depth(),
            follows(
                r,
                grammar::skip_value(old(self).spec_input(), old(self).spec_index(), old(self).spec_depth()),
                old(self).spec_input(),
                final(self).spec_index(),
            ),
        decreases MAX_DEPTH - old(self).spec_depth(), 1nat,
    {
        proof {
            use_type_invariant(&*self);
            lemma_skip_ws(self.input@, self.index as int);
        }
        let next = self.peek();
        proof {
            use_type_invariant(&*self);
            lemma_skip_ws(self.input@, self.index as int);
        }
        match next {
            Some(b) => {
                if b == 0x6e {
                    let lit: [u8; 4] = [0x6e, 0x75, 0x6c, 0x6c];
                    assert(lit@ =~= null_literal());
                    self.parse_literal(&lit)
                } else if b == 0x74 {
                    let lit: [u8; 4] = [0x74, 0x72, 0x75, 0x65];
                    assert(lit@ =~= true_literal());
                    self.parse_literal(&lit)
                } else if b == 0x66 {
                    let lit: [u8; 5] = [0x66, 0x61, 0x6c, 0x73, 0x65];
                    assert(lit@ =~= false_literal());
                    self.parse_literal(&lit)
                } else if b == 0x22 {
                    self.skip_string()
                } else if b == 0x2d || (0x30 <= b && b <= 0x39) {
                    match self.parse_number() {
                        Ok(_) => Ok(()),
                        Err(e) => Err(e),
                    }
                } else if b == 0x5b {
                    self.skip_array()
                } else if b == 0x7b {
                    self.skip_object()
                } else {
                    Err(self.error(ErrorCode::ExpectedValue))
                }
            },
            None => Err(self.error(ErrorCode::UnexpectedEnd)),
        }
    }

    /// Skips an array whose `[` is the next byte.
    fn skip_array(&mut self) -> (r: Result<(), Error>)
        requires
            byte_at(old(self).spec_input(), old(self).spec_index()) == Some(0x5bu8),
        ensures
            final(self).spec_input() == old(self).spec_input(),
            final(self).spec_depth() == old(self).spec_depth(),
            follows(
                r,
                grammar::skip_array(old(self).spec_input(), old(self).spec_index(), old(self).spec_depth()),
                old(self).spec_input(),
                final(self).spec_index(),
            ),
        decreases MAX_DEPTH - old(self).spec_depth(), 0nat,
    {
        self.expect_byte(0x5b)?;
        self.enter()?;
        let result = self.skip_array_items();
        self.leave();
        result
    }

    /// The elements and closing `]` of an array, after its `[`.
    fn skip_array_items(&mut self) -> (r: Result<(), Error>)
        requires
            old(self).spec_depth() >= 1,
        ensures
            final(self).spec_input() == old(self).spec_input(),
            final(self).spec_depth() == old(self).spec_depth(),
            follows(
                r,
                ({
                    let s = old(self).spec_input();
                    let m = skip_ws(s, old(self).spec_index());
                    if byte_at(s, m) == Some(0x5du8) {
                        Ok(m + 1)
                    } else {
                        array_items(s, old(self).spec_index(), old(self).spec_depth())
                    }
                }),
                old(self).spec_input(),
                final(self).spec_index(),
            ),
        decreases MAX_DEPTH - old(self).spec_depth(), 2nat,
    {
        proof {
            use_type_invariant(&*self);
            grammar::lemma_items_ws(self.input@, self.index as int, self.depth as nat);
        }
        let first = self.peek();
        proof {
            use_type_invariant(&*self);
        }
        if first == Some(0x5d) {
            self.index = self.index + 1;
            return Ok(());
        }
        let ghost s = self.input@;
        let ghost d = self.depth as nat;
        let ghost goal = array_items(s, self.index as int, d);
        loop
            invariant
                self.input@ == s,
                s == old(self).spec_input(),
                self.depth == old(self).depth,
                d == self.depth,
                goal == array_items(old(self).spec_input(), old(self).spec_index(), d),
                byte_at(s, skip_ws(s, old(self).spec_index())) != Some(0x5du8),
                goal == array_items(s, self.index as int, d),
            decreases s.len() - self.index,
        {
            proof {
                use_type_invariant(&*self);
                grammar::lemma_value_progress(s, self.index as int, d);
                lemma_skip_ws(s, self.index as int);
            }
            self.skip_value()?;
            proof {
                use_type_invariant(&*self);
                lemma_skip_ws(s, self.index as int);
            }
            let next = self.peek();
            proof {
                use_type_invariant(&*self);
            }
            if next == Some(0x2c) {
                self.index = self.index + 1;
            } else if next == Some(0x5d) {
                self.index = self.index + 1;
                return Ok(());
            } else {
                return Err(self.error(ErrorCode::ExpectedCommaOrBracket));
            }
        }
    }

    /// Skips an object whose `{` is the next byte.
    fn skip_object(&mut self) -> (r: Result<(), Error>)
        requires
            byte_at(old(self).spec_input(), old(self).spec_index()) == Some(0x7bu8),
        ensures
            final(self).spec_input() == old(self).spec_input(),
            final(self).spec_depth() == old(self).spec_depth(),
            follows(
                r,
                grammar::skip_object(old(self).spec_input(), old(self).spec_index(), old(self).spec_depth()),
                old(self).spec_input(),
                final(self).spec_index(),
            ),
        decreases MAX_DEPTH - old(self).spec_depth(), 0nat,
    {
        self.expect_byte(0x7b)?;
        self.enter()?;
        let result = self.skip_object_members();
        self.leave();
        result
    }

    /// The members and closing `}` of an object, after its `{`.
    fn skip_object_members(&mut self) -> (r: Result<(), Error>)
        requires
            old(self).spec_depth() >= 1,
        ensures
            final(self).spec_input() == old(self).spec_input(),
            final(self).spec_depth() == old(self).spec_depth(),
            follows(
                r,
                ({
                    let s = old(self).spec_input();
                    let m = skip_ws(s, old(self).spec_index());
                    if byte_at(s, m) == Some(0x7du8) {
                        Ok(m + 1)
                    } else {
                        object_members(s, old(self).spec_index(), old(self).spec_depth())
                    }
                }),
                old(self).spec_input(),
                final(self).spec_index(),
            ),
        decreases MAX_DEPTH - old(self).spec_depth(), 2nat,
    {
        proof {
            use_type_invariant(&*self);
            grammar::lemma_members_ws(self.input@, self.index as int, self.depth as nat);
        }
        let first = self.peek();
        proof {
            use_type_invariant(&*self);
        }
        if first == Some(0x7d) {
            self.index = self.index + 1;
            return Ok(());
        }
        let ghost s = self.input@;
        let ghost d = self.depth as nat;
        let ghost goal = object_members(s, self.index as int, d);
        loop
            invariant
                self.input@ == s,
                s == old(self).spec_input(),
                self.depth == old(self).depth,
                d == self.depth,
                goal == object_members(old(self).spec_input(), old(self).spec_index(), d),
                byte_at(s, skip_ws(s, old(self).spec_index())) != Some(0x7du8),
                goal == object_members(s, self.index as int, d),
            decreases s.len() - self.index,
        {
            proof {
                use_type_invariant(&*self);
                grammar::lemma_skip_string_progress(s, self.index as int);
                lemma_skip_ws(s, self.index as int);
            }
            self.skip_string()?;
            proof {
                use_type_invariant(&*self);
                lemma_skip_ws(s, self.index as int);
            }
            self.expect_byte(0x3a)?;
            proof {
                use_type_invariant(&*self);
                grammar::lemma_value_progress(s, self.index as int, d);
                lemma_skip_ws(s, self.index as int);
            }
            self.skip_value()?;
            proof {
                use_type_invariant(&*self);
                lemma_skip_ws(s, self.index as int);
            }
            let next = self.peek();
            proof {
                use_type_invariant(&*self);
            }
            if next == Some(0x2c) {
                self.index = self.index + 1;
            } else if next == Some(0x7d) {
                self.index = self.index + 1;
                return Ok(());
            } else {
                return Err(self.error(ErrorCode::ExpectedCommaOrBrace));
            }
        }
    }

    /// Validates the next value and returns its exact text, borrowed from the input.
    pub fn capture_raw(&mut self) -> (r: Result<&'de str, Error>)
        ensures
            final(self).spec_input() == old(self).spec_input(),
            final(self).spec_depth() == old(self).spec_depth(),
            ({
                let s = old(self).spec_input();
                let j = skip_ws(s, old(self).spec_index());
                match grammar::skip_value(s, old(self).spec_index(), old(self).spec_depth()) {
                    Ok(end) => final(self).spec_index() == end && if valid_utf8(s.subrange(j, end)) {
                        r matches Ok(text) && text.spec_bytes() == s.subrange(j, end)
                    } else {
                        r matches Err(e) && e.is_syntax(ErrorCode::NotUtf8, s, end)
                    },
                    Err((code, at)) => r matches Err(e) && e.is_syntax(code, s, at)
                        && final(self).spec_index() == at,
                }
            }),
    {
        self.skip_whitespace();
        let start = self.index;
        proof {
            use_type_invariant(&*self);
            lemma_skip_ws(self.input@, old(self).spec_index());
            grammar::lemma_value_progress(self.input@, old(self).spec_index(), self.depth as nat);
            assert(grammar::skip_value(self.input@, old(self).spec_index(), self.depth as nat)
                == grammar::skip_value(self.input@, self.index as int, self.depth as nat));
        }
        self.skip_value()?;
        proof {
            use_type_invariant(&*self);
        }
        match str_from_utf8(&self.input[start..self.index]) {
            Some(text) => Ok(text),
            None => Err(self.error(ErrorCode::NotUtf8)),
        }
    }
}

/// `value` as a 128-bit unsigned integer, when it fits.
pub open spec fn magnitude_u128(value: nat) -> Option<u128> {
    if value <= u128::MAX {
        Some(value as u128)
    } else {
        None
    }
}

/// A number token as the parser found it.
pub struct ParsedNumber<'de> {
    /// The exact text of the token.
    pub raw: &'de str,
    /// The token has a fraction or an exponent.
    pub float: bool,
    /// The token starts with `-`.
    pub negative: bool,
    /// The integer part's magnitude, when it fits in 64 bits.
    pub magnitude: Option<u64>,
}

/// The value of one hexadecimal digit.
pub fn hex_value(byte: u8) -> (value: Option<u8>)
    ensures
        value == hex_digit(byte),
        value matches Some(v) ==> v < 16,
{
    if 0x30 <= byte && byte <= 0x39 {
        Some(byte - 0x30)
    } else if 0x61 <= byte && byte <= 0x66 {
        Some(byte - 0x61 + 10)
    } else if 0x41 <= byte && byte <= 0x46 {
        Some(byte - 0x41 + 10)
    } else {
        None
    }
}

impl<'de> ParsedNumber<'de> {
    /// The token's value as a signed 64-bit integer, when it is an integer in range.
    pub fn checked_i64(&self) -> (value: Option<i64>)
        ensures
            value == match self.magnitude {
                None => None,
                Some(m) => if self.negative {
                    if m <= 0x8000_0000_0000_0000 {
                        Some((0 - m) as i64)
                    } else {
                        None
                    }
                } else if m <= i64::MAX {
                    Some(m as i64)
                } else {
                    None
                },
            },
    {
        let magnitude = match self.magnitude {
            Some(m) => m,
            None => {
                return None;
            },
        };
        if self.negative {
            if magnitude == 0x8000_0000_0000_0000 {
                Some(i64::MIN)
            } else if magnitude <= 0x7fff_ffff_ffff_ffff {
                Some(-(magnitude as i64))
            } else {
                None
            }
        } else if magnitude <= 0x7fff_ffff_ffff_ffff {
            Some(magnitude as i64)
        } else {
            None
        }
    }
}

/// A low-level, allocation-free cursor for routing selected object fields.
///
/// Prefer whole-value parsing for application models. `Cursor` is intended
/// for protocol envelopes whose hot path must inspect a few fields and defer
/// large nested values as [`RawJson`].
pub struct Cursor<'de> {
    deserializer: Deserializer<'de>,
}

/// Streaming view over one JSON object visited by [`Cursor::object`].
pub struct Object<'de> {
    /// The parser, standing inside the object.
    pub deserializer: Deserializer<'de>,
    /// No member has been read yet.
    pub first: bool,
    /// The closing `}` has been consumed.
    pub finished: bool,
}

/// One object member. The value must be consumed with one of this type's
/// methods before requesting the next field.
pub struct Field<'cursor, 'de> {
    /// The decoded member name.
    pub name: Cow<'de, str>,
    /// The parser, standing at the member's value.
    pub deserializer: &'cursor mut Deserializer<'de>,
}

impl<'de> Cursor<'de> {
    /// The parser the cursor reads with.
    pub closed spec fn spec_parser(&self) -> Deserializer<'de> {
        self.deserializer
    }

    /// Creates a cursor over a byte slice.
    pub fn from_slice(input: &'de [u8]) -> (cursor: Self)
        requires
            input@.len() < usize::MAX,
        ensures
            cursor.spec_parser().spec_input() == input@,
            cursor.spec_parser().spec_index() == 0,
            cursor.spec_parser().spec_depth() == 0,
    {
        Cursor { deserializer: Deserializer::from_slice(input) }
    }

    /// Creates a cursor over a UTF-8 string.
    pub fn from_str(input: &'de str) -> (cursor: Self)
        requires
            input.spec_bytes().len() < usize::MAX,
        ensures
            cursor.spec_parser().spec_input() == input.spec_bytes(),
            cursor.spec_parser().spec_index() == 0,
            cursor.spec_parser().spec_depth() == 0,
    {
        Cursor { deserializer: Deserializer::from_str(input) }
    }

    /// Visits the next value as an object. Unvisited fields are validated and
    /// skipped before this method returns.
    pub fn object<T>(
        &mut self,
        visitor: impl FnOnce(&mut Object<'de>) -> Result<T, Error>,
    ) -> (r: Result<T, Error>)
        requires
            forall|o: &mut Object<'de>| call_requires(visitor, (o,)),
        ensures
            visit_opens(r, old(self).spec_parser(), final(self).spec_parser()),
            object_opens(old(self).spec_parser()) ==> exists|o: &mut Object<'de>, outcome: Result<T, Error>|
                opened_object(*o, old(self).spec_parser()) && call_ensures(visitor, (o,), outcome)
                    && concluded(r, outcome, *final(o), final(self).spec_parser()),
    {
        visit_object(&mut self.deserializer, visitor)
    }

    /// Verifies that no trailing value or garbage remains.
    pub fn end(&mut self) -> (r: Result<(), Error>)
        ensures
            final(self).spec_parser().spec_input() == old(self).spec_parser().spec_input(),
            ({
                let s = old(self).spec_parser().spec_input();
                let j = skip_ws(s, old(self).spec_parser().spec_index());
                &&& final(self).spec_parser().spec_index() == j
                &&& j == s.len() ==> r is Ok
                &&& j != s.len() ==> (r matches Err(e) && e.is_syntax(
                    ErrorCode::TrailingCharacters,
                    s,
                    j,
                ))
            }),
    {
        self.deserializer.end()
    }
}

/// What visiting an object gives before the visitor is called: the object
/// must open with `{` within the nesting limit.
pub open spec fn visit_opens<T>(r: Result<T, Error>, before: Deserializer, after: Deserializer) -> bool {
    let s = before.spec_input();
    let j = skip_ws(s, before.spec_index());
    if byte_at(s, j) != Some(0x7bu8) {
        r matches Err(e) && e.is_syntax(ErrorCode::ExpectedByte(0x7b), s, j)
            && after.spec_index() == j
    } else if before.spec_depth() >= MAX_DEPTH {
        r matches Err(e) && e.is_syntax(ErrorCode::RecursionLimit, s, j + 1)
            && after.spec_index() == j + 1
    } else {
        true
    }
}

/// The object is open: the visit has not failed before the visitor.
pub open spec fn object_opens(before: Deserializer) -> bool {
    let s = before.spec_input();
    &&& byte_at(s, skip_ws(s, before.spec_index())) == Some(0x7bu8)
    &&& before.spec_depth() < MAX_DEPTH
}

/// The object handed to the visitor: the parser stands just after the `{`
/// that follows the whitespace at `before`, one level deeper, and no member
/// has been read.
pub open spec fn opened_object<'de>(object: Object<'de>, before: Deserializer<'de>) -> bool {
    let s = before.spec_input();
    &&& object.deserializer.spec_input() == s
    &&& object.deserializer.spec_index() == skip_ws(s, before.spec_index()) + 1
    &&& object.deserializer.spec_depth() == before.spec_depth() + 1
    &&& object.first
    &&& !object.finished
}

/// One step through an object's members from `k`: the closing `}` (`true`
/// and the position after it), or one member whose value is skipped
/// (`false` and the position after the value).
pub open spec fn member_step(s: Seq<u8>, k: int, first: bool, depth: nat) -> Result<
    (bool, int),
    (ErrorCode, int),
> {
    match member_start(s, k, first) {
        Err(e) => Err(e),
        Ok((closed, _, _, v0)) => if closed {
            Ok((true, v0))
        } else {
            match grammar::skip_value(s, v0, depth) {
                Err(e) => Err(e),
                Ok(v) => Ok((false, v)),
            }
        },
    }
}

/// The depth after the object level is closed.
pub open spec fn closed_depth(depth: nat) -> nat {
    if depth > 0 {
        (depth - 1) as nat
    } else {
        0
    }
}

/// How a visit ends once the visitor returned `outcome`, leaving `object`:
/// the visitor's error comes back unchanged with the level closed; a success
/// comes back only once the members left unread parse through the closing
/// `}` (unless the visit already reached it), and otherwise the syntax error
/// of those members, at its position.
pub open spec fn concluded<'de, T>(
    r: Result<T, Error>,
    outcome: Result<T, Error>,
    object: Object<'de>,
    after: Deserializer<'de>,
) -> bool {
    let s = object.deserializer.spec_input();
    let k = object.deserializer.spec_index();
    let d = object.deserializer.spec_depth();
    &&& after.spec_input() == s
    &&& match outcome {
        Err(e) => r == Err::<T, Error>(e) && after.spec_index() == k && after.spec_depth() == if object.finished {
            d
        } else {
            closed_depth(d)
        },
        Ok(v) => if object.finished {
            r == Ok::<T, Error>(v) && after.spec_index() == k && after.spec_depth() == d
        } else {
            match object_rest(s, k, object.first, d) {
                Ok(end) => r == Ok::<T, Error>(v) && after.spec_index() == end && after.spec_depth()
                    == closed_depth(d),
                Err((code, at)) => r matches Err(e) && e.is_syntax(code, s, at) && after.spec_index()
                    == at && after.spec_depth() == closed_depth(d),
            }
        },
    }
}

/// Opens an object, lets the visitor read members, then validates and skips
/// the members it left.
fn visit_object<'de, T>(
    deserializer: &mut Deserializer<'de>,
    visitor: impl FnOnce(&mut Object<'de>) -> Result<T, Error>,
) -> (r: Result<T, Error>)
    requires
        forall|o: &mut Object<'de>| call_requires(visitor, (o,)),
    ensures
        visit_opens(r, *old(deserializer), *final(deserializer)),
        object_opens(*old(deserializer)) ==> exists|o: &mut Object<'de>, outcome: Result<T, Error>|
            opened_object(*o, *old(deserializer)) && call_ensures(visitor, (o,), outcome)
                && concluded(r, outcome, *final(o), *final(deserializer)),
{
    deserializer.expect_byte(0x7b)?;
    deserializer.enter()?;
    let empty: &'de [u8] = &[];
    let mut parser = Deserializer::from_slice(empty);
    core::mem::swap(&mut parser, deserializer);
    let mut object = Object { deserializer: parser, first: true, finished: false };
    let outcome = visitor(&mut object);
    let r = object.conclude(outcome);
    *deserializer = object.deserializer;
    r
}

impl<'de> Object<'de> {

    /// Returns the next field, or `None` after the closing brace.
    pub fn next_field<'a>(&'a mut self) -> (r: Result<Option<Field<'a, 'de>>, Error>)
        ensures
            old(self).finished ==> (r matches Ok(None) && final(self).finished
                && final(self).first == old(self).first
                && final(self).deserializer == old(self).deserializer),
            !old(self).finished ==> match member_start(
                old(self).deserializer.spec_input(),
                old(self).deserializer.spec_index(),
                old(self).first,
            ) {
                Ok((closed, name, borrowed, at)) => if closed {
                    r matches Ok(None) && final(self).finished
                        && final(self).first == old(self).first
                        && final(self).deserializer.spec_input() == old(self).deserializer.spec_input()
                        && final(self).deserializer.spec_index() == at
                        && final(self).deserializer.spec_depth() == if old(self).deserializer.spec_depth() > 0 {
                            (old(self).deserializer.spec_depth() - 1) as nat
                        } else {
                            0
                        }
                } else {
                    r matches Ok(Some(field)) && field.name@ == name
                        && (field.name is Borrowed) == borrowed
                        && field.deserializer.spec_input() == old(self).deserializer.spec_input()
                        && field.deserializer.spec_index() == at
                        && field.deserializer.spec_depth() == old(self).deserializer.spec_depth()
                        && final(self).deserializer == *final(field.deserializer)
                        && !final(self).finished && !final(self).first
                },
                Err((code, at)) => r matches Err(e) && e.is_syntax(
                    code,
                    old(self).deserializer.spec_input(),
                    at,
                ) && final(self).deserializer.spec_index() == at
                    && final(self).deserializer.spec_input() == old(self).deserializer.spec_input()
                    && final(self).deserializer.spec_depth() == old(self).deserializer.spec_depth()
                    && !final(self).finished && !final(self).first,
            },
    {
        if self.finished {
            return Ok(None);
        }
        let ghost s = self.deserializer.spec_input();
        let ghost k = self.deserializer.spec_index();
        proof {
            use_type_invariant(&self.deserializer);
            lemma_skip_ws(s, k);
        }
        self.deserializer.skip_whitespace();
        proof {
            use_type_invariant(&self.deserializer);
        }
        if self.deserializer.index < self.deserializer.input.len()
            && self.deserializer.input[self.deserializer.index] == 0x7d {
            self.deserializer.index = self.deserializer.index + 1;
            self.deserializer.leave();
            self.finished = true;
            return Ok(None);
        }
        if self.first {
            self.first = false;
        } else {
            self.deserializer.expect_byte(0x2c)?;
            proof {
                use_type_invariant(&self.deserializer);
                lemma_skip_ws(s, self.deserializer.spec_index());
            }
            if self.deserializer.peek() == Some(0x7d) {
                return Err(self.deserializer.error(ErrorCode::TrailingCommaInObject));
            }
        }
        let name = self.deserializer.parse_string()?;
        self.deserializer.expect_byte(0x3a)?;
        Ok(Some(Field { name, deserializer: &mut self.deserializer }))
    }

    /// Validates and skips every member that the visitor left, through the
    /// closing `}`.
    #[verifier::rlimit(100)]
    #[verifier::spinoff_prover]
    fn finish(&mut self) -> (r: Result<(), Error>)
        ensures
            old(self).finished ==> r is Ok && final(self).deserializer == old(self).deserializer,
            !old(self).finished ==> follows(
                r,
                object_rest(
                    old(self).deserializer.spec_input(),
                    old(self).deserializer.spec_index(),
                    old(self).first,
                    old(self).deserializer.spec_depth(),
                ),
                old(self).deserializer.spec_input(),
                final(self).deserializer.spec_index(),
            ),
            r is Ok ==> final(self).finished,
            r is Err ==> !final(self).finished,
            final(self).deserializer.spec_input() == old(self).deserializer.spec_input(),
            old(self).finished || r is Err ==> final(self).deserializer.spec_depth()
                == old(self).deserializer.spec_depth(),
            !old(self).finished && r is Ok ==> final(self).deserializer.spec_depth() == closed_depth(
                old(self).deserializer.spec_depth(),
            ),
    {
        if self.finished {
            return Ok(());
        }
        let ghost s = self.deserializer.spec_input();
        let ghost d = self.deserializer.spec_depth();
        let ghost goal = object_rest(s, self.deserializer.spec_index(), self.first, d);
        loop
            invariant
                self.deserializer.spec_input() == s,
                s == old(self).deserializer.spec_input(),
                self.deserializer.spec_depth() == d,
                d == old(self).deserializer.spec_depth(),
                !self.finished,
                goal == object_rest(s, self.deserializer.spec_index(), self.first, d),
                goal == object_rest(
                    old(self).deserializer.spec_input(),
                    old(self).deserializer.spec_index(),
                    old(self).first,
                    old(self).deserializer.spec_depth(),
                ),
                !old(self).finished,
            decreases s.len() - self.deserializer.spec_index(),
        {
            proof {
                use_type_invariant(&self.deserializer);
                grammar::lemma_object_rest_unfold(s, self.deserializer.spec_index(), self.first, d);
            }
            match self.skip_member() {
                Ok(true) => {
                    return Ok(());
                },
                Ok(false) => {},
                Err(e) => {
                    return Err(e);
                },
            }
        }
    }

    /// Reads one member and skips its value, or consumes the closing `}`
    /// (`true`).
    fn skip_member(&mut self) -> (r: Result<bool, Error>)
        requires
            !old(self).finished,
        ensures
            final(self).deserializer.spec_input() == old(self).deserializer.spec_input(),
            match member_step(
                old(self).deserializer.spec_input(),
                old(self).deserializer.spec_index(),
                old(self).first,
                old(self).deserializer.spec_depth(),
            ) {
                Ok((closed, end)) => r == Ok::<bool, Error>(closed)
                    && final(self).deserializer.spec_index() == end
                    && (closed ==> final(self).finished && final(self).deserializer.spec_depth()
                        == closed_depth(old(self).deserializer.spec_depth()))
                    && (!closed ==> !final(self).finished && !final(self).first
                        && final(self).deserializer.spec_depth() == old(self).deserializer.spec_depth()
                        && end > old(self).deserializer.spec_index()),
                Err((code, at)) => r matches Err(e) && e.is_syntax(
                    code,
                    old(self).deserializer.spec_input(),
                    at,
                ) && final(self).deserializer.spec_index() == at
                    && final(self).deserializer.spec_depth() == old(self).deserializer.spec_depth()
                    && !final(self).finished,
            },
    {
        let ghost s = self.deserializer.spec_input();
        let ghost d = self.deserializer.spec_depth();
        proof {
            use_type_invariant(&self.deserializer);
            grammar::lemma_object_rest_unfold(s, self.deserializer.spec_index(), self.first, d);
        }
        let field = match self.next_field() {
            Ok(Some(field)) => field,
            Ok(None) => {
                return Ok(true);
            },
            Err(e) => {
                return Err(e);
            },
        };
        proof {
            use_type_invariant(&*field.deserializer);
            grammar::lemma_value_progress(s, field.deserializer.spec_index(), d);
            lemma_skip_ws(s, field.deserializer.spec_index());
        }
        match field.skip() {
            Ok(()) => Ok(false),
            Err(e) => Err(e),
        }
    }

    /// Ends a visit whose visitor returned `outcome`: the visitor's error is
    /// passed on with the level closed; on success the members left unread
    /// are validated and skipped through the closing `}`.
    pub fn conclude<T>(&mut self, outcome: Result<T, Error>) -> (r: Result<T, Error>)
        ensures
            concluded(r, outcome, *old(self), final(self).deserializer),
    {
        let value = match outcome {
            Ok(value) => value,
            Err(e) => {
                self.release();
                return Err(e);
            },
        };
        match self.finish() {
            Ok(()) => Ok(value),
            Err(e) => {
                self.release();
                Err(e)
            },
        }
    }

    /// Closes the object level if the visit ended before the closing `}`.
    fn release(&mut self)
        ensures
            final(self).deserializer.spec_input() == old(self).deserializer.spec_input(),
            final(self).deserializer.spec_index() == old(self).deserializer.spec_index(),
            final(self).deserializer.spec_depth() == if !old(self).finished
                && old(self).deserializer.spec_depth() > 0 {
                (old(self).deserializer.spec_depth() - 1) as nat
            } else {
                old(self).deserializer.spec_depth()
            },
            final(self).first == old(self).first,
            final(self).finished == old(self).finished,
    {
        if !self.finished {
            self.deserializer.leave();
        }
    }
}

impl<'cursor, 'de> Field<'cursor, 'de> {

    /// Returns this member's decoded field name.
    pub fn name(&self) -> (name: &str)
        ensures
            name@ == self.name@,
    {
        match &self.name {
            Cow::Borrowed(name) => name,
            Cow::Owned(name) => name.as_str(),
        }
    }

    /// Skips and validates this member's value without constructing it.
    pub fn skip(self) -> (r: Result<(), Error>)
        ensures
            final(self.deserializer).spec_input() == old(self.deserializer).spec_input(),
            final(self.deserializer).spec_depth() == old(self.deserializer).spec_depth(),
            follows(
                r,
                grammar::skip_value(
                    old(self.deserializer).spec_input(),
                    old(self.deserializer).spec_index(),
                    old(self.deserializer).spec_depth(),
                ),
                old(self.deserializer).spec_input(),
                final(self.deserializer).spec_index(),
            ),
    {
        self.deserializer.skip_value()
    }

    /// Captures this member's value without allocating.
    pub fn raw(self) -> (r: Result<RawJson<'de>, Error>)
        ensures
            final(self.deserializer).spec_input() == old(self.deserializer).spec_input(),
            final(self.deserializer).spec_depth() == old(self.deserializer).spec_depth(),
            ({
                let s = old(self.deserializer).spec_input();
                let j = skip_ws(s, old(self.deserializer).spec_index());
                match grammar::skip_value(s, old(self.deserializer).spec_index(), old(self.deserializer).spec_depth()) {
                    Ok(end) => final(self.deserializer).spec_index() == end && if valid_utf8(s.subrange(j, end)) {
                        r matches Ok(raw) && raw.spec_json().spec_bytes() == s.subrange(j, end)
                    } else {
                        r matches Err(e) && e.is_syntax(ErrorCode::NotUtf8, s, end)
                    },
                    Err((code, at)) => r matches Err(e) && e.is_syntax(code, s, at)
                        && final(self.deserializer).spec_index() == at,
                }
            }),
    {
        match self.deserializer.capture_raw() {
            Ok(json) => Ok(RawJson::new(json)),
            Err(e) => Err(e),
        }
    }

    /// Decodes this member as a string, borrowing when it has no escapes.
    pub fn string(self) -> (r: Result<Cow<'de, str>, Error>)
        ensures
            final(self.deserializer).spec_input() == old(self.deserializer).spec_input(),
            final(self.deserializer).spec_depth() == old(self.deserializer).spec_depth(),
            match grammar::parse_string(old(self.deserializer).spec_input(), old(self.deserializer).spec_index()) {
                Ok((chars, borrowed, end)) => r matches Ok(text) && text@ == chars && (
                text is Borrowed) == borrowed && final(self.deserializer).spec_index() == end,
                Err((code, at)) => r matches Err(e) && e.is_syntax(
                    code,
                    old(self.deserializer).spec_input(),
                    at,
                ) && final(self.deserializer).spec_index() == at,
            },
    {
        self.deserializer.parse_string()
    }

    /// Visits this member as a nested object; unvisited nested fields are
    /// validated and skipped.
    pub fn object<T>(self, visitor: impl FnOnce(&mut Object<'de>) -> Result<T, Error>) -> (r:
        Result<T, Error>)
        requires
            forall|o: &mut Object<'de>| call_requires(visitor, (o,)),
        ensures
            visit_opens(r, *old(self.deserializer), *final(self.deserializer)),
            object_opens(*old(self.deserializer)) ==> exists|o: &mut Object<'de>, outcome: Result<T, Error>|
                opened_object(*o, *old(self.deserializer)) && call_ensures(visitor, (o,), outcome)
                    && concluded(r, outcome, *final(o), *final(self.deserializer)),
    {
        visit_object(self.deserializer, visitor)
    }
}

} // verus!
