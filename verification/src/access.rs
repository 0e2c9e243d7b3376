//! The decisions a visitor needs while it reads a value piece by piece: where
//! an array element or an object key starts, when a compound value ends, and
//! which kind of value comes next.
use crate::de::{Deserializer, ParsedNumber};
use crate::error::{Error, ErrorCode};
use crate::grammar;
use crate::grammar::{
    byte_at, expect, false_literal, lemma_skip_ws, literal, member_start, null_literal,
    signed_integer, skip_ws, true_literal, unsigned_integer, MAX_DEPTH,
};
use std::borrow::Cow;
use vstd::prelude::*;
use vstd::string::StrSliceExecFns;
use vstd::string::StringSliceAdditionalSpecFns;

verus! {

/// Where a visitor stands in an array it reads element by element.
#[derive(Clone, Copy, Debug, PartialEq, Eq, Structural)]
pub struct SeqState {
    /// No element has been read yet.
    pub first: bool,
    /// The closing `]` has been consumed.
    pub finished: bool,
}

/// Where a visitor stands in an object it reads entry by entry.
#[derive(Clone, Copy, Debug, PartialEq, Eq, Structural)]
pub struct MapState {
    /// No key has been read yet.
    pub first: bool,
    /// The closing `}` has been consumed.
    pub finished: bool,
    /// A key has been read and its value not yet.
    pub value_pending: bool,
}

/// How an enum value starts: as its variant name in a string, or as an
/// object holding the variant.
#[derive(Debug)]
pub enum EnumStart<'de> {
    Name(Cow<'de, str>),
    Object,
}

/// The kind of the next value, told by its first byte.
#[derive(Clone, Copy, Debug, PartialEq, Eq, Structural)]
pub enum ValueKind {
    Null,
    True,
    False,
    String,
    Array,
    Object,
    Number,
}

/// How a number token is to be read: as a float, a signed or an unsigned
/// integer, or not at all when its integer is out of range.
#[derive(Clone, Copy, Debug, PartialEq, Eq, Structural)]
pub enum NumberClass {
    Float,
    Signed(i64),
    Unsigned(u64),
    OutOfRange,
}

/// The start of the next array element from `k`: either the array closes
/// (`true` and the position after `]`), or an element follows at the
/// returned position.
pub open spec fn element_start(s: Seq<u8>, k: int, first: bool) -> Result<
    (bool, int),
    (ErrorCode, int),
> {
    let m = skip_ws(s, k);
    if byte_at(s, m) == Some(0x5du8) {
        Ok((true, m + 1))
    } else if first {
        Ok((false, m))
    } else {
        match expect(s, k, 0x2c) {
            Err(e) => Err(e),
            Ok(c) => {
                let m2 = skip_ws(s, c);
                if byte_at(s, m2) == Some(0x5du8) {
                    Err((ErrorCode::TrailingCommaInArray, m2))
                } else {
                    Ok((false, m2))
                }
            },
        }
    }
}

/// The kind of value whose first byte is `b`.
pub open spec fn kind_of(b: u8) -> Option<ValueKind> {
    if b == 0x6e {
        Some(ValueKind::Null)
    } else if b == 0x74 {
        Some(ValueKind::True)
    } else if b == 0x66 {
        Some(ValueKind::False)
    } else if b == 0x22 {
        Some(ValueKind::String)
    } else if b == 0x5b {
        Some(ValueKind::Array)
    } else if b == 0x7b {
        Some(ValueKind::Object)
    } else if b == 0x2d || grammar::is_digit(b) {
        Some(ValueKind::Number)
    } else {
        None
    }
}

/// The depth after closing one level.
pub open spec fn depth_after_leave(depth: nat) -> nat {
    if depth > 0 {
        (depth - 1) as nat
    } else {
        0
    }
}

/// What opening an array or object whose delimiter is `open` gives: the
/// position after it, or the error. Opening fails past the nesting limit.
pub open spec fn opening(s: Seq<u8>, k: int, depth: nat, open: u8) -> Result<int, (ErrorCode, int)> {
    match expect(s, k, open) {
        Err(e) => Err(e),
        Ok(p) => if depth >= MAX_DEPTH {
            Err((ErrorCode::RecursionLimit, p))
        } else {
            Ok(p)
        },
    }
}

impl<'de> Deserializer<'de> {
    fn open(&mut self, delimiter: u8) -> (r: Result<(), Error>)
        ensures
            final(self).spec_input() == old(self).spec_input(),
            match opening(old(self).spec_input(), old(self).spec_index(), old(self).spec_depth(), delimiter) {
                Ok(p) => r is Ok && final(self).spec_index() == p && final(self).spec_depth()
                    == old(self).spec_depth() + 1,
                Err((code, at)) => r matches Err(e) && e.is_syntax(code, old(self).spec_input(), at)
                    && final(self).spec_index() == at && final(self).spec_depth()
                    == old(self).spec_depth(),
            },
    {
        self.expect_byte(delimiter)?;
        self.enter()
    }

    /// Opens an array for a visitor that reads it element by element.
    pub fn begin_seq(&mut self) -> (r: Result<SeqState, Error>)
        ensures
            final(self).spec_input() == old(self).spec_input(),
            match opening(old(self).spec_input(), old(self).spec_index(), old(self).spec_depth(), 0x5b) {
                Ok(p) => r == Ok::<SeqState, Error>(SeqState { first: true, finished: false })
                    && final(self).spec_index() == p && final(self).spec_depth()
                    == old(self).spec_depth() + 1,
                Err((code, at)) => r matches Err(e) && e.is_syntax(code, old(self).spec_input(), at)
                    && final(self).spec_index() == at && final(self).spec_depth()
                    == old(self).spec_depth(),
            },
    {
        self.open(0x5b)?;
        Ok(SeqState { first: true, finished: false })
    }

    /// Opens an object for a visitor that reads it entry by entry.
    pub fn begin_map(&mut self) -> (r: Result<MapState, Error>)
        ensures
            final(self).spec_input() == old(self).spec_input(),
            match opening(old(self).spec_input(), old(self).spec_index(), old(self).spec_depth(), 0x7b) {
                Ok(p) => r == Ok::<MapState, Error>(
                    MapState { first: true, finished: false, value_pending: false },
                ) && final(self).spec_index() == p && final(self).spec_depth()
                    == old(self).spec_depth() + 1,
                Err((code, at)) => r matches Err(e) && e.is_syntax(code, old(self).spec_input(), at)
                    && final(self).spec_index() == at && final(self).spec_depth()
                    == old(self).spec_depth(),
            },
    {
        self.open(0x7b)?;
        Ok(MapState { first: true, finished: false, value_pending: false })
    }

    /// Moves to the next element of an array: `Ok(true)` when an element
    /// follows, `Ok(false)` once the closing `]` has been consumed.
    pub fn next_element(&mut self, state: &mut SeqState) -> (r: Result<bool, Error>)
        ensures
            final(self).spec_input() == old(self).spec_input(),
            old(state).finished ==> r == Ok::<bool, Error>(false) && *final(state) == *old(state)
                && *final(self) == *old(self),
            !old(state).finished ==> match element_start(
                old(self).spec_input(),
                old(self).spec_index(),
                old(state).first,
            ) {
                Ok((closed, at)) => {
                    &&& r == Ok::<bool, Error>(!closed)
                    &&& final(self).spec_index() == at
                    &&& if closed {
                        &&& final(state).finished
                        &&& final(state).first == old(state).first
                        &&& final(self).spec_depth() == depth_after_leave(old(self).spec_depth())
                    } else {
                        &&& !final(state).finished
                        &&& !final(state).first
                        &&& final(self).spec_depth() == old(self).spec_depth()
                    }
                },
                Err((code, at)) => {
                    &&& r matches Err(e) && e.is_syntax(code, old(self).spec_input(), at)
                    &&& final(self).spec_index() == at
                    &&& final(self).spec_depth() == old(self).spec_depth()
                    &&& *final(state) == *old(state)
                },
            },
    {
        if state.finished {
            return Ok(false);
        }
        let ghost s = self.spec_input();
        let ghost k = self.spec_index();
        self.remaining_len();
        proof {
            lemma_skip_ws(s, k);
        }
        let next = self.peek();
        if next == Some(0x5d) {
            self.expect_byte(0x5d)?;
            self.leave();
            state.finished = true;
            return Ok(false);
        }
        if !state.first {
            self.expect_byte(0x2c)?;
            self.remaining_len();
            if self.peek() == Some(0x5d) {
                return Err(self.error(ErrorCode::TrailingCommaInArray));
            }
        }
        state.first = false;
        Ok(true)
    }

    /// Moves to the next key of an object: `Ok(Some(key))` with the parser
    /// after the key's `:`, or `Ok(None)` once the closing `}` has been
    /// consumed. Refused while the previous key's value has not been read.
    pub fn next_key(&mut self, state: &mut MapState) -> (r: Result<Option<Cow<'de, str>>, Error>)
        ensures
            final(self).spec_input() == old(self).spec_input(),
            old(state).finished ==> (r matches Ok(None) && *final(state) == *old(state)
                && *final(self) == *old(self)),
            !old(state).finished && old(state).value_pending ==> {
                &&& r matches Err(e) && e.is_syntax(
                    ErrorCode::ObjectValueNotConsumed,
                    old(self).spec_input(),
                    old(self).spec_index(),
                )
                &&& *final(state) == *old(state)
                &&& *final(self) == *old(self)
            },
            !old(state).finished && !old(state).value_pending ==> match member_start(
                old(self).spec_input(),
                old(self).spec_index(),
                old(state).first,
            ) {
                Ok((closed, name, borrowed, at)) => {
                    &&& final(self).spec_index() == at
                    &&& if closed {
                        &&& r matches Ok(None)
                        &&& final(state).finished
                        &&& final(state).first == old(state).first
                        &&& !final(state).value_pending
                        &&& final(self).spec_depth() == depth_after_leave(old(self).spec_depth())
                    } else {
                        &&& r matches Ok(Some(key)) && key@ == name && (key is Borrowed) == borrowed
                        &&& !final(state).finished
                        &&& !final(state).first
                        &&& final(state).value_pending
                        &&& final(self).spec_depth() == old(self).spec_depth()
                    }
                },
                Err((code, at)) => {
                    &&& r matches Err(e) && e.is_syntax(code, old(self).spec_input(), at)
                    &&& final(self).spec_index() == at
                    &&& final(self).spec_depth() == old(self).spec_depth()
                    &&& !final(state).finished
                    &&& !final(state).value_pending
                },
            },
    {
        if state.finished {
            return Ok(None);
        }
        if state.value_pending {
            return Err(self.error(ErrorCode::ObjectValueNotConsumed));
        }
        let ghost s = self.spec_input();
        let ghost k = self.spec_index();
        self.remaining_len();
        proof {
            lemma_skip_ws(s, k);
        }
        let next = self.peek();
        if next == Some(0x7d) {
            self.expect_byte(0x7d)?;
            self.leave();
            state.finished = true;
            return Ok(None);
        }
        if !state.first {
            self.expect_byte(0x2c)?;
            self.remaining_len();
            proof {
                lemma_skip_ws(s, self.spec_index());
            }
            if self.peek() == Some(0x7d) {
                return Err(self.error(ErrorCode::TrailingCommaInObject));
            }
        }
        state.first = false;
        let key = self.parse_string()?;
        self.expect_byte(0x3a)?;
        state.value_pending = true;
        Ok(Some(key))
    }

    /// Announces the value of an object entry: refused unless its key was read.
    pub fn next_value(&self, state: &mut MapState) -> (r: Result<(), Error>)
        ensures
            old(state).value_pending ==> r is Ok && *final(state) == (MapState {
                value_pending: false,
                ..*old(state)
            }),
            !old(state).value_pending ==> (r matches Err(e) && e.is_syntax(
                ErrorCode::ObjectKeyNotConsumed,
                self.spec_input(),
                self.spec_index(),
            ) && *final(state) == *old(state)),
    {
        if !state.value_pending {
            return Err(self.error(ErrorCode::ObjectKeyNotConsumed));
        }
        state.value_pending = false;
        Ok(())
    }

    /// Starts an enum value: a string holding the variant name, or an object
    /// holding one variant, opened here.
    pub fn begin_enum(&mut self) -> (r: Result<EnumStart<'de>, Error>)
        ensures
            final(self).spec_input() == old(self).spec_input(),
            ({
                let s = old(self).spec_input();
                let j = skip_ws(s, old(self).spec_index());
                if byte_at(s, j) == Some(0x22u8) {
                    match grammar::parse_string(s, j) {
                        Ok((chars, borrowed, end)) => r matches Ok(EnumStart::Name(name))
                            && name@ == chars && (name is Borrowed) == borrowed
                            && final(self).spec_index() == end && final(self).spec_depth()
                            == old(self).spec_depth(),
                        Err((code, at)) => r matches Err(e) && e.is_syntax(code, s, at)
                            && final(self).spec_index() == at && final(self).spec_depth()
                            == old(self).spec_depth(),
                    }
                } else if byte_at(s, j) == Some(0x7bu8) {
                    match opening(s, j, old(self).spec_depth(), 0x7b) {
                        Ok(p) => r matches Ok(EnumStart::Object) && final(self).spec_index() == p
                            && final(self).spec_depth() == old(self).spec_depth() + 1,
                        Err((code, at)) => r matches Err(e) && e.is_syntax(code, s, at)
                            && final(self).spec_index() == at && final(self).spec_depth()
                            == old(self).spec_depth(),
                    }
                } else {
                    r matches Err(e) && e.is_syntax(ErrorCode::ExpectedEnum, s, j)
                        && final(self).spec_index() == j && final(self).spec_depth()
                        == old(self).spec_depth()
                }
            }),
    {
        let ghost s = self.spec_input();
        let ghost k = self.spec_index();
        self.remaining_len();
        proof {
            lemma_skip_ws(s, k);
        }
        let next = self.peek();
        if next == Some(0x22) {
            let name = self.parse_string()?;
            Ok(EnumStart::Name(name))
        } else if next == Some(0x7b) {
            self.open(0x7b)?;
            Ok(EnumStart::Object)
        } else {
            Err(self.error(ErrorCode::ExpectedEnum))
        }
    }

    /// Reads the variant name inside an enum object, through its `:`.
    pub fn variant_name(&mut self) -> (r: Result<Cow<'de, str>, Error>)
        ensures
            final(self).spec_input() == old(self).spec_input(),
            final(self).spec_depth() == old(self).spec_depth(),
            ({
                let s = old(self).spec_input();
                match grammar::parse_string(s, old(self).spec_index()) {
                    Ok((chars, borrowed, end)) => match expect(s, end, 0x3a) {
                        Ok(p) => r matches Ok(name) && name@ == chars && (name is Borrowed)
                            == borrowed && final(self).spec_index() == p,
                        Err((code, at)) => r matches Err(e) && e.is_syntax(code, s, at)
                            && final(self).spec_index() == at,
                    },
                    Err((code, at)) => r matches Err(e) && e.is_syntax(code, s, at)
                        && final(self).spec_index() == at,
                }
            }),
    {
        let name = self.parse_string()?;
        self.expect_byte(0x3a)?;
        Ok(name)
    }

    /// Closes an enum object after its variant's value.
    pub fn end_variant(&mut self) -> (r: Result<(), Error>)
        ensures
            final(self).spec_input() == old(self).spec_input(),
            match expect(old(self).spec_input(), old(self).spec_index(), 0x7d) {
                Ok(p) => r is Ok && final(self).spec_index() == p && final(self).spec_depth()
                    == depth_after_leave(old(self).spec_depth()),
                Err((code, at)) => r matches Err(e) && e.is_syntax(
                    code,
                    old(self).spec_input(),
                    at,
                ) && final(self).spec_index() == at && final(self).spec_depth()
                    == old(self).spec_depth(),
            },
    {
        self.expect_byte(0x7d)?;
        self.leave();
        Ok(())
    }

    /// Tells the kind of the next value from its first byte.
    pub fn value_kind(&mut self) -> (r: Result<ValueKind, Error>)
        ensures
            final(self).spec_input() == old(self).spec_input(),
            final(self).spec_depth() == old(self).spec_depth(),
            final(self).spec_index() == skip_ws(old(self).spec_input(), old(self).spec_index()),
            match byte_at(old(self).spec_input(), final(self).spec_index()) {
                None => r matches Err(e) && e.is_syntax(
                    ErrorCode::UnexpectedEnd,
                    old(self).spec_input(),
                    final(self).spec_index(),
                ),
                Some(b) => match kind_of(b) {
                    Some(kind) => r == Ok::<ValueKind, Error>(kind),
                    None => r matches Err(e) && e.is_syntax(
                        ErrorCode::ExpectedValue,
                        old(self).spec_input(),
                        final(self).spec_index(),
                    ),
                },
            },
    {
        match self.peek() {
            None => Err(self.error(ErrorCode::UnexpectedEnd)),
            Some(b) => {
                if b == 0x6e {
                    Ok(ValueKind::Null)
                } else if b == 0x74 {
                    Ok(ValueKind::True)
                } else if b == 0x66 {
                    Ok(ValueKind::False)
                } else if b == 0x22 {
                    Ok(ValueKind::String)
                } else if b == 0x5b {
                    Ok(ValueKind::Array)
                } else if b == 0x7b {
                    Ok(ValueKind::Object)
                } else if b == 0x2d || (0x30 <= b && b <= 0x39) {
                    Ok(ValueKind::Number)
                } else {
                    Err(self.error(ErrorCode::ExpectedValue))
                }
            },
        }
    }

    /// Reads `true` or `false`.
    pub fn parse_bool(&mut self) -> (r: Result<bool, Error>)
        ensures
            final(self).spec_input() == old(self).spec_input(),
            final(self).spec_depth() == old(self).spec_depth(),
            ({
                let s = old(self).spec_input();
                let j = skip_ws(s, old(self).spec_index());
                if byte_at(s, j) == Some(0x74u8) {
                    match literal(s, j, true_literal()) {
                        Ok(p) => r == Ok::<bool, Error>(true) && final(self).spec_index() == p,
                        Err((code, at)) => r matches Err(e) && e.is_syntax(code, s, at)
                            && final(self).spec_index() == at,
                    }
                } else if byte_at(s, j) == Some(0x66u8) {
                    match literal(s, j, false_literal()) {
                        Ok(p) => r == Ok::<bool, Error>(false) && final(self).spec_index() == p,
                        Err((code, at)) => r matches Err(e) && e.is_syntax(code, s, at)
                            && final(self).spec_index() == at,
                    }
                } else {
                    r matches Err(e) && e.is_syntax(ErrorCode::ExpectedBoolean, s, j)
                        && final(self).spec_index() == j
                }
            }),
    {
        let ghost s = self.spec_input();
        let ghost k = self.spec_index();
        self.remaining_len();
        proof {
            lemma_skip_ws(s, k);
        }
        let next = self.peek();
        if next == Some(0x74) {
            let lit: [u8; 4] = [0x74, 0x72, 0x75, 0x65];
            assert(lit@ =~= true_literal());
            self.parse_literal(&lit)?;
            Ok(true)
        } else if next == Some(0x66) {
            let lit: [u8; 5] = [0x66, 0x61, 0x6c, 0x73, 0x65];
            assert(lit@ =~= false_literal());
            self.parse_literal(&lit)?;
            Ok(false)
        } else {
            Err(self.error(ErrorCode::ExpectedBoolean))
        }
    }

    /// Reads `null` when it comes next: `Ok(true)` then, and `Ok(false)`
    /// without consuming anything but whitespace otherwise.
    pub fn parse_null_if_present(&mut self) -> (r: Result<bool, Error>)
        ensures
            final(self).spec_input() == old(self).spec_input(),
            final(self).spec_depth() == old(self).spec_depth(),
            ({
                let s = old(self).spec_input();
                let j = skip_ws(s, old(self).spec_index());
                if byte_at(s, j) == Some(0x6eu8) {
                    match literal(s, j, null_literal()) {
                        Ok(p) => r == Ok::<bool, Error>(true) && final(self).spec_index() == p,
                        Err((code, at)) => r matches Err(e) && e.is_syntax(code, s, at)
                            && final(self).spec_index() == at,
                    }
                } else {
                    r == Ok::<bool, Error>(false) && final(self).spec_index() == j
                }
            }),
    {
        let ghost s = self.spec_input();
        let ghost k = self.spec_index();
        self.remaining_len();
        proof {
            lemma_skip_ws(s, k);
        }
        let next = self.peek();
        if next == Some(0x6e) {
            let lit: [u8; 4] = [0x6e, 0x75, 0x6c, 0x6c];
            assert(lit@ =~= null_literal());
            self.parse_literal(&lit)?;
            Ok(true)
        } else {
            Ok(false)
        }
    }

    /// Reads a string that holds exactly one character.
    pub fn parse_char(&mut self) -> (r: Result<char, Error>)
        ensures
            final(self).spec_input() == old(self).spec_input(),
            final(self).spec_depth() == old(self).spec_depth(),
            match grammar::parse_string(old(self).spec_input(), old(self).spec_index()) {
                Ok((chars, _, end)) => final(self).spec_index() == end && if chars.len() == 1 {
                    r == Ok::<char, Error>(chars[0])
                } else {
                    r matches Err(e) && e.is_syntax(
                        ErrorCode::ExpectedOneCharacter,
                        old(self).spec_input(),
                        end,
                    )
                },
                Err((code, at)) => r matches Err(e) && e.is_syntax(
                    code,
                    old(self).spec_input(),
                    at,
                ) && final(self).spec_index() == at,
            },
    {
        let value = self.parse_string()?;
        let text: &str = match &value {
            Cow::Borrowed(text) => text,
            Cow::Owned(text) => text.as_str(),
        };
        if text.unicode_len() != 1 {
            return Err(self.error(ErrorCode::ExpectedOneCharacter));
        }
        Ok(text.get_char(0))
    }

    /// Reads a signed integer that must lie in `[min, max]`.
    pub fn parse_i64_in(&mut self, min: i64, max: i64) -> (r: Result<i64, Error>)
        ensures
            final(self).spec_input() == old(self).spec_input(),
            final(self).spec_depth() == old(self).spec_depth(),
            match signed_integer(old(self).spec_input(), old(self).spec_index()) {
                Ok((v, e)) => final(self).spec_index() == e && if min <= v <= max {
                    r == Ok::<i64, Error>(v)
                } else {
                    r matches Err(err) && err.is_syntax(
                        ErrorCode::IntegerOutOfRange,
                        old(self).spec_input(),
                        e,
                    )
                },
                Err((code, at)) => r matches Err(err) && err.is_syntax(
                    code,
                    old(self).spec_input(),
                    at,
                ) && final(self).spec_index() == at,
            },
    {
        let value = self.parse_i64_value()?;
        if value < min || value > max {
            return Err(self.error(ErrorCode::IntegerOutOfRange));
        }
        Ok(value)
    }

    /// Reads an unsigned integer that must not exceed `max`.
    pub fn parse_u64_up_to(&mut self, max: u64) -> (r: Result<u64, Error>)
        ensures
            final(self).spec_input() == old(self).spec_input(),
            final(self).spec_depth() == old(self).spec_depth(),
            match unsigned_integer(old(self).spec_input(), old(self).spec_index()) {
                Ok((v, e)) => final(self).spec_index() == e && if v <= max {
                    r == Ok::<u64, Error>(v)
                } else {
                    r matches Err(err) && err.is_syntax(
                        ErrorCode::IntegerOutOfRange,
                        old(self).spec_input(),
                        e,
                    )
                },
                Err((code, at)) => r matches Err(err) && err.is_syntax(
                    code,
                    old(self).spec_input(),
                    at,
                ) && final(self).spec_index() == at,
            },
    {
        let value = self.parse_u64_value()?;
        if value > max {
            return Err(self.error(ErrorCode::IntegerOutOfRange));
        }
        Ok(value)
    }
}

impl<'de> ParsedNumber<'de> {
    /// How the token is to be read: a fraction, an exponent or a negative
    /// zero make it a float; otherwise its integer part decides.
    pub fn class(&self) -> (class: NumberClass)
        ensures
            class == if self.float || self.raw.spec_bytes() == seq![0x2du8, 0x30u8] {
                NumberClass::Float
            } else if self.negative {
                match self.magnitude {
                    Some(m) => if m <= 0x8000_0000_0000_0000 {
                        NumberClass::Signed((0 - m) as i64)
                    } else {
                        NumberClass::OutOfRange
                    },
                    None => NumberClass::OutOfRange,
                }
            } else {
                match self.magnitude {
                    Some(m) => NumberClass::Unsigned(m),
                    None => NumberClass::OutOfRange,
                }
            },
    {
        let minus_zero: [u8; 2] = [0x2d, 0x30];
        if self.float || crate::ser::same_bytes(self.raw.as_bytes(), &minus_zero) {
            return NumberClass::Float;
        }
        if self.negative {
            match self.checked_i64() {
                Some(v) => NumberClass::Signed(v),
                None => NumberClass::OutOfRange,
            }
        } else {
            match self.magnitude {
                Some(m) => NumberClass::Unsigned(m),
                None => NumberClass::OutOfRange,
            }
        }
    }
}

} // verus!
