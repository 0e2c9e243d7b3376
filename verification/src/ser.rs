//! Writing JSON text.
//!
//! The serializer appends to a byte vector. Each operation states exactly
//! which bytes it appends, so a document is the concatenation of the pieces
//! that built it.
use crate::error::{Error, ErrorKind};
use vstd::prelude::*;
use vstd::string::StringSliceAdditionalSpecFns;

verus! {

/// The lowercase hexadecimal digit for `n` (below 16).
pub open spec fn hex_char(n: u8) -> u8 {
    if n < 10 {
        (0x30 + n) as u8
    } else {
        (0x61 + n - 10) as u8
    }
}

/// The bytes that stand for byte `b` inside a quoted string.
pub open spec fn escape_byte(b: u8) -> Seq<u8> {
    if b == 0x22 {
        seq![0x5cu8, 0x22u8]
    } else if b == 0x5c {
        seq![0x5cu8, 0x5cu8]
    } else if b == 0x08 {
        seq![0x5cu8, 0x62u8]
    } else if b == 0x09 {
        seq![0x5cu8, 0x74u8]
    } else if b == 0x0a {
        seq![0x5cu8, 0x6eu8]
    } else if b == 0x0c {
        seq![0x5cu8, 0x66u8]
    } else if b == 0x0d {
        seq![0x5cu8, 0x72u8]
    } else if b < 0x20 {
        seq![0x5cu8, 0x75u8, 0x30u8, 0x30u8, hex_char(b / 16), hex_char(b % 16)]
    } else {
        seq![b]
    }
}

/// The escaped form of a string body: each byte replaced by its escape.
pub open spec fn escape_bytes(s: Seq<u8>) -> Seq<u8>
    decreases s.len(),
{
    if s.len() == 0 {
        Seq::empty()
    } else {
        escape_bytes(s.drop_last()) + escape_byte(s.last())
    }
}

/// A string written as JSON: a quote, the escaped body and a quote.
pub open spec fn quoted(s: Seq<u8>) -> Seq<u8> {
    seq![0x22u8] + escape_bytes(s) + seq![0x22u8]
}

/// `n` copies of the two-space indentation unit.
pub open spec fn spaces(depth: nat) -> Seq<u8> {
    Seq::new(2 * depth, |i: int| 0x20u8)
}

/// The letter that follows the backslash in the escape of `byte`: `u` for a
/// `\u00XX` escape, the short escape's letter, or zero when the byte is
/// written as is.
pub fn escape_code(byte: u8) -> (code: u8)
    ensures
        code == 0 <==> escape_byte(byte) == seq![byte],
        code == 0x75 ==> escape_byte(byte) == seq![
            0x5cu8,
            0x75u8,
            0x30u8,
            0x30u8,
            hex_char(byte / 16),
            hex_char(byte % 16),
        ],
        code != 0 && code != 0x75 ==> escape_byte(byte) == seq![0x5cu8, code],
{
    proof {
        if byte < 0x20 || byte == 0x22 || byte == 0x5c {
            assert(escape_byte(byte).len() > 1);
            assert(seq![byte].len() == 1);
        }
    }
    if byte == 0x22 {
        0x22
    } else if byte == 0x5c {
        0x5c
    } else if byte == 0x08 {
        0x62
    } else if byte == 0x09 {
        0x74
    } else if byte == 0x0a {
        0x6e
    } else if byte == 0x0c {
        0x66
    } else if byte == 0x0d {
        0x72
    } else if byte < 0x20 {
        0x75
    } else {
        proof {
            assert(escape_byte(byte) =~= seq![byte]);
        }
        0
    }
}

fn hex_digit(n: u8) -> (digit: u8)
    requires
        n < 16,
    ensures
        digit == hex_char(n),
{
    if n < 10 {
        0x30 + n
    } else {
        0x61 + n - 10
    }
}

/// The decimal digits of `n`, most significant first, with no leading zero.
pub open spec fn decimal_digits(n: nat) -> Seq<u8>
    decreases n,
{
    if n < 10 {
        seq![(0x30 + n) as u8]
    } else {
        decimal_digits(n / 10).push((0x30 + n % 10) as u8)
    }
}

/// The decimal text of `v`: a minus sign for a negative value, then the
/// digits of its magnitude.
pub open spec fn signed_decimal(v: int) -> Seq<u8> {
    if v < 0 {
        seq![0x2du8] + decimal_digits((-v) as nat)
    } else {
        decimal_digits(v as nat)
    }
}

/// Formats an unsigned integer in decimal with the `itoa` crate.
///
/// Calls `itoa::Buffer::new().format(value)` and copies out its bytes. The
/// claim is what the crate documents: the decimal representation of the
/// integer, digits only, with no sign, padding or leading zero.
#[verifier::external_body]
fn format_decimal(value: u128) -> (digits: Vec<u8>)
    ensures
        digits@ == decimal_digits(value as nat),
{
    itoa::Buffer::new().format(value).as_bytes().to_vec()
}

/// The capacity to reserve before serializing a value of `size` bytes.
///
/// A value reached through a wide pointer (a string or a slice) gets its own
/// size plus two, when that stays within 4096 bytes and is above `minimum`;
/// anything else gets `minimum`.
pub fn initial_capacity(wide: bool, size: usize, minimum: usize) -> (capacity: usize)
    ensures
        capacity == if wide {
            let padded = if size + 2 <= usize::MAX {
                size + 2
            } else {
                usize::MAX as int
            };
            if padded <= 4096 {
                if padded >= minimum {
                    padded
                } else {
                    minimum as int
                }
            } else {
                minimum as int
            }
        } else {
            minimum as int
        },
{
    if wide {
        let padded = size.saturating_add(2);
        if padded <= 4096 {
            if padded >= minimum {
                padded
            } else {
                minimum
            }
        } else {
            minimum
        }
    } else {
        minimum
    }
}

/// How nested values are laid out: what goes before each member and after
/// each key.
pub trait Formatter {
    /// The bytes written before a member at nesting `depth`.
    spec fn indent_bytes(depth: nat) -> Seq<u8>;

    /// The bytes written between a key and its value.
    spec fn colon_bytes() -> Seq<u8>;

    /// Writes the line break and indentation for nesting `depth`.
    fn indent(&mut self, writer: &mut Vec<u8>, depth: usize)
        ensures
            final(writer)@ == old(writer)@ + Self::indent_bytes(depth as nat),
    ;

    /// Writes the separator between a key and its value.
    fn write_colon(&mut self, writer: &mut Vec<u8>)
        ensures
            final(writer)@ == old(writer)@ + Self::colon_bytes(),
    ;
}

/// Writes no whitespace at all.
#[derive(Clone, Copy, Debug, Default)]
pub struct CompactFormatter;

impl Formatter for CompactFormatter {
    open spec fn indent_bytes(depth: nat) -> Seq<u8> {
        Seq::empty()
    }

    open spec fn colon_bytes() -> Seq<u8> {
        seq![0x3au8]
    }

    fn indent(&mut self, writer: &mut Vec<u8>, depth: usize) {
        assert(writer@ =~= writer@ + Seq::<u8>::empty());
    }

    fn write_colon(&mut self, writer: &mut Vec<u8>) {
        writer.push(0x3a);
    }
}

/// Puts each member on a line of its own, indented by two spaces per level.
#[derive(Clone, Copy, Debug, Default)]
pub struct PrettyFormatter;

impl Formatter for PrettyFormatter {
    open spec fn indent_bytes(depth: nat) -> Seq<u8> {
        seq![0x0au8] + spaces(depth)
    }

    open spec fn colon_bytes() -> Seq<u8> {
        seq![0x3au8, 0x20u8]
    }

    fn indent(&mut self, writer: &mut Vec<u8>, depth: usize) {
        let ghost start = writer@;
        writer.push(0x0a);
        let mut level: usize = 0;
        while level < depth
            invariant
                level <= depth,
                writer@ == start + seq![0x0au8] + spaces(level as nat),
            decreases depth - level,
        {
            writer.push(0x20);
            writer.push(0x20);
            level = level + 1;
            assert(writer@ =~= start + seq![0x0au8] + spaces(level as nat));
        }
    }

    fn write_colon(&mut self, writer: &mut Vec<u8>) {
        writer.push(0x3a);
        writer.push(0x20);
    }
}

/// Streaming JSON serializer that appends to a byte vector.
#[derive(Debug)]
pub struct Serializer<F> {
    writer: Vec<u8>,
    formatter: F,
    depth: usize,
}

impl<F> Serializer<F> {
    /// The bytes written so far.
    pub closed spec fn output(&self) -> Seq<u8> {
        self.writer@
    }

    /// How many arrays and objects are open.
    pub closed spec fn spec_depth(&self) -> nat {
        self.depth as nat
    }
}

impl Serializer<CompactFormatter> {
    /// A serializer that writes compact JSON after what `writer` holds.
    pub fn new(writer: Vec<u8>) -> (serializer: Self)
        ensures
            serializer.output() == writer@,
            serializer.spec_depth() == 0,
    {
        Serializer { writer, formatter: CompactFormatter, depth: 0 }
    }
}

impl Serializer<PrettyFormatter> {
    /// A serializer that writes indented JSON after what `writer` holds.
    pub fn pretty(writer: Vec<u8>) -> (serializer: Self)
        ensures
            serializer.output() == writer@,
            serializer.spec_depth() == 0,
    {
        Serializer { writer, formatter: PrettyFormatter, depth: 0 }
    }
}

impl<F: Formatter> Serializer<F> {
    /// How many arrays and objects are open.
    pub fn depth(&self) -> (depth: usize)
        ensures
            depth == self.spec_depth(),
    {
        self.depth
    }

    /// The bytes written.
    pub fn into_inner(self) -> (writer: Vec<u8>)
        ensures
            writer@ == self.output(),
    {
        self.writer
    }

    /// Appends `bytes` verbatim.
    pub fn write(&mut self, bytes: &[u8])
        ensures
            final(self).output() == old(self).output() + bytes@,
            final(self).spec_depth() == old(self).spec_depth(),
    {
        let ghost start = self.writer@;
        let mut i: usize = 0;
        while i < bytes.len()
            invariant
                i <= bytes@.len(),
                self.writer@ == start + bytes@.take(i as int),
                self.depth == old(self).depth,
            decreases bytes@.len() - i,
        {
            self.writer.push(bytes[i]);
            i = i + 1;
            assert(self.writer@ =~= start + bytes@.take(i as int));
        }
        assert(bytes@.take(i as int) =~= bytes@);
    }

    fn indent(&mut self)
        ensures
            final(self).output() == old(self).output() + F::indent_bytes(
                old(self).spec_depth(),
            ),
            final(self).spec_depth() == old(self).spec_depth(),
    {
        self.formatter.indent(&mut self.writer, self.depth);
    }

    fn write_colon(&mut self)
        ensures
            final(self).output() == old(self).output() + F::colon_bytes(),
            final(self).spec_depth() == old(self).spec_depth(),
    {
        self.formatter.write_colon(&mut self.writer);
    }

    /// Writes the decimal digits of `value`.
    pub fn write_u128(&mut self, value: u128)
        ensures
            final(self).output() == old(self).output() + decimal_digits(value as nat),
            final(self).spec_depth() == old(self).spec_depth(),
    {
        let digits = format_decimal(value);
        self.write(digits.as_slice());
    }

    /// Writes the decimal digits of `value`.
    pub fn write_u64(&mut self, value: u64)
        ensures
            final(self).output() == old(self).output() + decimal_digits(value as nat),
            final(self).spec_depth() == old(self).spec_depth(),
    {
        self.write_u128(value as u128);
    }

    /// Writes `value` in decimal, with a leading minus sign when negative.
    pub fn write_i128(&mut self, value: i128)
        ensures
            final(self).output() == old(self).output() + signed_decimal(value as int),
            final(self).spec_depth() == old(self).spec_depth(),
    {
        let ghost start = self.writer@;
        if value < 0 {
            self.writer.push(0x2d);
            let magnitude: u128 = ((-(value + 1)) as u128) + 1;
            self.write_u128(magnitude);
            assert(self.writer@ =~= start + signed_decimal(value as int));
        } else {
            self.write_u128(value as u128);
        }
    }

    /// Writes `value` in decimal, with a leading minus sign when negative.
    pub fn write_i64(&mut self, value: i64)
        ensures
            final(self).output() == old(self).output() + signed_decimal(value as int),
            final(self).spec_depth() == old(self).spec_depth(),
    {
        self.write_i128(value as i128);
    }

    /// Writes an integer map key: its decimal text in quotes.
    pub fn write_i128_key(&mut self, value: i128)
        ensures
            final(self).output() == old(self).output() + seq![0x22u8] + signed_decimal(
                value as int,
            ) + seq![0x22u8],
            final(self).spec_depth() == old(self).spec_depth(),
    {
        let ghost start = self.writer@;
        self.writer.push(0x22);
        self.write_i128(value);
        self.writer.push(0x22);
        assert(self.writer@ =~= start + seq![0x22u8] + signed_decimal(value as int) + seq![
            0x22u8,
        ]);
    }

    /// Writes an unsigned integer map key: its decimal text in quotes.
    pub fn write_u128_key(&mut self, value: u128)
        ensures
            final(self).output() == old(self).output() + seq![0x22u8] + decimal_digits(
                value as nat,
            ) + seq![0x22u8],
            final(self).spec_depth() == old(self).spec_depth(),
    {
        let ghost start = self.writer@;
        self.writer.push(0x22);
        self.write_u128(value);
        self.writer.push(0x22);
        assert(self.writer@ =~= start + seq![0x22u8] + decimal_digits(value as nat) + seq![
            0x22u8,
        ]);
    }

    /// Writes `true` or `false`.
    pub fn write_bool(&mut self, value: bool)
        ensures
            final(self).output() == old(self).output() + if value {
                seq![0x74u8, 0x72u8, 0x75u8, 0x65u8]
            } else {
                seq![0x66u8, 0x61u8, 0x6cu8, 0x73u8, 0x65u8]
            },
            final(self).spec_depth() == old(self).spec_depth(),
    {
        let ghost start = self.writer@;
        if value {
            self.writer.push(0x74);
            self.writer.push(0x72);
            self.writer.push(0x75);
            self.writer.push(0x65);
        } else {
            self.writer.push(0x66);
            self.writer.push(0x61);
            self.writer.push(0x6c);
            self.writer.push(0x73);
            self.writer.push(0x65);
        }
        assert(self.writer@ =~= start + if value {
            seq![0x74u8, 0x72u8, 0x75u8, 0x65u8]
        } else {
            seq![0x66u8, 0x61u8, 0x6cu8, 0x73u8, 0x65u8]
        });
    }

    /// Writes `null`.
    pub fn write_null(&mut self)
        ensures
            final(self).output() == old(self).output() + seq![0x6eu8, 0x75u8, 0x6cu8, 0x6cu8],
            final(self).spec_depth() == old(self).spec_depth(),
    {
        let ghost start = self.writer@;
        self.writer.push(0x6e);
        self.writer.push(0x75);
        self.writer.push(0x6c);
        self.writer.push(0x6c);
        assert(self.writer@ =~= start + seq![0x6eu8, 0x75u8, 0x6cu8, 0x6cu8]);
    }

    /// Writes `value` as a quoted JSON string, escaping quotes, backslashes
    /// and control bytes.
    pub fn write_string(&mut self, value: &str)
        ensures
            final(self).output() == old(self).output() + quoted(value.spec_bytes()),
            final(self).spec_depth() == old(self).spec_depth(),
    {
        let ghost start = self.writer@;
        self.writer.push(0x22);
        let bytes = value.as_bytes();
        let mut i: usize = 0;
        while i < bytes.len()
            invariant
                i <= bytes@.len(),
                bytes@ == value.spec_bytes(),
                self.writer@ == start + seq![0x22u8] + escape_bytes(bytes@.take(i as int)),
                self.depth == old(self).depth,
            decreases bytes@.len() - i,
        {
            let byte = bytes[i];
            let code = escape_code(byte);
            let ghost before = self.writer@;
            if code == 0 {
                self.writer.push(byte);
            } else if code == 0x75 {
                self.writer.push(0x5c);
                self.writer.push(0x75);
                self.writer.push(0x30);
                self.writer.push(0x30);
                let high = hex_digit(byte / 16);
                let low = hex_digit(byte % 16);
                self.writer.push(high);
                self.writer.push(low);
            } else {
                self.writer.push(0x5c);
                self.writer.push(code);
            }
            assert(self.writer@ =~= before + escape_byte(byte));
            assert(bytes@.take(i + 1).drop_last() =~= bytes@.take(i as int));
            i = i + 1;
        }
        assert(bytes@.take(i as int) =~= bytes@);
        self.writer.push(0x22);
        assert(self.writer@ =~= start + quoted(value.spec_bytes()));
    }
}


/// The struct name by which serde marks a value that is to be written verbatim.
pub const RAW_VALUE_TOKEN: &'static str = "$serde_json::private::RawValue";

/// The message of an error for a value that is not a valid raw value.
pub open spec fn invalid_raw_value_text() -> Seq<char> {
    "invalid RawValue serialization"@
}

/// The message of an error for a map key that got no value.
pub open spec fn key_without_value_text() -> Seq<char> {
    "map key has no value"@
}

/// The message of an error for a map value that has no key before it.
pub open spec fn value_without_key_text() -> Seq<char> {
    "map value has no key"@
}

fn invalid_raw_value() -> (error: Error)
    ensures
        error.is_message(invalid_raw_value_text()),
{
    Error::message_text("invalid RawValue serialization")
}

/// Whether two byte strings are equal.
pub fn same_bytes(x: &[u8], y: &[u8]) -> (same: bool)
    ensures
        same == (x@ == y@),
{
    if x.len() != y.len() {
        return false;
    }
    let mut i: usize = 0;
    while i < x.len()
        invariant
            i <= x@.len(),
            x@.len() == y@.len(),
            forall|k: int| 0 <= k < i ==> x@[k] == y@[k],
        decreases x@.len() - i,
    {
        if x[i] != y[i] {
            return false;
        }
        i = i + 1;
    }
    assert(x@ =~= y@);
    true
}

/// Whether two strings hold the same bytes.
pub fn same_text(a: &str, b: &str) -> (same: bool)
    ensures
        same == (a.spec_bytes() == b.spec_bytes()),
{
    same_bytes(a.as_bytes(), b.as_bytes())
}

/// What a compound value is writing.
#[derive(Clone, Copy, Debug, PartialEq, Eq, Structural)]
pub enum Kind {
    Array,
    Object,
    RawValue,
}

/// Where a compound value stands between its members.
#[derive(Clone, Copy, Debug, PartialEq, Eq, Structural)]
pub enum CompoundState {
    /// No member written yet.
    Empty,
    /// At least one member written, the last one complete.
    Complete,
    /// A key written and its value still to come.
    KeyPending,
}

/// Whether a compound value sits inside the object of an enum variant.
#[derive(Clone, Copy, Debug, PartialEq, Eq, Structural)]
pub enum Wrapper {
    Bare,
    Object,
}

/// The state of an array, object or raw value being written.
///
/// Each member is announced to it before the member's own bytes are written;
/// it writes the separators, the indentation and the closing delimiters.
#[derive(Debug)]
pub struct Compound {
    kind: Kind,
    state: CompoundState,
    wrapper: Wrapper,
    length: Option<usize>,
}

/// The separator and indentation written before a member.
pub open spec fn member_prefix<F: Formatter>(state: CompoundState, depth: nat) -> Seq<u8> {
    (if state == CompoundState::Empty {
        Seq::<u8>::empty()
    } else {
        seq![0x2cu8]
    }) + F::indent_bytes(depth)
}

/// The bytes that close a compound value whose members are at nesting `depth`.
pub open spec fn closing<F: Formatter>(
    kind: Kind,
    state: CompoundState,
    wrapper: Wrapper,
    depth: nat,
) -> Seq<u8> {
    let inner_close = (if state == CompoundState::Empty {
        Seq::<u8>::empty()
    } else {
        F::indent_bytes((depth - 1) as nat)
    }) + if kind == Kind::Array {
        seq![0x5du8]
    } else {
        seq![0x7du8]
    };
    if wrapper == Wrapper::Object {
        inner_close + F::indent_bytes((depth - 2) as nat) + seq![0x7du8]
    } else {
        inner_close
    }
}

impl Compound {
    pub closed spec fn spec_kind(&self) -> Kind {
        self.kind
    }

    pub closed spec fn spec_state(&self) -> CompoundState {
        self.state
    }

    pub closed spec fn spec_wrapper(&self) -> Wrapper {
        self.wrapper
    }

    pub closed spec fn spec_length(&self) -> Option<usize> {
        self.length
    }

    /// How many levels of nesting closing this value ends.
    pub open spec fn nesting(&self) -> nat {
        if self.spec_wrapper() == Wrapper::Object {
            2
        } else {
            1
        }
    }

    /// What the compound value is writing.
    pub fn kind(&self) -> (kind: Kind)
        ensures
            kind == self.spec_kind(),
    {
        self.kind
    }

    /// How many levels of nesting closing this value ends.
    pub fn levels(&self) -> (levels: usize)
        ensures
            levels == self.nesting(),
    {
        match self.wrapper {
            Wrapper::Object => 2,
            Wrapper::Bare => 1,
        }
    }

    fn new(kind: Kind, length: Option<usize>, outer_object: bool) -> (compound: Self)
        ensures
            compound.spec_kind() == kind,
            compound.spec_state() == CompoundState::Empty,
            compound.spec_wrapper() == if outer_object {
                Wrapper::Object
            } else {
                Wrapper::Bare
            },
            compound.spec_length() == length,
    {
        Compound {
            kind,
            state: CompoundState::Empty,
            wrapper: if outer_object {
                Wrapper::Object
            } else {
                Wrapper::Bare
            },
            length,
        }
    }

    fn raw() -> (compound: Self)
        ensures
            compound.spec_kind() == Kind::RawValue,
            compound.spec_state() == CompoundState::Empty,
            compound.spec_wrapper() == Wrapper::Bare,
            compound.spec_length() == Some(1usize),
    {
        Compound { kind: Kind::RawValue, state: CompoundState::Empty, wrapper: Wrapper::Bare, length: Some(1) }
    }

    fn separator<F: Formatter>(&mut self, serializer: &mut Serializer<F>) -> (result: Result<(), Error>)
        ensures
            old(self).spec_kind() == Kind::RawValue ==> {
                &&& result matches Err(e) && e.is_message(invalid_raw_value_text())
                &&& *final(self) == *old(self)
                &&& final(serializer).output() == old(serializer).output()
            },
            old(self).spec_kind() != Kind::RawValue ==> {
                &&& result is Ok
                &&& final(serializer).output() == old(serializer).output() + member_prefix::<F>(
                    old(self).spec_state(),
                    old(serializer).spec_depth(),
                )
                &&& final(self).spec_state() == CompoundState::Complete
                &&& final(self).spec_kind() == old(self).spec_kind()
                &&& final(self).spec_wrapper() == old(self).spec_wrapper()
                &&& final(self).spec_length() == old(self).spec_length()
            },
            final(serializer).spec_depth() == old(serializer).spec_depth(),
    {
        if self.kind == Kind::RawValue {
            return Err(invalid_raw_value());
        }
        let ghost start = serializer.writer@;
        if self.state != CompoundState::Empty {
            serializer.writer.push(0x2c);
        }
        serializer.indent();
        self.state = CompoundState::Complete;
        assert(serializer.writer@ =~= start + member_prefix::<F>(
            old(self).spec_state(),
            old(serializer).spec_depth(),
        ));
        Ok(())
    }

    /// Announces the next element of an array: writes the separator and the
    /// indentation before it.
    pub fn element<F: Formatter>(&mut self, serializer: &mut Serializer<F>) -> (result: Result<(), Error>)
        ensures
            old(self).spec_kind() == Kind::RawValue ==> {
                &&& result matches Err(e) && e.is_message(invalid_raw_value_text())
                &&& *final(self) == *old(self)
                &&& final(serializer).output() == old(serializer).output()
            },
            old(self).spec_kind() != Kind::RawValue ==> {
                &&& result is Ok
                &&& final(serializer).output() == old(serializer).output() + member_prefix::<F>(
                    old(self).spec_state(),
                    old(serializer).spec_depth(),
                )
                &&& final(self).spec_state() == CompoundState::Complete
                &&& final(self).spec_kind() == old(self).spec_kind()
                &&& final(self).spec_wrapper() == old(self).spec_wrapper()
                &&& final(self).spec_length() == old(self).spec_length()
            },
            final(serializer).spec_depth() == old(serializer).spec_depth(),
    {
        self.separator(serializer)
    }

    /// Announces the key of the next entry of a map: writes the separator and
    /// the indentation before it. The key itself follows.
    pub fn begin_key<F: Formatter>(&mut self, serializer: &mut Serializer<F>) -> (result: Result<(), Error>)
        ensures
            old(self).spec_kind() == Kind::RawValue ==> {
                &&& result matches Err(e) && e.is_message(invalid_raw_value_text())
                &&& *final(self) == *old(self)
                &&& final(serializer).output() == old(serializer).output()
            },
            old(self).spec_kind() != Kind::RawValue ==> {
                &&& result is Ok
                &&& final(serializer).output() == old(serializer).output() + member_prefix::<F>(
                    old(self).spec_state(),
                    old(serializer).spec_depth(),
                )
                &&& final(self).spec_state() == CompoundState::Complete
                &&& final(self).spec_kind() == old(self).spec_kind()
                &&& final(self).spec_wrapper() == old(self).spec_wrapper()
                &&& final(self).spec_length() == old(self).spec_length()
            },
            final(serializer).spec_depth() == old(serializer).spec_depth(),
    {
        self.separator(serializer)
    }

    /// Ends the key of a map entry: writes the separator between key and
    /// value, and waits for the value.
    pub fn end_key<F: Formatter>(&mut self, serializer: &mut Serializer<F>)
        ensures
            final(serializer).output() == old(serializer).output() + F::colon_bytes(),
            final(serializer).spec_depth() == old(serializer).spec_depth(),
            final(self).spec_state() == CompoundState::KeyPending,
            final(self).spec_kind() == old(self).spec_kind(),
            final(self).spec_wrapper() == old(self).spec_wrapper(),
            final(self).spec_length() == old(self).spec_length(),
    {
        serializer.write_colon();
        self.state = CompoundState::KeyPending;
    }

    /// Announces the value of a map entry: refused unless a key came before it.
    pub fn value(&mut self) -> (result: Result<(), Error>)
        ensures
            old(self).spec_state() == CompoundState::KeyPending ==> {
                &&& result is Ok
                &&& final(self).spec_state() == CompoundState::Complete
                &&& final(self).spec_kind() == old(self).spec_kind()
                &&& final(self).spec_wrapper() == old(self).spec_wrapper()
                &&& final(self).spec_length() == old(self).spec_length()
            },
            old(self).spec_state() != CompoundState::KeyPending ==> {
                &&& result matches Err(e) && e.is_message(value_without_key_text())
                &&& *final(self) == *old(self)
            },
    {
        if self.state != CompoundState::KeyPending {
            return Err(Error::message_text("map value has no key"));
        }
        self.state = CompoundState::Complete;
        Ok(())
    }

    fn key<F: Formatter>(&mut self, serializer: &mut Serializer<F>, key: &str) -> (result: Result<
        (),
        Error,
    >)
        ensures
            old(self).spec_kind() == Kind::RawValue ==> {
                &&& result matches Err(e) && e.is_message(invalid_raw_value_text())
                &&& *final(self) == *old(self)
                &&& final(serializer).output() == old(serializer).output()
            },
            old(self).spec_kind() != Kind::RawValue ==> {
                &&& result is Ok
                &&& final(serializer).output() == old(serializer).output() + member_prefix::<F>(
                    old(self).spec_state(),
                    old(serializer).spec_depth(),
                ) + quoted(key.spec_bytes()) + F::colon_bytes()
                &&& final(self).spec_state() == CompoundState::KeyPending
                &&& final(self).spec_kind() == old(self).spec_kind()
                &&& final(self).spec_wrapper() == old(self).spec_wrapper()
                &&& final(self).spec_length() == old(self).spec_length()
            },
            final(serializer).spec_depth() == old(serializer).spec_depth(),
    {
        self.separator(serializer)?;
        serializer.write_string(key);
        serializer.write_colon();
        self.state = CompoundState::KeyPending;
        Ok(())
    }

    /// Announces a named field of a struct. For an object this writes the
    /// separator, the quoted key and the colon; the value follows. For a raw
    /// value the only field accepted is the raw-value marker, once, and its
    /// text is then written verbatim by the caller.
    pub fn field<F: Formatter>(&mut self, serializer: &mut Serializer<F>, key: &str) -> (result:
        Result<(), Error>)
        ensures
            old(self).spec_kind() == Kind::RawValue ==> {
                &&& final(serializer).output() == old(serializer).output()
                &&& if key.spec_bytes() == RAW_VALUE_TOKEN.spec_bytes() && old(self).spec_state()
                    == CompoundState::Empty {
                    &&& result is Ok
                    &&& final(self).spec_state() == CompoundState::Complete
                    &&& final(self).spec_kind() == old(self).spec_kind()
                    &&& final(self).spec_wrapper() == old(self).spec_wrapper()
                    &&& final(self).spec_length() == old(self).spec_length()
                } else {
                    &&& result matches Err(e) && e.is_message(invalid_raw_value_text())
                    &&& *final(self) == *old(self)
                }
            },
            old(self).spec_kind() != Kind::RawValue ==> {
                &&& result is Ok
                &&& final(serializer).output() == old(serializer).output() + member_prefix::<F>(
                    old(self).spec_state(),
                    old(serializer).spec_depth(),
                ) + quoted(key.spec_bytes()) + F::colon_bytes()
                &&& final(self).spec_state() == CompoundState::Complete
                &&& final(self).spec_kind() == old(self).spec_kind()
                &&& final(self).spec_wrapper() == old(self).spec_wrapper()
                &&& final(self).spec_length() == old(self).spec_length()
            },
            final(serializer).spec_depth() == old(serializer).spec_depth(),
    {
        if self.kind == Kind::RawValue {
            if !same_text(key, RAW_VALUE_TOKEN) || self.state != CompoundState::Empty {
                return Err(invalid_raw_value());
            }
            self.state = CompoundState::Complete;
            return Ok(());
        }
        self.key(serializer, key)?;
        self.state = CompoundState::Complete;
        Ok(())
    }

    /// Ends the compound value: writes its closing delimiter, and that of the
    /// enum variant object around it. A raw value must have received its text,
    /// and a map must not end after a key.
    pub fn finish<F: Formatter>(self, serializer: &mut Serializer<F>) -> (result: Result<(), Error>)
        requires
            self.spec_kind() != Kind::RawValue && self.spec_state() != CompoundState::KeyPending
                ==> old(serializer).spec_depth() >= self.nesting(),
        ensures
            self.spec_kind() == Kind::RawValue ==> {
                &&& final(serializer).output() == old(serializer).output()
                &&& final(serializer).spec_depth() == old(serializer).spec_depth()
                &&& if self.spec_state() == CompoundState::Complete {
                    result is Ok
                } else {
                    result matches Err(e) && e.is_message(invalid_raw_value_text())
                }
            },
            self.spec_kind() != Kind::RawValue && self.spec_state() == CompoundState::KeyPending
                ==> {
                &&& result matches Err(e) && e.is_message(key_without_value_text())
                &&& *final(serializer) == *old(serializer)
            },
            self.spec_kind() != Kind::RawValue && self.spec_state() != CompoundState::KeyPending
                ==> {
                &&& result is Ok
                &&& final(serializer).output() == old(serializer).output() + closing::<F>(
                    self.spec_kind(),
                    self.spec_state(),
                    self.spec_wrapper(),
                    old(serializer).spec_depth(),
                )
                &&& final(serializer).spec_depth() == old(serializer).spec_depth() - self.nesting()
            },
    {
        if self.kind == Kind::RawValue {
            return if self.state == CompoundState::Complete {
                Ok(())
            } else {
                Err(invalid_raw_value())
            };
        }
        if self.state == CompoundState::KeyPending {
            return Err(Error::message_text("map key has no value"));
        }
        let ghost start = serializer.writer@;
        let ghost depth = serializer.depth as nat;
        serializer.depth = serializer.depth - 1;
        if self.state != CompoundState::Empty {
            serializer.indent();
        }
        if self.kind == Kind::Array {
            serializer.writer.push(0x5d);
        } else {
            serializer.writer.push(0x7d);
        }
        let ghost inner = serializer.writer@;
        assert(inner =~= start + (if self.state == CompoundState::Empty {
            Seq::<u8>::empty()
        } else {
            F::indent_bytes((depth - 1) as nat)
        }) + if self.kind == Kind::Array {
            seq![0x5du8]
        } else {
            seq![0x7du8]
        });
        if self.wrapper == Wrapper::Object {
            serializer.depth = serializer.depth - 1;
            serializer.indent();
            serializer.writer.push(0x7d);
        }
        assert(serializer.writer@ =~= start + closing::<F>(
            self.kind,
            self.state,
            self.wrapper,
            depth,
        ));
        Ok(())
    }
}

impl<F: Formatter> Serializer<F> {
    fn begin(&mut self, byte: u8)
        requires
            old(self).spec_depth() < usize::MAX,
        ensures
            final(self).output() == old(self).output() + seq![byte],
            final(self).spec_depth() == old(self).spec_depth() + 1,
    {
        self.writer.push(byte);
        self.depth = self.depth + 1;
    }

    /// Opens an array.
    pub fn begin_seq(&mut self, length: Option<usize>) -> (compound: Compound)
        requires
            old(self).spec_depth() < usize::MAX,
        ensures
            final(self).output() == old(self).output() + seq![0x5bu8],
            final(self).spec_depth() == old(self).spec_depth() + 1,
            compound.spec_kind() == Kind::Array,
            compound.spec_state() == CompoundState::Empty,
            compound.spec_wrapper() == Wrapper::Bare,
            compound.spec_length() == length,
    {
        self.begin(0x5b);
        Compound::new(Kind::Array, length, false)
    }

    /// Opens an object.
    pub fn begin_map(&mut self, length: Option<usize>) -> (compound: Compound)
        requires
            old(self).spec_depth() < usize::MAX,
        ensures
            final(self).output() == old(self).output() + seq![0x7bu8],
            final(self).spec_depth() == old(self).spec_depth() + 1,
            compound.spec_kind() == Kind::Object,
            compound.spec_state() == CompoundState::Empty,
            compound.spec_wrapper() == Wrapper::Bare,
            compound.spec_length() == length,
    {
        self.begin(0x7b);
        Compound::new(Kind::Object, length, false)
    }

    /// Opens a struct: an object, or a raw value when `name` is the raw-value
    /// marker, for which nothing is written yet.
    pub fn begin_struct(&mut self, name: &str, length: usize) -> (compound: Compound)
        requires
            old(self).spec_depth() < usize::MAX,
        ensures
            name.spec_bytes() == RAW_VALUE_TOKEN.spec_bytes() ==> {
                &&& *final(self) == *old(self)
                &&& compound.spec_kind() == Kind::RawValue
                &&& compound.spec_state() == CompoundState::Empty
                &&& compound.spec_wrapper() == Wrapper::Bare
            },
            name.spec_bytes() != RAW_VALUE_TOKEN.spec_bytes() ==> {
                &&& final(self).output() == old(self).output() + seq![0x7bu8]
                &&& final(self).spec_depth() == old(self).spec_depth() + 1
                &&& compound.spec_kind() == Kind::Object
                &&& compound.spec_state() == CompoundState::Empty
                &&& compound.spec_wrapper() == Wrapper::Bare
                &&& compound.spec_length() == Some(length)
            },
    {
        if same_text(name, RAW_VALUE_TOKEN) {
            Compound::raw()
        } else {
            self.begin_map(Some(length))
        }
    }

    /// Writes the opening of an enum variant object: `{`, the indentation,
    /// the quoted variant name and the colon.
    fn variant_prefix(&mut self, variant: &str)
        requires
            old(self).spec_depth() < usize::MAX,
        ensures
            final(self).output() == old(self).output() + seq![0x7bu8] + F::indent_bytes(
                old(self).spec_depth() + 1,
            ) + quoted(variant.spec_bytes()) + F::colon_bytes(),
            final(self).spec_depth() == old(self).spec_depth() + 1,
    {
        let ghost start = self.writer@;
        self.begin(0x7b);
        self.indent();
        self.write_string(variant);
        self.write_colon();
        assert(self.writer@ =~= start + seq![0x7bu8] + F::indent_bytes(
            old(self).spec_depth() + 1,
        ) + quoted(variant.spec_bytes()) + F::colon_bytes());
    }

    /// Opens a newtype enum variant: its value follows, then
    /// `end_newtype_variant`.
    pub fn begin_newtype_variant(&mut self, variant: &str)
        requires
            old(self).spec_depth() < usize::MAX,
        ensures
            final(self).output() == old(self).output() + seq![0x7bu8] + F::indent_bytes(
                old(self).spec_depth() + 1,
            ) + quoted(variant.spec_bytes()) + F::colon_bytes(),
            final(self).spec_depth() == old(self).spec_depth() + 1,
    {
        self.variant_prefix(variant);
    }

    /// Closes a newtype enum variant.
    pub fn end_newtype_variant(&mut self)
        requires
            old(self).spec_depth() >= 1,
        ensures
            final(self).output() == old(self).output() + F::indent_bytes(
                (old(self).spec_depth() - 1) as nat,
            ) + seq![0x7du8],
            final(self).spec_depth() == old(self).spec_depth() - 1,
    {
        let ghost start = self.writer@;
        self.depth = self.depth - 1;
        self.indent();
        self.writer.push(0x7d);
        assert(self.writer@ =~= start + F::indent_bytes((old(self).spec_depth() - 1) as nat)
            + seq![0x7du8]);
    }

    /// Opens a tuple enum variant: an object holding the variant name and an
    /// array of its fields.
    pub fn begin_tuple_variant(&mut self, variant: &str, length: usize) -> (compound: Compound)
        requires
            old(self).spec_depth() + 2 <= usize::MAX,
        ensures
            final(self).output() == old(self).output() + seq![0x7bu8] + F::indent_bytes(
                old(self).spec_depth() + 1,
            ) + quoted(variant.spec_bytes()) + F::colon_bytes() + seq![0x5bu8],
            final(self).spec_depth() == old(self).spec_depth() + 2,
            compound.spec_kind() == Kind::Array,
            compound.spec_state() == CompoundState::Empty,
            compound.spec_wrapper() == Wrapper::Object,
            compound.spec_length() == Some(length),
    {
        self.variant_prefix(variant);
        self.begin(0x5b);
        Compound::new(Kind::Array, Some(length), true)
    }

    /// Opens a struct enum variant: an object holding the variant name and an
    /// object of its fields.
    pub fn begin_struct_variant(&mut self, variant: &str, length: usize) -> (compound: Compound)
        requires
            old(self).spec_depth() + 2 <= usize::MAX,
        ensures
            final(self).output() == old(self).output() + seq![0x7bu8] + F::indent_bytes(
                old(self).spec_depth() + 1,
            ) + quoted(variant.spec_bytes()) + F::colon_bytes() + seq![0x7bu8],
            final(self).spec_depth() == old(self).spec_depth() + 2,
            compound.spec_kind() == Kind::Object,
            compound.spec_state() == CompoundState::Empty,
            compound.spec_wrapper() == Wrapper::Object,
            compound.spec_length() == Some(length),
    {
        self.variant_prefix(variant);
        self.begin(0x7b);
        Compound::new(Kind::Object, Some(length), true)
    }
}

} // verus!
