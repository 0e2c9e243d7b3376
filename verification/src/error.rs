//! Errors returned while parsing or encoding JSON.
use vstd::prelude::*;

verus! {

/// The standard I/O error, carried through unchanged when an output writer fails.
#[verifier::external_type_specification]
#[verifier::external_body]
pub struct ExIoError(std::io::Error);

/// What went wrong at a syntax error's position.
#[derive(Clone, Copy, Debug, PartialEq, Eq, Structural)]
pub enum ErrorCode {
    ExpectedByte(u8),
    ExpectedLiteral,
    ExpectedString,
    ExpectedValue,
    ExpectedBoolean,
    ExpectedCommaOrBracket,
    ExpectedCommaOrBrace,
    ExpectedEnum,
    ExpectedOneCharacter,
    ExpectedUnsigned,
    ExpectedInteger,
    UnexpectedEnd,
    TrailingCharacters,
    TrailingCommaInArray,
    TrailingCommaInObject,
    ObjectKeyNotConsumed,
    ObjectValueNotConsumed,
    RecursionLimit,
    NotUtf8,
    UnterminatedString,
    ControlCharacter,
    UnterminatedEscape,
    InvalidEscape,
    IncompleteUnicodeEscape,
    InvalidUnicodeEscape,
    HighSurrogateWithoutLow,
    InvalidLowSurrogate,
    UnexpectedLowSurrogate,
    InvalidUnicodeScalar,
    LeadingZero,
    InvalidNumber,
    FractionWithoutDigits,
    ExponentWithoutDigits,
    NumberNotAscii,
    IntegerOutOfRange,
    NumberOutOfRange,
}

/// The description that `ErrorCode::text` gives of `code`.
pub open spec fn description(code: ErrorCode) -> Seq<char> {
    match code {
        ErrorCode::ExpectedByte(b) => {
            if b == 0x3a {
                "expected `:`"@
            } else if b == 0x2c {
                "expected `,`"@
            } else if b == 0x7b {
                "expected `{`"@
            } else if b == 0x7d {
                "expected `}`"@
            } else if b == 0x5b {
                "expected `[`"@
            } else if b == 0x5d {
                "expected `]`"@
            } else {
                "expected a different byte"@
            }
        },
        ErrorCode::ExpectedLiteral => "expected JSON literal"@,
        ErrorCode::ExpectedString => "expected a string"@,
        ErrorCode::ExpectedValue => "expected a JSON value"@,
        ErrorCode::ExpectedBoolean => "expected a boolean"@,
        ErrorCode::ExpectedCommaOrBracket => "expected `,` or `]`"@,
        ErrorCode::ExpectedCommaOrBrace => "expected `,` or `}`"@,
        ErrorCode::ExpectedEnum => "expected an enum string or object"@,
        ErrorCode::ExpectedOneCharacter => "expected one character"@,
        ErrorCode::ExpectedUnsigned => "expected an unsigned integer"@,
        ErrorCode::ExpectedInteger => "expected an integer"@,
        ErrorCode::UnexpectedEnd => "unexpected end of input"@,
        ErrorCode::TrailingCharacters => "trailing characters"@,
        ErrorCode::TrailingCommaInArray => "trailing comma in array"@,
        ErrorCode::TrailingCommaInObject => "trailing comma in object"@,
        ErrorCode::ObjectKeyNotConsumed => "object key was not consumed"@,
        ErrorCode::ObjectValueNotConsumed => "object value was not consumed"@,
        ErrorCode::RecursionLimit => "recursion limit exceeded"@,
        ErrorCode::NotUtf8 => "input is not valid UTF-8"@,
        ErrorCode::UnterminatedString => "unterminated string"@,
        ErrorCode::ControlCharacter => "control character in string"@,
        ErrorCode::UnterminatedEscape => "unterminated escape"@,
        ErrorCode::InvalidEscape => "invalid string escape"@,
        ErrorCode::IncompleteUnicodeEscape => "incomplete Unicode escape"@,
        ErrorCode::InvalidUnicodeEscape => "invalid Unicode escape"@,
        ErrorCode::HighSurrogateWithoutLow => "high surrogate without low surrogate"@,
        ErrorCode::InvalidLowSurrogate => "invalid low surrogate"@,
        ErrorCode::UnexpectedLowSurrogate => "unexpected low surrogate"@,
        ErrorCode::InvalidUnicodeScalar => "invalid Unicode scalar"@,
        ErrorCode::LeadingZero => "leading zero in number"@,
        ErrorCode::InvalidNumber => "invalid number"@,
        ErrorCode::FractionWithoutDigits => "fraction has no digits"@,
        ErrorCode::ExponentWithoutDigits => "exponent has no digits"@,
        ErrorCode::NumberNotAscii => "number is not ASCII"@,
        ErrorCode::IntegerOutOfRange => "integer is out of range"@,
        ErrorCode::NumberOutOfRange => "number is out of range"@,
    }
}

impl ErrorCode {
    /// The human-readable description of this code.
    pub fn text(&self) -> (text: &'static str)
        ensures
            text@ == description(*self),
    {
        match self {
            ErrorCode::ExpectedByte(b) => {
                if *b == 0x3a {
                    "expected `:`"
                } else if *b == 0x2c {
                    "expected `,`"
                } else if *b == 0x7b {
                    "expected `{`"
                } else if *b == 0x7d {
                    "expected `}`"
                } else if *b == 0x5b {
                    "expected `[`"
                } else if *b == 0x5d {
                    "expected `]`"
                } else {
                    "expected a different byte"
                }
            },
            ErrorCode::ExpectedLiteral => "expected JSON literal",
            ErrorCode::ExpectedString => "expected a string",
            ErrorCode::ExpectedValue => "expected a JSON value",
            ErrorCode::ExpectedBoolean => "expected a boolean",
            ErrorCode::ExpectedCommaOrBracket => "expected `,` or `]`",
            ErrorCode::ExpectedCommaOrBrace => "expected `,` or `}`",
            ErrorCode::ExpectedEnum => "expected an enum string or object",
            ErrorCode::ExpectedOneCharacter => "expected one character",
            ErrorCode::ExpectedUnsigned => "expected an unsigned integer",
            ErrorCode::ExpectedInteger => "expected an integer",
            ErrorCode::UnexpectedEnd => "unexpected end of input",
            ErrorCode::TrailingCharacters => "trailing characters",
            ErrorCode::TrailingCommaInArray => "trailing comma in array",
            ErrorCode::TrailingCommaInObject => "trailing comma in object",
            ErrorCode::ObjectKeyNotConsumed => "object key was not consumed",
            ErrorCode::ObjectValueNotConsumed => "object value was not consumed",
            ErrorCode::RecursionLimit => "recursion limit exceeded",
            ErrorCode::NotUtf8 => "input is not valid UTF-8",
            ErrorCode::UnterminatedString => "unterminated string",
            ErrorCode::ControlCharacter => "control character in string",
            ErrorCode::UnterminatedEscape => "unterminated escape",
            ErrorCode::InvalidEscape => "invalid string escape",
            ErrorCode::IncompleteUnicodeEscape => "incomplete Unicode escape",
            ErrorCode::InvalidUnicodeEscape => "invalid Unicode escape",
            ErrorCode::HighSurrogateWithoutLow => "high surrogate without low surrogate",
            ErrorCode::InvalidLowSurrogate => "invalid low surrogate",
            ErrorCode::UnexpectedLowSurrogate => "unexpected low surrogate",
            ErrorCode::InvalidUnicodeScalar => "invalid Unicode scalar",
            ErrorCode::LeadingZero => "leading zero in number",
            ErrorCode::InvalidNumber => "invalid number",
            ErrorCode::FractionWithoutDigits => "fraction has no digits",
            ErrorCode::ExponentWithoutDigits => "exponent has no digits",
            ErrorCode::NumberNotAscii => "number is not ASCII",
            ErrorCode::IntegerOutOfRange => "integer is out of range",
            ErrorCode::NumberOutOfRange => "number is out of range",
        }
    }
}

/// Where the error came from.
#[derive(Debug)]
pub enum ErrorKind {
    /// A syntax error found by the parser.
    Syntax(ErrorCode),
    /// Any other error, described by its message.
    Message(String),
    /// A failure of an output writer.
    Io(std::io::Error),
}

/// Error returned while parsing or encoding JSON.
#[derive(Debug)]
pub struct Error {
    kind: ErrorKind,
    line: usize,
    column: usize,
}

/// The number of times `needle` occurs in `bytes`.
pub open spec fn occurrences(bytes: Seq<u8>, needle: u8) -> nat
    decreases bytes.len(),
{
    if bytes.len() == 0 {
        0
    } else {
        occurrences(bytes.drop_last(), needle) + if bytes.last() == needle {
            1nat
        } else {
            0nat
        }
    }
}

/// The offset of the last line feed of `bytes`.
pub open spec fn last_line_feed(bytes: Seq<u8>) -> Option<int>
    decreases bytes.len(),
{
    if bytes.len() == 0 {
        None
    } else if bytes.last() == 0x0a {
        Some(bytes.len() - 1)
    } else {
        last_line_feed(bytes.drop_last())
    }
}

/// The part of the input before a syntax error at `index`.
pub open spec fn error_prefix(input: Seq<u8>, index: int) -> Seq<u8> {
    if index < input.len() {
        input.take(index)
    } else {
        input
    }
}

/// The one-based line of position `index` of `input`.
pub open spec fn line_of(input: Seq<u8>, index: int) -> int {
    1 + occurrences(error_prefix(input, index), 0x0a) as int
}

/// The one-based column of position `index` of `input`.
pub open spec fn column_of(input: Seq<u8>, index: int) -> int {
    let prefix = error_prefix(input, index);
    match last_line_feed(prefix) {
        Some(position) => prefix.len() - position,
        None => prefix.len() + 1int,
    }
}

proof fn lemma_occurrences_bound(bytes: Seq<u8>, needle: u8)
    ensures
        occurrences(bytes, needle) <= bytes.len(),
    decreases bytes.len(),
{
    if bytes.len() > 0 {
        lemma_occurrences_bound(bytes.drop_last(), needle);
    }
}

/// Counts the occurrences of `needle` in `haystack` with the `memchr` crate.
///
/// Calls `memchr::memchr_iter(needle, haystack).count()`; the claim is that
/// the iterator yields each occurrence of the byte exactly once, as the
/// crate documents.
#[verifier::external_body]
fn count_occurrences(needle: u8, haystack: &[u8]) -> (count: usize)
    ensures
        count == occurrences(haystack@, needle),
{
    memchr::memchr_iter(needle, haystack).count()
}

proof fn lemma_last_line_feed_bound(bytes: Seq<u8>)
    ensures
        last_line_feed(bytes) matches Some(p) ==> 0 <= p < bytes.len(),
    decreases bytes.len(),
{
    if bytes.len() > 0 {
        lemma_last_line_feed_bound(bytes.drop_last());
    }
}

/// Scans backwards for the last line feed.
fn find_last_line_feed(bytes: &[u8]) -> (found: Option<usize>)
    ensures
        match found {
            Some(p) => last_line_feed(bytes@) == Some(p as int),
            None => last_line_feed(bytes@) is None,
        },
{
    let mut end = bytes.len();
    assert(bytes@.take(end as int) =~= bytes@);
    while end > 0
        invariant
            end <= bytes@.len(),
            last_line_feed(bytes@) == last_line_feed(bytes@.take(end as int)),
        decreases end,
    {
        if bytes[end - 1] == 0x0a {
            assert(bytes@.take(end as int).last() == 0x0a);
            return Some(end - 1);
        }
        assert(bytes@.take(end as int).drop_last() =~= bytes@.take(end - 1));
        end = end - 1;
    }
    assert(bytes@.take(0) =~= Seq::<u8>::empty());
    None
}

impl Error {
    pub closed spec fn spec_kind(&self) -> ErrorKind {
        self.kind
    }

    pub closed spec fn spec_line(&self) -> int {
        self.line as int
    }

    pub closed spec fn spec_column(&self) -> int {
        self.column as int
    }

    /// This error is the syntax error `code` at position `index` of `input`.
    pub open spec fn is_syntax(&self, code: ErrorCode, input: Seq<u8>, index: int) -> bool {
        &&& self.spec_kind() == ErrorKind::Syntax(code)
        &&& self.spec_line() == line_of(input, index)
        &&& self.spec_column() == column_of(input, index)
    }

    /// The syntax error `code` at position `index` of `input`, located by
    /// one-based line and column.
    pub fn syntax(code: ErrorCode, input: &[u8], index: usize) -> (error: Self)
        requires
            input@.len() < usize::MAX,
        ensures
            error.is_syntax(code, input@, index as int),
    {
        let end = if index < input.len() {
            index
        } else {
            input.len()
        };
        let prefix = &input[0..end];
        assert(prefix@ =~= error_prefix(input@, index as int));
        let newlines = count_occurrences(0x0a, prefix);
        proof {
            lemma_occurrences_bound(prefix@, 0x0a);
            lemma_last_line_feed_bound(prefix@);
        }
        let column = match find_last_line_feed(prefix) {
            Some(position) => end - position,
            None => end + 1,
        };
        Error { kind: ErrorKind::Syntax(code), line: 1 + newlines, column }
    }

    /// An error described only by its message.
    pub fn message(message: String) -> (error: Self)
        ensures
            error.spec_kind() == ErrorKind::Message(message),
            error.spec_line() == 0,
            error.spec_column() == 0,
    {
        Error { kind: ErrorKind::Message(message), line: 0, column: 0 }
    }

    /// This error carries exactly the message `text` and no position.
    pub open spec fn is_message(&self, text: Seq<char>) -> bool {
        &&& (self.spec_kind() matches ErrorKind::Message(m) && m@ == text)
        &&& self.spec_line() == 0
        &&& self.spec_column() == 0
    }

    /// An error described by a fixed message.
    pub fn message_text(text: &str) -> (error: Self)
        ensures
            error.is_message(text@),
    {
        Error::message(text.to_owned())
    }

    /// An error that an output writer reported.
    pub fn io(error: std::io::Error) -> (result: Self)
        ensures
            result.spec_kind() == ErrorKind::Io(error),
            result.spec_line() == 0,
            result.spec_column() == 0,
    {
        Error { kind: ErrorKind::Io(error), line: 0, column: 0 }
    }

    /// One-based line of a syntax error, or zero for a non-syntax error.
    pub fn line(&self) -> (line: usize)
        ensures
            line == self.spec_line(),
    {
        self.line
    }

    /// One-based column of a syntax error, or zero for a non-syntax error.
    pub fn column(&self) -> (column: usize)
        ensures
            column == self.spec_column(),
    {
        self.column
    }

    /// Returns true when the error originated from an output writer.
    pub fn is_io(&self) -> (io: bool)
        ensures
            io == (self.spec_kind() is Io),
    {
        match &self.kind {
            ErrorKind::Io(_) => true,
            _ => false,
        }
    }

    /// The kind of this error.
    pub fn kind(&self) -> (kind: &ErrorKind)
        ensures
            *kind == self.spec_kind(),
    {
        &self.kind
    }

    /// Turns the error back into its kind, for conversions that take the I/O error out.
    pub fn into_kind(self) -> (kind: ErrorKind)
        ensures
            kind == self.spec_kind(),
    {
        self.kind
    }
}

} // verus!
