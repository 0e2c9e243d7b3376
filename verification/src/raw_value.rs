//! One complete, validated JSON value, kept as its exact text.
use crate::de::Deserializer;
use crate::error::{Error, ErrorCode};
use crate::grammar::{skip_value, skip_ws};
use vstd::prelude::*;
use vstd::string::StringSliceAdditionalSpecFns;
use vstd::utf8::*;

verus! {

/// What `RawValue::from_string` gives for the text `s`: the bytes of the one
/// value it holds, without the whitespace around it, or the syntax error and
/// its position.
pub open spec fn raw_value_of(s: Seq<u8>) -> Result<Seq<u8>, (ErrorCode, int)> {
    let j = skip_ws(s, 0);
    match skip_value(s, 0, 0) {
        Err(e) => Err(e),
        Ok(end) => if !valid_utf8(s.subrange(j, end)) {
            Err((ErrorCode::NotUtf8, end))
        } else if skip_ws(s, end) != s.len() {
            Err((ErrorCode::TrailingCharacters, skip_ws(s, end)))
        } else {
            Ok(s.subrange(j, end))
        },
    }
}

/// A complete JSON value held as its exact text.
///
/// Writing a raw value emits its text verbatim, including any whitespace
/// inside it.
#[derive(Debug)]
pub struct RawValue {
    json: String,
}

impl RawValue {
    /// The text of the value.
    pub closed spec fn text(&self) -> Seq<char> {
        self.json@
    }

    /// The bytes of the value's text.
    pub open spec fn bytes(&self) -> Seq<u8> {
        encode_utf8(self.text())
    }

    /// The raw value `null`.
    pub fn null() -> (raw: Self)
        ensures
            raw.text() == "null"@,
    {
        RawValue { json: "null".to_owned() }
    }

    /// The raw value `true`.
    pub fn true_value() -> (raw: Self)
        ensures
            raw.text() == "true"@,
    {
        RawValue { json: "true".to_owned() }
    }

    /// The raw value `false`.
    pub fn false_value() -> (raw: Self)
        ensures
            raw.text() == "false"@,
    {
        RawValue { json: "false".to_owned() }
    }

    /// Validates an owned JSON string and keeps the one value it holds.
    ///
    /// Succeeds exactly when the string holds one valid JSON value,
    /// optionally surrounded by whitespace; the raw value is then that value's
    /// text. When the string has no surrounding whitespace its allocation is
    /// reused.
    pub fn from_string(json: String) -> (r: Result<Self, Error>)
        requires
            encode_utf8(json@).len() < usize::MAX,
        ensures
            match raw_value_of(encode_utf8(json@)) {
                Ok(bytes) => r matches Ok(raw) && raw.bytes() == bytes,
                Err((code, at)) => r matches Err(e) && e.is_syntax(code, encode_utf8(json@), at),
            },
    {
        let ghost s = encode_utf8(json@);
        proof {
            crate::grammar::lemma_skip_ws(s, 0);
            crate::grammar::lemma_value_progress(s, 0, 0);
        }
        let copied: Option<String> = {
            let text = json.as_str();
            let mut parser = Deserializer::from_str(text);
            let raw = parser.capture_raw()?;
            parser.end()?;
            if raw.len() != text.len() {
                Some(raw.to_owned())
            } else {
                proof {
                    crate::grammar::lemma_skip_ws(s, 0);
                    crate::grammar::lemma_value_progress(s, 0, 0);
                    let j = skip_ws(s, 0);
                    let end = match skip_value(s, 0, 0) {
                        Ok(e) => e,
                        Err(_) => 0,
                    };
                    assert(s.subrange(j, end).len() == s.len());
                    assert(s.subrange(j, end) =~= s);
                }
                None
            }
        };
        match copied {
            Some(text) => Ok(RawValue { json: text }),
            None => Ok(RawValue { json }),
        }
    }

    /// The exact JSON text.
    pub fn get(&self) -> (text: &str)
        ensures
            text@ == self.text(),
    {
        self.json.as_str()
    }

    /// Copies the text into an exactly sized byte vector.
    pub fn to_vec(&self) -> (bytes: Vec<u8>)
        ensures
            bytes@ == self.bytes(),
    {
        let source = self.json.as_str().as_bytes();
        let mut bytes: Vec<u8> = Vec::with_capacity(source.len());
        let mut i: usize = 0;
        while i < source.len()
            invariant
                i <= source@.len(),
                bytes@ == source@.take(i as int),
            decreases source@.len() - i,
        {
            bytes.push(source[i]);
            i = i + 1;
            assert(bytes@ =~= source@.take(i as int));
        }
        assert(source@.take(i as int) =~= source@);
        bytes
    }

    /// Appends the text to `writer`.
    pub fn write_to(&self, writer: &mut Vec<u8>)
        ensures
            final(writer)@ == old(writer)@ + self.bytes(),
    {
        let source = self.json.as_str().as_bytes();
        let ghost start = writer@;
        let mut i: usize = 0;
        while i < source.len()
            invariant
                i <= source@.len(),
                source@ == self.bytes(),
                writer@ == start + source@.take(i as int),
            decreases source@.len() - i,
        {
            writer.push(source[i]);
            i = i + 1;
            assert(writer@ =~= start + source@.take(i as int));
        }
        assert(source@.take(i as int) =~= source@);
    }

    /// Gives the text back as a string, reusing its allocation.
    pub fn into_string(self) -> (text: String)
        ensures
            text@ == self.text(),
    {
        self.json
    }
}

impl Clone for RawValue {
    fn clone(&self) -> (copy: Self)
        ensures
            copy.text() == self.text(),
    {
        RawValue { json: self.json.clone() }
    }
}

impl Default for RawValue {
    fn default() -> (raw: Self)
        ensures
            raw.text() == "null"@,
    {
        RawValue::null()
    }
}

} // verus!
