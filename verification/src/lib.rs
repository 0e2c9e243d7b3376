//! Focused JSON parsing and encoding for protocol workloads.
use vstd::prelude::*;

pub mod error;
pub mod foreign;
pub mod grammar;
pub mod raw;
pub mod swar;
pub mod canonical;
pub mod de;
pub mod access;
pub mod ser;
pub mod map;
pub mod number;
pub mod value;
pub mod raw_value;
pub mod round_trip;
pub mod syntax;
pub mod laws;

pub use canonical::CanonicalScanner;
pub use de::{Cursor, Deserializer, Field, Object};
pub use error::Error;
pub use map::ObjectMap;
pub use raw::RawJson;
pub use raw_value::RawValue;
pub use number::Number;
pub use ser::{CompactFormatter, Compound, Formatter, PrettyFormatter, Serializer};
pub use value::Value;

verus! {
} // verus!
