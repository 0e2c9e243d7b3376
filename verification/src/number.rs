//! JSON numbers: signed and unsigned integers kept exactly, and finite floats
//! kept as their IEEE 754 bit patterns.
use vstd::prelude::*;

verus! {

/// How a number is held.
#[derive(Clone, Copy, Debug, PartialEq, Eq, Structural)]
pub enum Repr {
    /// A negative integer.
    I64(i64),
    /// A nonnegative integer.
    U64(u64),
    /// A finite float, by its bit pattern.
    F64(u64),
}

/// The bit pattern of `bits` is that of a finite float: its exponent field
/// is not all ones.
pub open spec fn finite_bits(bits: u64) -> bool {
    (bits >> 52u64) & 0x7ffu64 != 0x7ffu64
}

/// The bit pattern of `bits` is that of a float zero, of either sign.
pub open spec fn zero_bits(bits: u64) -> bool {
    bits & 0x7fff_ffff_ffff_ffffu64 == 0
}

/// A finite JSON number represented without losing signed or unsigned integers.
#[derive(Clone, Copy, Debug)]
pub struct Number {
    repr: Repr,
}

impl Number {
    #[verifier::type_invariant]
    spec fn valid(&self) -> bool {
        match self.repr {
            Repr::I64(v) => v < 0,
            Repr::U64(_) => true,
            Repr::F64(bits) => finite_bits(bits),
        }
    }

    /// How the number is held.
    pub closed spec fn spec_repr(&self) -> Repr {
        self.repr
    }

    /// How the number is held.
    pub fn repr(&self) -> (repr: Repr)
        ensures
            repr == self.spec_repr(),
            repr matches Repr::I64(v) ==> v < 0,
            repr matches Repr::F64(bits) ==> finite_bits(bits),
    {
        proof {
            use_type_invariant(self);
        }
        self.repr
    }

    /// The number for a signed integer.
    pub closed spec fn spec_from_i64(value: i64) -> Self {
        if value < 0 {
            Number { repr: Repr::I64(value) }
        } else {
            Number { repr: Repr::U64(value as u64) }
        }
    }

    /// The number for an unsigned integer.
    pub closed spec fn spec_from_u64(value: u64) -> Self {
        Number { repr: Repr::U64(value) }
    }

    /// The number for a signed integer: negative values are kept as signed,
    /// the others as unsigned.
    pub fn from_i64(value: i64) -> (number: Self)
        ensures
            number == Number::spec_from_i64(value),
            number.spec_repr() == if value < 0 {
                Repr::I64(value)
            } else {
                Repr::U64(value as u64)
            },
    {
        if value < 0 {
            Number { repr: Repr::I64(value) }
        } else {
            Number { repr: Repr::U64(value as u64) }
        }
    }

    /// The number for an unsigned integer.
    pub fn from_u64(value: u64) -> (number: Self)
        ensures
            number == Number::spec_from_u64(value),
            number.spec_repr() == Repr::U64(value),
    {
        Number { repr: Repr::U64(value) }
    }

    /// The number for the float with bit pattern `bits`, which must be finite.
    pub fn from_f64_bits(bits: u64) -> (number: Option<Self>)
        ensures
            finite_bits(bits) ==> (number matches Some(n) && n.spec_repr() == Repr::F64(bits)),
            !finite_bits(bits) ==> number is None,
    {
        if (bits >> 52u64) & 0x7ffu64 != 0x7ffu64 {
            Some(Number { repr: Repr::F64(bits) })
        } else {
            None
        }
    }

    /// The float's bit pattern, for a number held as a float.
    pub fn float_bits(&self) -> (bits: Option<u64>)
        ensures
            bits == match self.spec_repr() {
                Repr::F64(b) => Some(b),
                _ => None,
            },
    {
        match self.repr {
            Repr::F64(b) => Some(b),
            _ => None,
        }
    }

    /// Whether the number is an integer that fits in `i64`.
    pub fn is_i64(&self) -> (r: bool)
        ensures
            r == (self.spec_as_i64() is Some),
    {
        self.as_i64().is_some()
    }

    /// Whether the number is a nonnegative integer.
    pub fn is_u64(&self) -> (r: bool)
        ensures
            r == (self.spec_repr() is U64),
    {
        match self.repr {
            Repr::U64(_) => true,
            _ => false,
        }
    }

    /// Whether the number is held as a float.
    pub fn is_f64(&self) -> (r: bool)
        ensures
            r == (self.spec_repr() is F64),
    {
        match self.repr {
            Repr::F64(_) => true,
            _ => false,
        }
    }

    /// The number as `i64`, when it is an integer in range.
    pub open spec fn spec_as_i64(&self) -> Option<i64> {
        match self.spec_repr() {
            Repr::I64(v) => Some(v),
            Repr::U64(v) => if v <= i64::MAX {
                Some(v as i64)
            } else {
                None
            },
            Repr::F64(_) => None,
        }
    }

    /// The number as `i64`, when it is an integer in range.
    pub fn as_i64(&self) -> (value: Option<i64>)
        ensures
            value == self.spec_as_i64(),
    {
        match self.repr {
            Repr::I64(v) => Some(v),
            Repr::U64(v) => if v <= 0x7fff_ffff_ffff_ffff {
                Some(v as i64)
            } else {
                None
            },
            Repr::F64(_) => None,
        }
    }

    /// The number as `u64`, when it is a nonnegative integer.
    pub open spec fn spec_as_u64(&self) -> Option<u64> {
        match self.spec_repr() {
            Repr::I64(v) => if v >= 0 {
                Some(v as u64)
            } else {
                None
            },
            Repr::U64(v) => Some(v),
            Repr::F64(_) => None,
        }
    }

    /// The number as `u64`, when it is a nonnegative integer.
    pub fn as_u64(&self) -> (value: Option<u64>)
        ensures
            value == self.spec_as_u64(),
            value == match self.spec_repr() {
                Repr::I64(v) => if v >= 0 {
                    Some(v as u64)
                } else {
                    None
                },
                Repr::U64(v) => Some(v),
                Repr::F64(_) => None,
            },
    {
        match self.repr {
            Repr::I64(v) => if v >= 0 {
                Some(v as u64)
            } else {
                None
            },
            Repr::U64(v) => Some(v),
            Repr::F64(_) => None,
        }
    }

    /// Numbers are equal when both are the same integer, or both floats of
    /// equal value: the same bits, or two zeros.
    pub open spec fn same(&self, other: &Self) -> bool {
        match (self.spec_repr(), other.spec_repr()) {
            (Repr::I64(a), Repr::I64(b)) => a == b,
            (Repr::U64(a), Repr::U64(b)) => a == b,
            (Repr::F64(a), Repr::F64(b)) => a == b || (zero_bits(a) && zero_bits(b)),
            _ => false,
        }
    }
}

impl PartialEq for Number {
    fn eq(&self, other: &Self) -> (equal: bool) {
        match (self.repr, other.repr) {
            (Repr::I64(a), Repr::I64(b)) => a == b,
            (Repr::U64(a), Repr::U64(b)) => a == b,
            (Repr::F64(a), Repr::F64(b)) => a == b || (a & 0x7fff_ffff_ffff_ffff == 0 && b
                & 0x7fff_ffff_ffff_ffff == 0),
            _ => false,
        }
    }
}

impl vstd::std_specs::cmp::PartialEqSpecImpl for Number {
    open spec fn obeys_eq_spec() -> bool {
        true
    }

    open spec fn eq_spec(&self, other: &Self) -> bool {
        self.same(other)
    }
}

impl Eq for Number {
}

/// An integer read back from a number is the value it was made from: every
/// `i64` comes back from `as_i64` and every `u64` from `as_u64`, and a value
/// crosses from one type to the other exactly when it fits there.
pub proof fn law_integers_read_back(v: i64, u: u64)
    ensures
        Number::spec_from_i64(v).spec_as_i64() == Some(v),
        Number::spec_from_u64(u).spec_as_u64() == Some(u),
        (Number::spec_from_u64(u).spec_as_i64() is Some) == (u <= i64::MAX),
        Number::spec_from_u64(u).spec_as_i64() matches Some(w) ==> w == u,
        (Number::spec_from_i64(v).spec_as_u64() is Some) == (v >= 0),
        Number::spec_from_i64(v).spec_as_u64() matches Some(w) ==> w == v,
{
}

} // verus!
