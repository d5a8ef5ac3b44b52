//! Logical column type.
//!
//! The engine works on a physical lane plus a small descriptor (width, family,
//! signedness) that decides which codecs apply and how the arithmetic
//! transforms read the lane.

use vstd::prelude::*;
use crate::error::Error;
use crate::lane::Lane;

verus! {

/// The logical type of a compressed column, stored in the stream header so the
/// decoder reconstructs the right output type.
#[derive(Copy, Clone, Debug, PartialEq, Eq, Structural)]
pub enum DType {
    /// IEEE-754 binary64, compressed via its raw bit pattern.
    F64,
    /// Signed 64-bit integer; also timestamps and durations.
    I64,
    /// Unsigned 64-bit integer.
    U64,
    /// Signed 32-bit integer on the 32-bit lane; also 32-bit dates and times.
    I32,
    /// Unsigned 32-bit integer on the 32-bit lane.
    U32,
    /// IEEE-754 binary32 on the 32-bit lane: the bit pattern is the lane word.
    F32,
    /// 128-bit decimal significands, held by the decimal container.
    Decimal128,
    /// 256-bit decimal significands, held by the decimal container.
    Decimal256,
}

/// Codec family: which arithmetic reading is valid for a column.
#[derive(Copy, Clone, Debug, PartialEq, Eq, Structural)]
pub enum Family {
    /// Columns that also run the float-value transforms.
    Float,
    /// Columns that run the integer transforms only.
    Int,
}

/// The column type with the given wire identifier.
pub open spec fn dtype_of_wire(id: u8) -> Result<DType, Error> {
    if id == 0 {
        Ok(DType::F64)
    } else if id == 1 {
        Ok(DType::I64)
    } else if id == 2 {
        Ok(DType::U64)
    } else if id == 3 {
        Ok(DType::I32)
    } else if id == 4 {
        Ok(DType::U32)
    } else if id == 5 {
        Ok(DType::F32)
    } else if id == 6 {
        Ok(DType::Decimal128)
    } else if id == 7 {
        Ok(DType::Decimal256)
    } else {
        Err(Error::UnsupportedDType(id))
    }
}

impl DType {
    /// Stable on-wire identifier.
    #[verifier::allow_in_spec]
    pub fn wire_id(self) -> (id: u8)
        returns
            (match self {
                DType::F64 => 0u8,
                DType::I64 => 1u8,
                DType::U64 => 2u8,
                DType::I32 => 3u8,
                DType::U32 => 4u8,
                DType::F32 => 5u8,
                DType::Decimal128 => 6u8,
                DType::Decimal256 => 7u8,
            }),
    {
        match self {
            DType::F64 => 0,
            DType::I64 => 1,
            DType::U64 => 2,
            DType::I32 => 3,
            DType::U32 => 4,
            DType::F32 => 5,
            DType::Decimal128 => 6,
            DType::Decimal256 => 7,
        }
    }

    /// The column type with wire identifier `id`.
    pub fn from_wire(id: u8) -> (r: Result<DType, Error>)
        ensures
            r == dtype_of_wire(id),
    {
        match id {
            0 => Ok(DType::F64),
            1 => Ok(DType::I64),
            2 => Ok(DType::U64),
            3 => Ok(DType::I32),
            4 => Ok(DType::U32),
            5 => Ok(DType::F32),
            6 => Ok(DType::Decimal128),
            7 => Ok(DType::Decimal256),
            other => Err(Error::UnsupportedDType(other)),
        }
    }

    /// The codec family of the type.
    #[verifier::allow_in_spec]
    pub fn family(self) -> (f: Family)
        returns
            (match self {
                DType::F64 | DType::F32 => Family::Float,
                _ => Family::Int,
            }),
    {
        match self {
            DType::F64 | DType::F32 => Family::Float,
            _ => Family::Int,
        }
    }

    /// The lane of the type. Decimals report the limb lane.
    #[verifier::allow_in_spec]
    pub fn lane(self) -> (l: Lane)
        returns
            (match self {
                DType::I32 | DType::U32 | DType::F32 => Lane::W32,
                _ => Lane::W64,
            }),
    {
        match self {
            DType::I32 | DType::U32 | DType::F32 => Lane::W32,
            _ => Lane::W64,
        }
    }

    /// Bytes per value of the type's lane (4 or 8).
    pub fn lane_bytes(self) -> (n: usize)
        ensures
            n == self.lane().bytes(),
    {
        self.lane().bytes()
    }

    /// Whether frame-of-reference reads the lane as a signed integer.
    #[verifier::allow_in_spec]
    pub fn signed(self) -> (s: bool)
        returns
            self is I32 || self is I64,
    {
        match self {
            DType::I32 | DType::I64 => true,
            _ => false,
        }
    }
}

/// Every column type is found again from its wire identifier.
pub proof fn lemma_wire_roundtrip(t: DType)
    ensures
        dtype_of_wire(t.wire_id()) == Ok::<DType, Error>(t),
{
}

} // verus!
