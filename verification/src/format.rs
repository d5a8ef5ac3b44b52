//! On-disk stream format.
//!
//! ```text
//! Header (16 bytes):
//!   [0..4]  magic = "FCR1"
//!   [4]     format version = 3
//!   [5]     flags (validity / decimal / shared-dict)
//!   [6]     predictor_log2 (10..=16)
//!   [7]     column type id
//!   [8..16] value count (u64 LE)
//!
//! Then, when flagged, the validity section and the shared-dictionary preamble,
//! each as varint(length) ++ bytes, then one frame per block until the declared
//! number of valid values is reached:
//!   [0]      mode id (u8)
//!   [1..5]   value count for this block (u32 LE)
//!   [5..9]   payload length in bytes (u32 LE)
//!   [9..]    payload
//! ```
//!
//! Version 2 streams of the 64-bit types share this layout and are still read; a
//! version 2 stream of a 32-bit type is not.

use vstd::prelude::*;
use crate::bytes;
use crate::bytes::{read_le, write_le};
use crate::dtype;
use crate::dtype::DType;
use crate::error::Error;

verus! {

/// The current format version.
pub const VERSION: u8 = 3;

/// The previous format version, still readable for the 64-bit lanes.
pub const LEGACY_VERSION: u8 = 2;

/// Bytes in a stream header.
pub const HEADER_LEN: usize = 16;

/// Header flag: a validity bitmap follows the header.
pub const FLAG_VALIDITY: u8 = 1;

/// Header flag: this is a decimal container.
pub const FLAG_DECIMAL: u8 = 2;

/// Header flag: a shared value dictionary preamble follows the header.
pub const FLAG_SHARED_DICT: u8 = 4;

/// Bytes in a frame header.
pub const FRAME_HEADER_LEN: usize = 9;

/// Maximum bytes of lane data a single block may hold.
pub const MAX_BLOCK_BYTES: usize = 1048576;

/// Maximum values a single block may declare on a 64-bit lane.
pub const MAX_BLOCK_VALUES: usize = 131072;

/// The four magic bytes that start every stream.
pub open spec fn magic() -> Seq<u8> {
    seq![0x46u8, 0x43u8, 0x52u8, 0x31u8]
}

/// Maximum values a single block may declare on a lane of `lane_bytes` bytes per
/// value: the same byte budget either way.
#[verifier::allow_in_spec]
pub fn max_block_values(lane_bytes: usize) -> (r: usize)
    requires
        lane_bytes > 0,
    returns
        (MAX_BLOCK_BYTES as int / lane_bytes as int) as usize,
{
    MAX_BLOCK_BYTES / lane_bytes
}

/// Whether a stream written at `version` is readable for `dtype`.
#[verifier::allow_in_spec]
pub fn version_supported(version: u8, dtype: DType) -> (r: bool)
    returns
        version == VERSION || (version == LEGACY_VERSION && dtype.lane().bytes() == 8),
{
    version == VERSION || (version == LEGACY_VERSION && dtype.lane_bytes() == 8)
}

/// Append the four magic bytes.
pub fn write_magic(out: &mut Vec<u8>)
    ensures
        final(out)@ == old(out)@ + magic(),
{
    out.push(0x46);
    out.push(0x43);
    out.push(0x52);
    out.push(0x31);
    assert(out@ =~= old(out)@ + magic());
}

/// Whether `src` starts with the magic bytes.
pub fn has_magic(src: &[u8]) -> (r: bool)
    requires
        src.len() >= 4,
    ensures
        r == (src@.take(4) == magic()),
{
    let r = src[0] == 0x46 && src[1] == 0x43 && src[2] == 0x52 && src[3] == 0x31;
    proof {
        let t = src@.take(4);
        if r {
            assert(t =~= magic());
        } else {
            assert(t[0] == src@[0] && t[1] == src@[1] && t[2] == src@[2] && t[3] == src@[3]);
        }
    }
    r
}

/// A stream header.
#[derive(Copy, Clone, Debug, PartialEq, Eq, Structural)]
pub struct Header {
    /// log2 of the predictor table size.
    pub predictor_log2: u8,
    /// The column type.
    pub dtype: DType,
    /// A validity bitmap follows the header.
    pub has_validity: bool,
    /// A shared-dictionary preamble follows the validity section.
    pub has_shared_dict: bool,
    /// Logical value count (including nulls).
    pub n_values: u64,
}

impl Header {
    /// The flag byte of the header.
    pub open spec fn flags(self) -> u8 {
        ((if self.has_validity {
            1int
        } else {
            0
        }) + (if self.has_shared_dict {
            4int
        } else {
            0
        })) as u8
    }

    /// The sixteen bytes of the header.
    pub open spec fn spec_bytes(self) -> Seq<u8> {
        magic() + seq![VERSION, self.flags(), self.predictor_log2, self.dtype.wire_id()] + bytes::le_bytes(
            self.n_values as nat,
            8,
        )
    }

    /// Append the header.
    pub fn write(&self, out: &mut Vec<u8>)
        ensures
            final(out)@ == old(out)@ + self.spec_bytes(),
    {
        write_magic(out);
        out.push(VERSION);
        let mut flags: u8 = 0;
        if self.has_validity {
            flags = flags + FLAG_VALIDITY;
        }
        if self.has_shared_dict {
            flags = flags + FLAG_SHARED_DICT;
        }
        out.push(flags);
        out.push(self.predictor_log2);
        out.push(self.dtype.wire_id());
        write_le(out, self.n_values, 8);
        assert(out@ =~= old(out)@ + self.spec_bytes());
    }

    /// Read the header at the front of `src`.
    pub fn read(src: &[u8]) -> (r: Result<Header, Error>)
        ensures
            r == header_parse(src@),
    {
        if src.len() < HEADER_LEN {
            return Err(Error::Truncated);
        }
        if !has_magic(src) {
            return Err(Error::BadMagic);
        }
        let version = src[4];
        if version != VERSION && version != LEGACY_VERSION {
            return Err(Error::UnsupportedVersion(version));
        }
        let flags = src[5];
        if flags != 0 && flags != 1 && flags != 4 && flags != 5 {
            return Err(Error::CorruptPayload("unknown header flags"));
        }
        let has_validity = flags % 2 == 1;
        let has_shared_dict = flags >= 4;
        let predictor_log2 = src[6];
        if predictor_log2 < 10 || predictor_log2 > 16 {
            return Err(Error::CorruptPayload("predictor_log2 out of range"));
        }
        let dtype = match DType::from_wire(src[7]) {
            Ok(d) => d,
            Err(e) => return Err(e),
        };
        if !version_supported(version, dtype) {
            return Err(Error::UnsupportedVersion(version));
        }
        let n_values = read_le(src, 8, 8);
        Ok(Header { predictor_log2, dtype, has_validity, has_shared_dict, n_values })
    }
}

/// The header at the front of `s`.
pub open spec fn header_parse(s: Seq<u8>) -> Result<Header, Error> {
    if s.len() < HEADER_LEN {
        Err(Error::Truncated)
    } else if s.take(4) != magic() {
        Err(Error::BadMagic)
    } else if s[4] != VERSION && s[4] != LEGACY_VERSION {
        Err(Error::UnsupportedVersion(s[4]))
    } else if s[5] != 0 && s[5] != FLAG_VALIDITY && s[5] != FLAG_SHARED_DICT && s[5] != 5 {
        Err(Error::CorruptPayload("unknown header flags"))
    } else if s[6] < 10 || s[6] > 16 {
        Err(Error::CorruptPayload("predictor_log2 out of range"))
    } else {
        match dtype::dtype_of_wire(s[7]) {
            Err(e) => Err(e),
            Ok(dtype) => if !version_supported(s[4], dtype) {
                Err(Error::UnsupportedVersion(s[4]))
            } else {
                Ok(
                    Header {
                        predictor_log2: s[6],
                        dtype,
                        has_validity: s[5] % 2 == 1,
                        has_shared_dict: s[5] >= 4,
                        n_values: bytes::le_value(s.subrange(8, 16)) as u64,
                    },
                )
            },
        }
    }
}

/// A written header is read back, whatever follows it.
pub proof fn lemma_header_roundtrip(h: Header, rest: Seq<u8>)
    requires
        10 <= h.predictor_log2 <= 16,
    ensures
        header_parse(h.spec_bytes() + rest) == Ok::<Header, Error>(h),
        h.spec_bytes().len() == HEADER_LEN,
        (h.spec_bytes() + rest).skip(HEADER_LEN as int) == rest,
{
    let s = h.spec_bytes() + rest;
    bytes::lemma_le_bytes_len(h.n_values as nat, 8);
    bytes::lemma_pow256_values();
    bytes::lemma_le_roundtrip(h.n_values as nat, 8);
    dtype::lemma_wire_roundtrip(h.dtype);
    assert(s.take(4) =~= magic());
    assert(s.subrange(8, 16) =~= bytes::le_bytes(h.n_values as nat, 8));
    assert(s.skip(HEADER_LEN as int) =~= rest);
}

} // verus!
