//! PCO: the numeric codec of the `pco` crate as a block mode, for the integer
//! types. (Its float types are driven by the caller, which owns all float
//! values.)
//!
//! The block arrives as lane words; the column type names which number type the
//! lane is. `pco` is lossless, so the words come back exactly.

use vstd::prelude::*;
use pco::standalone::{simple_compress, simple_decompress};
use pco::ChunkConfig;
use crate::dtype::DType;
use crate::error;
use crate::error::Error;
use crate::lane;
use crate::lane::Lane;

verus! {

/// The highest compression level of `pco`.
pub const PCO_MAX_LEVEL: usize = 12;

/// The numbers that `pco::standalone::simple_decompress::<u64>` finds in `bytes`.
pub uninterp spec fn pco_u64(bytes: Seq<u8>) -> Option<Seq<u64>>;

/// The numbers that `pco::standalone::simple_decompress::<i64>` finds in `bytes`.
pub uninterp spec fn pco_i64(bytes: Seq<u8>) -> Option<Seq<i64>>;

/// The numbers that `pco::standalone::simple_decompress::<u32>` finds in `bytes`.
pub uninterp spec fn pco_u32(bytes: Seq<u8>) -> Option<Seq<u32>>;

/// The numbers that `pco::standalone::simple_decompress::<i32>` finds in `bytes`.
pub uninterp spec fn pco_i32(bytes: Seq<u8>) -> Option<Seq<i32>>;

/// `bytes` is what a run of `pco::standalone::simple_compress::<u64>` made of `nums`
/// at compression level `level`, the rest of its configuration at the default. Runs
/// may differ: on the way `pco` walks a hash map that each process seeds, and takes
/// logarithms of the machine. So this relates the arguments to every outcome.
pub uninterp spec fn pco_made_u64(nums: Seq<u64>, level: usize, bytes: Seq<u8>) -> bool;

/// What a run of `simple_compress::<i64>` made; see [`pco_made_u64`].
pub uninterp spec fn pco_made_i64(nums: Seq<i64>, level: usize, bytes: Seq<u8>) -> bool;

/// What a run of `simple_compress::<u32>` made; see [`pco_made_u64`].
pub uninterp spec fn pco_made_u32(nums: Seq<u32>, level: usize, bytes: Seq<u8>) -> bool;

/// What a run of `simple_compress::<i32>` made; see [`pco_made_u64`].
pub uninterp spec fn pco_made_i32(nums: Seq<i32>, level: usize, bytes: Seq<u8>) -> bool;

/// `pco::standalone::simple_compress::<u64>` at a compression level. It succeeds
/// unless the configuration is invalid, which here is a level above
/// [`PCO_MAX_LEVEL`], looked at as soon as there is a number to compress. What it
/// returns was made of these numbers at this level, and decompresses to them. Which
/// of several such byte strings it returns is not stated: that depends on the order
/// of a hash map and on the machine's logarithm.
#[verifier::external_body]
fn simple_compress_u64(nums: &[u64], level: usize) -> (r: Option<Vec<u8>>)
    ensures
        r matches Some(out) ==> pco_made_u64(nums@, level, out@),
        r matches Some(out) ==> pco_u64(out@) == Some(nums@),
        r is Some <==> level <= PCO_MAX_LEVEL || nums.len() == 0,
{
    simple_compress::<u64>(nums, &ChunkConfig::default().with_compression_level(level)).ok()
}

/// `pco::standalone::simple_compress::<i64>`; see [`simple_compress_u64`].
#[verifier::external_body]
fn simple_compress_i64(nums: &[i64], level: usize) -> (r: Option<Vec<u8>>)
    ensures
        r matches Some(out) ==> pco_made_i64(nums@, level, out@),
        r matches Some(out) ==> pco_i64(out@) == Some(nums@),
        r is Some <==> level <= PCO_MAX_LEVEL || nums.len() == 0,
{
    simple_compress::<i64>(nums, &ChunkConfig::default().with_compression_level(level)).ok()
}

/// `pco::standalone::simple_compress::<u32>`; see [`simple_compress_u64`].
#[verifier::external_body]
fn simple_compress_u32(nums: &[u32], level: usize) -> (r: Option<Vec<u8>>)
    ensures
        r matches Some(out) ==> pco_made_u32(nums@, level, out@),
        r matches Some(out) ==> pco_u32(out@) == Some(nums@),
        r is Some <==> level <= PCO_MAX_LEVEL || nums.len() == 0,
{
    simple_compress::<u32>(nums, &ChunkConfig::default().with_compression_level(level)).ok()
}

/// `pco::standalone::simple_compress::<i32>`; see [`simple_compress_u64`].
#[verifier::external_body]
fn simple_compress_i32(nums: &[i32], level: usize) -> (r: Option<Vec<u8>>)
    ensures
        r matches Some(out) ==> pco_made_i32(nums@, level, out@),
        r matches Some(out) ==> pco_i32(out@) == Some(nums@),
        r is Some <==> level <= PCO_MAX_LEVEL || nums.len() == 0,
{
    simple_compress::<i32>(nums, &ChunkConfig::default().with_compression_level(level)).ok()
}

/// `pco::standalone::simple_decompress::<u64>`: a function of the bytes alone,
/// which finds numbers in them or reports an error.
#[verifier::external_body]
fn simple_decompress_u64(bytes: &[u8]) -> (r: Option<Vec<u64>>)
    ensures
        (match r {
            Some(v) => Some(v@),
            None => None,
        }) == pco_u64(bytes@),
{
    simple_decompress::<u64>(bytes).ok()
}

/// `pco::standalone::simple_decompress::<i64>`; see [`simple_decompress_u64`].
#[verifier::external_body]
fn simple_decompress_i64(bytes: &[u8]) -> (r: Option<Vec<i64>>)
    ensures
        (match r {
            Some(v) => Some(v@),
            None => None,
        }) == pco_i64(bytes@),
{
    simple_decompress::<i64>(bytes).ok()
}

/// `pco::standalone::simple_decompress::<u32>`; see [`simple_decompress_u64`].
#[verifier::external_body]
fn simple_decompress_u32(bytes: &[u8]) -> (r: Option<Vec<u32>>)
    ensures
        (match r {
            Some(v) => Some(v@),
            None => None,
        }) == pco_u32(bytes@),
{
    simple_decompress::<u32>(bytes).ok()
}

/// `pco::standalone::simple_decompress::<i32>`; see [`simple_decompress_u64`].
#[verifier::external_body]
fn simple_decompress_i32(bytes: &[u8]) -> (r: Option<Vec<i32>>)
    ensures
        (match r {
            Some(v) => Some(v@),
            None => None,
        }) == pco_i32(bytes@),
{
    simple_decompress::<i32>(bytes).ok()
}

// ---------------------------------------------------------------------------
// Lane words as numbers
// ---------------------------------------------------------------------------

/// The words of 64-bit signed numbers.
pub open spec fn words_of_i64(nums: Seq<i64>) -> Seq<u64> {
    Seq::new(nums.len(), |i: int| Lane::W64.unsigned(nums[i] as int))
}

/// The words of 32-bit unsigned numbers.
pub open spec fn words_of_u32(nums: Seq<u32>) -> Seq<u64> {
    Seq::new(nums.len(), |i: int| nums[i] as u64)
}

/// The words of 32-bit signed numbers.
pub open spec fn words_of_i32(nums: Seq<i32>) -> Seq<u64> {
    Seq::new(nums.len(), |i: int| Lane::W32.unsigned(nums[i] as int))
}

/// 64-bit words as signed numbers.
pub fn signed64(words: &[u64]) -> (nums: Vec<i64>)
    ensures
        words_of_i64(nums@) == words@,
        forall|i: int| 0 <= i < words.len() ==> #[trigger] nums@[i] == Lane::W64.signed(words@[i]),
        nums.len() == words.len(),
{
    let mut nums: Vec<i64> = Vec::new();
    let mut i: usize = 0;
    while i < words.len()
        invariant
            i <= words.len(),
            nums.len() == i,
            forall|j: int| 0 <= j < i ==> #[trigger] nums@[j] == Lane::W64.signed(words@[j]),
        decreases words.len() - i,
    {
        nums.push(Lane::W64.as_signed(words[i]));
        i = i + 1;
    }
    proof {
        assert forall|j: int| 0 <= j < words.len() implies Lane::W64.unsigned(
            #[trigger] nums@[j] as int,
        ) == words@[j] by {
            lane::lemma_signed_roundtrip(Lane::W64, words@[j]);
        }
        assert(words_of_i64(nums@) =~= words@);
    }
    nums
}

/// 64-bit signed numbers as words.
pub fn unsigned64(nums: &[i64]) -> (words: Vec<u64>)
    ensures
        words@ == words_of_i64(nums@),
{
    let mut words: Vec<u64> = Vec::new();
    let mut i: usize = 0;
    while i < nums.len()
        invariant
            i <= nums.len(),
            words.len() == i,
            forall|j: int|
                0 <= j < i ==> #[trigger] words@[j] == Lane::W64.unsigned(nums@[j] as int),
        decreases nums.len() - i,
    {
        words.push(Lane::W64.from_signed(nums[i]));
        i = i + 1;
    }
    assert(words@ =~= words_of_i64(nums@));
    words
}

/// 32-bit numbers as signed numbers of the same bits.
pub fn signed32(words: &[u32]) -> (nums: Vec<i32>)
    ensures
        words_of_i32(nums@) == words_of_u32(words@),
        nums.len() == words.len(),
        forall|i: int|
            0 <= i < words.len() ==> #[trigger] nums@[i] == Lane::W32.signed(words@[i] as u64),
{
    let mut nums: Vec<i32> = Vec::new();
    let mut i: usize = 0;
    while i < words.len()
        invariant
            i <= words.len(),
            nums.len() == i,
            forall|j: int| 0 <= j < i ==> #[trigger] nums@[j] == Lane::W32.signed(words@[j] as u64),
        decreases words.len() - i,
    {
        let s: i64 = Lane::W32.as_signed(words[i] as u64);
        nums.push(s as i32);
        i = i + 1;
    }
    proof {
        assert forall|j: int| 0 <= j < words.len() implies Lane::W32.unsigned(
            #[trigger] nums@[j] as int,
        ) == words@[j] as u64 by {
            lane::lemma_signed_roundtrip(Lane::W32, words@[j] as u64);
        }
        assert(words_of_i32(nums@) =~= words_of_u32(words@));
    }
    nums
}

/// 32-bit signed numbers as words.
pub fn unsigned32(nums: &[i32]) -> (words: Vec<u64>)
    ensures
        words@ == words_of_i32(nums@),
        Lane::W32.fits_all(words@),
{
    let mut words: Vec<u64> = Vec::new();
    let mut i: usize = 0;
    while i < nums.len()
        invariant
            i <= nums.len(),
            words.len() == i,
            Lane::W32.fits_all(words@),
            forall|j: int|
                0 <= j < i ==> #[trigger] words@[j] == Lane::W32.unsigned(nums@[j] as int),
        decreases nums.len() - i,
    {
        words.push(Lane::W32.from_signed(nums[i] as i64));
        i = i + 1;
    }
    assert(words@ =~= words_of_i32(nums@));
    words
}

/// 32-bit numbers as words.
pub fn widened32(nums: &[u32]) -> (words: Vec<u64>)
    ensures
        words@ == words_of_u32(nums@),
        Lane::W32.fits_all(words@),
{
    let mut words: Vec<u64> = Vec::new();
    let mut i: usize = 0;
    while i < nums.len()
        invariant
            i <= nums.len(),
            words.len() == i,
            Lane::W32.fits_all(words@),
            forall|j: int| 0 <= j < i ==> #[trigger] words@[j] == nums@[j] as u64,
        decreases nums.len() - i,
    {
        words.push(nums[i] as u64);
        i = i + 1;
    }
    assert(words@ =~= words_of_u32(nums@));
    words
}

/// 32-bit words as numbers.
pub fn narrowed32(words: &[u64]) -> (nums: Vec<u32>)
    requires
        Lane::W32.fits_all(words@),
    ensures
        words_of_u32(nums@) == words@,
        nums.len() == words.len(),
{
    let mut nums: Vec<u32> = Vec::new();
    let mut i: usize = 0;
    while i < words.len()
        invariant
            i <= words.len(),
            Lane::W32.fits_all(words@),
            nums.len() == i,
            forall|j: int| 0 <= j < i ==> #[trigger] nums@[j] as u64 == words@[j],
        decreases words.len() - i,
    {
        assert(Lane::W32.fits(words@[i as int]));
        nums.push(words[i] as u32);
        i = i + 1;
    }
    assert(words_of_u32(nums@) =~= words@);
    nums
}

// ---------------------------------------------------------------------------
// The block mode
// ---------------------------------------------------------------------------

/// The words that `pco` finds in a payload of a column of type `dtype`.
pub open spec fn pco_words(dtype: DType, payload: Seq<u8>) -> Option<Seq<u64>> {
    match dtype {
        DType::U64 => pco_u64(payload),
        DType::I64 => match pco_i64(payload) {
            Some(v) => Some(words_of_i64(v)),
            None => None,
        },
        DType::U32 => match pco_u32(payload) {
            Some(v) => Some(words_of_u32(v)),
            None => None,
        },
        DType::I32 => match pco_i32(payload) {
            Some(v) => Some(words_of_i32(v)),
            None => None,
        },
        _ => None,
    }
}

/// The `n` words that `pco` finds in a payload.
pub open spec fn pco_decoded(dtype: DType, payload: Seq<u8>, n: nat) -> Result<Seq<u64>, Error> {
    match pco_words(dtype, payload) {
        Some(words) => if words.len() == n {
            Ok(words)
        } else {
            Err(Error::CorruptPayload("pco decode"))
        },
        None => Err(Error::CorruptPayload("pco decode")),
    }
}

/// `payload` is what a run of `pco` made at level `level` of the words of a column
/// of type `dtype`.
pub open spec fn pco_made(dtype: DType, words: Seq<u64>, level: usize, payload: Seq<u8>) -> bool {
    match dtype {
        DType::U64 => pco_made_u64(words, level, payload),
        DType::I64 => pco_made_i64(
            Seq::new(words.len(), |i: int| Lane::W64.signed(words[i]) as i64),
            level,
            payload,
        ),
        DType::U32 => pco_made_u32(
            Seq::new(words.len(), |i: int| words[i] as u32),
            level,
            payload,
        ),
        DType::I32 => pco_made_i32(
            Seq::new(words.len(), |i: int| Lane::W32.signed(words[i]) as i32),
            level,
            payload,
        ),
        _ => false,
    }
}

/// What `pco` found, checked against the expected count.
pub fn checked(found: Option<Vec<u64>>, n: usize) -> (r: Result<Vec<u64>, Error>)
    ensures
        r matches Ok(v) ==> found == Some(v) && v.len() == n,
        r is Ok <==> found is Some && found->Some_0.len() == n,
        r matches Err(e) ==> e == Error::CorruptPayload("pco decode"),
{
    match found {
        Some(v) => if v.len() == n {
            Ok(v)
        } else {
            Err(Error::CorruptPayload("pco decode"))
        },
        None => Err(Error::CorruptPayload("pco decode")),
    }
}

/// Compress a block of a 64-bit integer column. `None` on an empty block, on
/// another column type, and at a level that `pco` does not have.
pub fn compress64(block: &[u64], dtype: DType, level: usize) -> (r: Option<Vec<u8>>)
    ensures
        r is Some <==> block.len() > 0 && (dtype is U64 || dtype is I64) && level <= PCO_MAX_LEVEL,
        r matches Some(out) ==> pco_made(dtype, block@, level, out@),
        r matches Some(out) ==> pco_decoded(dtype, out@, block@.len()) == Ok::<_, Error>(block@),
{
    if block.len() == 0 {
        return None;
    }
    match dtype {
        DType::U64 => simple_compress_u64(block, level),
        DType::I64 => {
            let nums = signed64(block);
            assert(nums@ =~= Seq::new(block@.len(), |i: int| Lane::W64.signed(block@[i]) as i64));
            simple_compress_i64(&nums, level)
        },
        _ => None,
    }
}

/// Decompress a block of a 64-bit integer column.
pub fn decompress64(payload: &[u8], n: usize, dtype: DType) -> (r: Result<Vec<u64>, Error>)
    ensures
        dtype is U64 || dtype is I64 ==> error::viewed(r) == pco_decoded(
            dtype,
            payload@,
            n as nat,
        ),
        !(dtype is U64 || dtype is I64) ==> r == Err::<Vec<u64>, _>(
            Error::CorruptPayload("pco decode"),
        ),
{
    let found: Option<Vec<u64>> = match dtype {
        DType::U64 => simple_decompress_u64(payload),
        DType::I64 => match simple_decompress_i64(payload) {
            Some(nums) => Some(unsigned64(&nums)),
            None => None,
        },
        _ => None,
    };
    checked(found, n)
}

/// Compress a block of a 32-bit integer column; see [`compress64`].
pub fn compress32(block: &[u32], dtype: DType, level: usize) -> (r: Option<Vec<u8>>)
    ensures
        r is Some <==> block.len() > 0 && (dtype is U32 || dtype is I32) && level <= PCO_MAX_LEVEL,
        r matches Some(out) ==> pco_made(dtype, words_of_u32(block@), level, out@),
        r matches Some(out) ==> pco_decoded(dtype, out@, block@.len()) == Ok::<_, Error>(
            words_of_u32(block@),
        ),
{
    if block.len() == 0 {
        return None;
    }
    match dtype {
        DType::U32 => {
            assert(block@ =~= Seq::new(block@.len(), |i: int| words_of_u32(block@)[i] as u32));
            simple_compress_u32(block, level)
        },
        DType::I32 => {
            let nums = signed32(block);
            assert(nums@ =~= Seq::new(
                block@.len(),
                |i: int| Lane::W32.signed(words_of_u32(block@)[i]) as i32,
            ));
            simple_compress_i32(&nums, level)
        },
        _ => None,
    }
}

/// Decompress a block of a 32-bit integer column to lane words.
pub fn decompress32(payload: &[u8], n: usize, dtype: DType) -> (r: Result<Vec<u64>, Error>)
    ensures
        dtype is U32 || dtype is I32 ==> error::viewed(r) == pco_decoded(
            dtype,
            payload@,
            n as nat,
        ),
        !(dtype is U32 || dtype is I32) ==> r == Err::<Vec<u64>, _>(
            Error::CorruptPayload("pco decode"),
        ),
        r matches Ok(v) ==> Lane::W32.fits_all(v@) && v.len() == n,
{
    let found: Option<Vec<u64>> = match dtype {
        DType::U32 => match simple_decompress_u32(payload) {
            Some(nums) => Some(widened32(&nums)),
            None => None,
        },
        DType::I32 => match simple_decompress_i32(payload) {
            Some(nums) => Some(unsigned32(&nums)),
            None => None,
        },
        _ => None,
    };
    checked(found, n)
}

/// The number types that this mode handles itself.
#[verifier::allow_in_spec]
pub fn is_integer(dtype: DType) -> (r: bool)
    returns
        (match dtype {
            DType::I64 => true,
            DType::U64 => true,
            DType::I32 => true,
            DType::U32 => true,
            _ => false,
        }),
{
    match dtype {
        DType::I64 => true,
        DType::U64 => true,
        DType::I32 => true,
        DType::U32 => true,
        _ => false,
    }
}

/// Compress a block of an integer column from its lane words.
pub fn encode(lane: Lane, block: &[u64], dtype: DType, level: usize) -> (r: Option<Vec<u8>>)
    requires
        lane == dtype.lane(),
        lane.fits_all(block@),
    ensures
        r is Some <==> block.len() > 0 && is_integer(dtype) && level <= PCO_MAX_LEVEL,
        r matches Some(out) ==> pco_made(dtype, block@, level, out@),
        r matches Some(out) ==> pco_decoded(dtype, out@, block@.len()) == Ok::<_, Error>(block@),
{
    match lane {
        Lane::W64 => compress64(block, dtype, level),
        Lane::W32 => {
            let narrow = narrowed32(block);
            compress32(&narrow, dtype, level)
        },
    }
}

/// Inverse of [`encode`].
pub fn decode(lane: Lane, payload: &[u8], n: usize, dtype: DType) -> (r: Result<Vec<u64>, Error>)
    requires
        lane == dtype.lane(),
    ensures
        error::viewed(r) == pco_decoded(dtype, payload@, n as nat),
        r matches Ok(v) ==> lane.fits_all(v@) && v.len() == n,
{
    match lane {
        Lane::W64 => decompress64(payload, n, dtype),
        Lane::W32 => decompress32(payload, n, dtype),
    }
}

} // verus!
