//! Typed columns: the front door of the library.
//!
//! A column of a lane type is lowered to lane words and written as one stream;
//! decimals own a container. Null values are compacted out before the codecs
//! see them and come back as zero.
//!
//! Floating-point columns are held by their bit patterns. The library does no
//! float arithmetic: a caller that has it may offer candidates for float blocks
//! when compressing ([`FloatOffer`]) and then supplies the words of those blocks
//! when decompressing (see [`crate::decoder::float_blocks`]). Without offers a
//! float stream needs nothing supplied.

use vstd::prelude::*;
use crate::codecs::pcodec;
use crate::codecs::pcodec::{narrowed32, signed32, signed64, unsigned32, unsigned64, widened32};
use crate::config::Config;
use crate::decimal;
use crate::decimal::{compress128, compress256, decompress128, decompress256, is_decimal_stream, nulls_only};
use crate::decoder;
use crate::decoder::{decompress_lane, DecodedLane};
use crate::diag;
use crate::diag::ModeWins;
use crate::dtype;
use crate::dtype::DType;
use crate::encoder;
use crate::encoder::{compress_lane, FloatOffer};
use crate::error;
use crate::error::Error;
use crate::format::Header;
use crate::lane;
use crate::lane::Lane;
use crate::validity;

verus! {

/// Version string.
pub const VERSION: &'static str = "quoin 0.1.0";

/// The largest block size, in values, that the decoder accepts for the 64-bit
/// types; the 32-bit types allow twice as many.
pub const MAX_BLOCK_SIZE: usize = 131072;

/// A borrowed typed column, the input to [`compress_column`].
#[derive(Clone, Copy, Debug)]
#[allow(inconsistent_fields)]
pub enum ColumnRef<'a> {
    /// IEEE-754 binary64 bit patterns.
    F64(&'a [u64]),
    /// Signed 64-bit integers.
    I64(&'a [i64]),
    /// Unsigned 64-bit integers.
    U64(&'a [u64]),
    /// Signed 32-bit integers.
    I32(&'a [i32]),
    /// Unsigned 32-bit integers.
    U32(&'a [u32]),
    /// IEEE-754 binary32 bit patterns.
    F32(&'a [u32]),
    /// 128-bit decimal significands; a value is `significand * 10^-scale`.
    Decimal128 { values: &'a [i128], scale: i8, precision: u8 },
    /// 256-bit decimal significands, little-endian two's complement.
    Decimal256 { values: &'a [[u8; 32]], scale: i8, precision: u8 },
}

/// An owned typed column, the output of [`decompress_column`].
#[derive(Clone, Debug, PartialEq)]
#[allow(inconsistent_fields)]
pub enum Column {
    F64(Vec<u64>),
    I64(Vec<i64>),
    U64(Vec<u64>),
    I32(Vec<i32>),
    U32(Vec<u32>),
    F32(Vec<u32>),
    Decimal128 { values: Vec<i128>, scale: i8, precision: u8 },
    Decimal256 { values: Vec<[u8; 32]>, scale: i8, precision: u8 },
}

/// What a column holds.
#[allow(inconsistent_fields)]
pub enum ColumnView {
    F64(Seq<u64>),
    I64(Seq<i64>),
    U64(Seq<u64>),
    I32(Seq<i32>),
    U32(Seq<u32>),
    F32(Seq<u32>),
    Decimal128 { values: Seq<i128>, scale: i8, precision: u8 },
    Decimal256 { values: Seq<Seq<u8>>, scale: i8, precision: u8 },
}

impl ColumnView {
    /// The logical type.
    pub open spec fn dtype(self) -> DType {
        match self {
            ColumnView::F64(_) => DType::F64,
            ColumnView::I64(_) => DType::I64,
            ColumnView::U64(_) => DType::U64,
            ColumnView::I32(_) => DType::I32,
            ColumnView::U32(_) => DType::U32,
            ColumnView::F32(_) => DType::F32,
            ColumnView::Decimal128 { .. } => DType::Decimal128,
            ColumnView::Decimal256 { .. } => DType::Decimal256,
        }
    }

    /// The number of values, nulls included.
    pub open spec fn len(self) -> nat {
        match self {
            ColumnView::F64(v) => v.len(),
            ColumnView::I64(v) => v.len(),
            ColumnView::U64(v) => v.len(),
            ColumnView::I32(v) => v.len(),
            ColumnView::U32(v) => v.len(),
            ColumnView::F32(v) => v.len(),
            ColumnView::Decimal128 { values, .. } => values.len(),
            ColumnView::Decimal256 { values, .. } => values.len(),
        }
    }

    /// A decimal column.
    pub open spec fn is_decimal(self) -> bool {
        self is Decimal128 || self is Decimal256
    }

    /// The lane words of a column that is not decimal.
    pub open spec fn words(self) -> Seq<u64> {
        match self {
            ColumnView::F64(v) => v,
            ColumnView::I64(v) => pcodec::words_of_i64(v),
            ColumnView::U64(v) => v,
            ColumnView::I32(v) => pcodec::words_of_i32(v),
            ColumnView::U32(v) => pcodec::words_of_u32(v),
            ColumnView::F32(v) => pcodec::words_of_u32(v),
            _ => Seq::empty(),
        }
    }

    /// The column with zero where it is null.
    pub open spec fn nulled(self, bits: Option<Seq<bool>>) -> ColumnView {
        match self {
            ColumnView::F64(v) => ColumnView::F64(decimal::nulled(v, bits, 0)),
            ColumnView::I64(v) => ColumnView::I64(decimal::nulled(v, bits, 0)),
            ColumnView::U64(v) => ColumnView::U64(decimal::nulled(v, bits, 0)),
            ColumnView::I32(v) => ColumnView::I32(decimal::nulled(v, bits, 0)),
            ColumnView::U32(v) => ColumnView::U32(decimal::nulled(v, bits, 0)),
            ColumnView::F32(v) => ColumnView::F32(decimal::nulled(v, bits, 0)),
            ColumnView::Decimal128 { values, scale, precision } => ColumnView::Decimal128 {
                values: decimal::nulled(values, bits, 0),
                scale,
                precision,
            },
            ColumnView::Decimal256 { values, scale, precision } => ColumnView::Decimal256 {
                values: decimal::nulled(values, bits, decimal::zero256()),
                scale,
                precision,
            },
        }
    }
}

/// The column of type `dtype` with lane words `words`.
pub open spec fn typed(dtype: DType, words: Seq<u64>) -> ColumnView {
    match dtype {
        DType::F64 => ColumnView::F64(words),
        DType::I64 => ColumnView::I64(
            Seq::new(words.len(), |i: int| Lane::W64.signed(words[i]) as i64),
        ),
        DType::I32 => ColumnView::I32(
            Seq::new(words.len(), |i: int| Lane::W32.signed(words[i]) as i32),
        ),
        DType::U32 => ColumnView::U32(Seq::new(words.len(), |i: int| words[i] as u32)),
        DType::F32 => ColumnView::F32(Seq::new(words.len(), |i: int| words[i] as u32)),
        _ => ColumnView::U64(words),
    }
}

impl<'a> View for ColumnRef<'a> {
    type V = ColumnView;

    open spec fn view(&self) -> ColumnView {
        match *self {
            ColumnRef::F64(v) => ColumnView::F64(v@),
            ColumnRef::I64(v) => ColumnView::I64(v@),
            ColumnRef::U64(v) => ColumnView::U64(v@),
            ColumnRef::I32(v) => ColumnView::I32(v@),
            ColumnRef::U32(v) => ColumnView::U32(v@),
            ColumnRef::F32(v) => ColumnView::F32(v@),
            ColumnRef::Decimal128 { values, scale, precision } => ColumnView::Decimal128 {
                values: values@,
                scale,
                precision,
            },
            ColumnRef::Decimal256 { values, scale, precision } => ColumnView::Decimal256 {
                values: decimal::images(values@),
                scale,
                precision,
            },
        }
    }
}

impl View for Column {
    type V = ColumnView;

    open spec fn view(&self) -> ColumnView {
        match *self {
            Column::F64(v) => ColumnView::F64(v@),
            Column::I64(v) => ColumnView::I64(v@),
            Column::U64(v) => ColumnView::U64(v@),
            Column::I32(v) => ColumnView::I32(v@),
            Column::U32(v) => ColumnView::U32(v@),
            Column::F32(v) => ColumnView::F32(v@),
            Column::Decimal128 { values, scale, precision } => ColumnView::Decimal128 {
                values: values@,
                scale,
                precision,
            },
            Column::Decimal256 { values, scale, precision } => ColumnView::Decimal256 {
                values: decimal::images(values@),
                scale,
                precision,
            },
        }
    }
}

impl Column {
    /// The logical type of this column.
    pub fn dtype(&self) -> (d: DType)
        ensures
            d == self@.dtype(),
    {
        match self {
            Column::F64(_) => DType::F64,
            Column::I64(_) => DType::I64,
            Column::U64(_) => DType::U64,
            Column::I32(_) => DType::I32,
            Column::U32(_) => DType::U32,
            Column::F32(_) => DType::F32,
            Column::Decimal128 { .. } => DType::Decimal128,
            Column::Decimal256 { .. } => DType::Decimal256,
        }
    }

    /// Number of values.
    pub fn len(&self) -> (n: usize)
        ensures
            n == self@.len(),
    {
        match self {
            Column::F64(v) => v.len(),
            Column::I64(v) => v.len(),
            Column::U64(v) => v.len(),
            Column::I32(v) => v.len(),
            Column::U32(v) => v.len(),
            Column::F32(v) => v.len(),
            Column::Decimal128 { values, .. } => values.len(),
            Column::Decimal256 { values, .. } => values.len(),
        }
    }

    /// Whether the column has no values.
    pub fn is_empty(&self) -> (r: bool)
        ensures
            r == (self@.len() == 0),
    {
        self.len() == 0
    }
}

impl<'a> ColumnRef<'a> {
    /// The logical type of this column.
    pub fn dtype(&self) -> (d: DType)
        ensures
            d == self@.dtype(),
    {
        match self {
            ColumnRef::F64(_) => DType::F64,
            ColumnRef::I64(_) => DType::I64,
            ColumnRef::U64(_) => DType::U64,
            ColumnRef::I32(_) => DType::I32,
            ColumnRef::U32(_) => DType::U32,
            ColumnRef::F32(_) => DType::F32,
            ColumnRef::Decimal128 { .. } => DType::Decimal128,
            ColumnRef::Decimal256 { .. } => DType::Decimal256,
        }
    }

    /// Number of values, nulls included.
    pub fn len(&self) -> (n: usize)
        ensures
            n == self@.len(),
    {
        match self {
            ColumnRef::F64(v) => v.len(),
            ColumnRef::I64(v) => v.len(),
            ColumnRef::U64(v) => v.len(),
            ColumnRef::I32(v) => v.len(),
            ColumnRef::U32(v) => v.len(),
            ColumnRef::F32(v) => v.len(),
            ColumnRef::Decimal128 { values, .. } => values.len(),
            ColumnRef::Decimal256 { values, .. } => values.len(),
        }
    }

    /// Whether the column has no values.
    pub fn is_empty(&self) -> (r: bool)
        ensures
            r == (self@.len() == 0),
    {
        self.len() == 0
    }
}

/// A decoded column: the values, zero where null, and the validity bitmap
/// (least significant bit first; a clear bit marks a null).
#[derive(Clone, Debug, PartialEq)]
pub struct DecodedColumn {
    pub values: Column,
    pub validity: Option<Vec<u8>>,
}

// ---------------------------------------------------------------------------
// Decompression
// ---------------------------------------------------------------------------

/// The column and the validity in stream `src`, `floats` being the words of its
/// float frames, in order.
pub open spec fn column_decoded(src: Seq<u8>, floats: Seq<Seq<u64>>) -> Result<
    (ColumnView, Option<Seq<bool>>),
    Error,
> {
    if src.len() <= 7 {
        Err(Error::Truncated)
    } else {
        match dtype::dtype_of_wire(src[7]) {
            Err(e) => Err(e),
            Ok(dtype) => if decimal::is_container(src) {
                container_decoded(src, dtype, floats)
            } else if dtype is Decimal128 || dtype is Decimal256 {
                Err(Error::CorruptPayload("decimal lane without container"))
            } else {
                match decoder::lane_decoded(src, floats) {
                    Err(e) => Err(e),
                    Ok((t, words, bits)) => Ok((typed(t, words), bits)),
                }
            },
        }
    }
}

/// The column and the validity in a decimal container, `floats` being the words of the
/// float frames of its limb streams, in order.
pub open spec fn container_decoded(src: Seq<u8>, dtype: DType, floats: Seq<Seq<u64>>) -> Result<
    (ColumnView, Option<Seq<bool>>),
    Error,
> {
    if dtype is Decimal256 {
        match decimal::decimal256_decoded(src, floats) {
            Err(e) => Err(e),
            Ok((values, scale, precision, bits)) => Ok(
                (ColumnView::Decimal256 { values, scale, precision }, bits),
            ),
        }
    } else {
        match decimal::decimal128_decoded(src, floats) {
            Err(e) => Err(e),
            Ok((values, scale, precision, bits)) => Ok(
                (ColumnView::Decimal128 { values, scale, precision }, bits),
            ),
        }
    }
}

/// Lane words as a typed column.
fn from_words(dtype: DType, words: Vec<u64>) -> (c: Column)
    requires
        dtype.lane().fits_all(words@),
    ensures
        c@ == typed(dtype, words@),
{
    match dtype {
        DType::F64 => Column::F64(words),
        DType::I64 => {
            let nums = signed64(&words);
            assert(nums@ =~= typed(dtype, words@)->I64_0);
            Column::I64(nums)
        },
        DType::I32 => {
            let narrow = narrowed32(&words);
            let nums = signed32(&narrow);
            proof {
                assert forall|i: int| 0 <= i < words@.len() implies #[trigger] nums@[i]
                    == Lane::W32.signed(words@[i]) by {
                    assert(pcodec::words_of_u32(narrow@)[i] == words@[i]);
                }
                assert(nums@ =~= typed(dtype, words@)->I32_0);
            }
            Column::I32(nums)
        },
        DType::U32 => {
            let nums = narrowed32(&words);
            proof {
                assert forall|i: int| 0 <= i < words@.len() implies #[trigger] nums@[i]
                    == words@[i] by {
                    assert(pcodec::words_of_u32(nums@)[i] == words@[i]);
                }
                assert(nums@ =~= typed(dtype, words@)->U32_0);
            }
            Column::U32(nums)
        },
        DType::F32 => {
            let nums = narrowed32(&words);
            proof {
                assert forall|i: int| 0 <= i < words@.len() implies #[trigger] nums@[i]
                    == words@[i] by {
                    assert(pcodec::words_of_u32(nums@)[i] == words@[i]);
                }
                assert(nums@ =~= typed(dtype, words@)->F32_0);
            }
            Column::F32(nums)
        },
        _ => Column::U64(words),
    }
}

/// A decoded column says what a model does.
pub open spec fn column_says(
    r: Result<DecodedColumn, Error>,
    model: Result<(ColumnView, Option<Seq<bool>>), Error>,
) -> bool {
    match model {
        Err(e) => r == Err::<DecodedColumn, Error>(e),
        Ok((col, bits)) => {
            &&& r matches Ok(d)
            &&& d.values@ == col
            &&& decoder::bitmap_says(d.validity, bits, col.len())
        },
    }
}

/// Decompress a stream written by [`compress_column`]: the typed values and the
/// validity bitmap. `floats` holds the words of its float frames, in order; in a decimal
/// container, those of the limb streams, one after the other.
pub fn decompress_column(src: &[u8], floats: &[Vec<u64>]) -> (r: Result<DecodedColumn, Error>)
    ensures
        column_says(r, column_decoded(src@, decoder::words_view(floats@))),
        r is Ok && !decimal::is_container(src@) ==> {
            &&& crate::format::header_parse(src@) matches Ok(h)
            &&& h.n_values == r->Ok_0.values@.len()
            &&& h.dtype == r->Ok_0.values@.dtype()
        },
{
    if src.len() <= 7 {
        return Err(Error::Truncated);
    }
    let dtype: DType = match DType::from_wire(src[7]) {
        Err(e) => return Err(e),
        Ok(d) => d,
    };
    if is_decimal_stream(src) {
        return decompress_container(src, dtype, floats);
    }
    match dtype {
        DType::Decimal128 | DType::Decimal256 => {
            return Err(Error::CorruptPayload("decimal lane without container"));
        },
        _ => {},
    }
    let d: DecodedLane = match decompress_lane(src, floats) {
        Err(e) => return Err(e),
        Ok(d) => d,
    };
    Ok(DecodedColumn { values: from_words(d.dtype, d.words), validity: d.validity })
}

fn decompress_container(src: &[u8], dtype: DType, floats: &[Vec<u64>]) -> (r: Result<
    DecodedColumn,
    Error,
>)
    ensures
        column_says(r, container_decoded(src@, dtype, decoder::words_view(floats@))),
{
    match dtype {
        DType::Decimal256 => match decompress256(src, floats) {
            Err(e) => Err(e),
            Ok(d) => Ok(
                DecodedColumn {
                    values: Column::Decimal256 {
                        values: d.values,
                        scale: d.scale,
                        precision: d.precision,
                    },
                    validity: d.validity,
                },
            ),
        },
        _ => match decompress128(src, floats) {
            Err(e) => Err(e),
            Ok(d) => Ok(
                DecodedColumn {
                    values: Column::Decimal128 {
                        values: d.values,
                        scale: d.scale,
                        precision: d.precision,
                    },
                    validity: d.validity,
                },
            ),
        },
    }
}

/// Decompress a stream of binary64 bit patterns.
pub fn decompress(src: &[u8], floats: &[Vec<u64>]) -> (r: Result<Vec<u64>, Error>)
    ensures
        error::viewed(r) == (match column_decoded(src@, decoder::words_view(floats@)) {
            Err(e) => Err::<Seq<u64>, Error>(e),
            Ok((col, _)) => match col {
                ColumnView::F64(v) => Ok(v),
                _ => Err(Error::DTypeMismatch),
            },
        }),
{
    match decompress_column(src, floats) {
        Err(e) => Err(e),
        Ok(d) => match d.values {
            Column::F64(v) => Ok(v),
            _ => Err(Error::DTypeMismatch),
        },
    }
}

/// The number of values that a stream will decode to, read from its header.
pub fn decompressed_len(src: &[u8]) -> (r: Result<usize, Error>)
    ensures
        r == (match crate::format::header_parse(src@) {
            Err(e) => Err::<usize, Error>(e),
            Ok(h) => if h.n_values <= usize::MAX {
                Ok(h.n_values as usize)
            } else {
                Err(Error::Truncated)
            },
        }),
{
    let header: Header = match Header::read(src) {
        Err(e) => return Err(e),
        Ok(h) => h,
    };
    if header.n_values <= usize::MAX as u64 {
        Ok(header.n_values as usize)
    } else {
        Err(Error::Truncated)
    }
}

// ---------------------------------------------------------------------------
// Compression
// ---------------------------------------------------------------------------

/// The column is found again from its lane words.
proof fn lemma_typed_words(c: ColumnView)
    requires
        !c.is_decimal(),
    ensures
        typed(c.dtype(), c.words()) == c,
        c.words().len() == c.len(),
        c.dtype().lane().fits_all(c.words()),
{
    match c {
        ColumnView::I64(v) => {
            assert(typed(c.dtype(), c.words())->I64_0 =~= v);
        },
        ColumnView::I32(v) => {
            assert(typed(c.dtype(), c.words())->I32_0 =~= v);
        },
        ColumnView::U32(v) => {
            assert(typed(c.dtype(), c.words())->U32_0 =~= v);
        },
        ColumnView::F32(v) => {
            assert(typed(c.dtype(), c.words())->F32_0 =~= v);
        },
        _ => {},
    }
}

/// Clearing null words clears null values.
proof fn lemma_typed_nulled(c: ColumnView, bits: Option<Seq<bool>>)
    requires
        !c.is_decimal(),
    ensures
        typed(c.dtype(), decimal::nulled(c.words(), bits, 0)) == c.nulled(bits),
{
    lemma_typed_words(c);
    let words = decimal::nulled(c.words(), bits, 0);
    let t = typed(c.dtype(), words);
    if let Some(b) = bits {
        assert forall|i: int| 0 <= i < words.len() implies #[trigger] words[i] == (if b[i] {
            c.words()[i]
        } else {
            0
        }) by {}
        match c {
            ColumnView::I64(v) => {
                let back = typed(c.dtype(), c.words())->I64_0;
                assert forall|i: int| 0 <= i < v.len() implies #[trigger] (t->I64_0)[i] == (
                c.nulled(bits)->I64_0)[i] by {
                    assert(back[i] == v[i]);
                }
                assert(t->I64_0 =~= c.nulled(bits)->I64_0);
            },
            ColumnView::I32(v) => {
                let back = typed(c.dtype(), c.words())->I32_0;
                assert forall|i: int| 0 <= i < v.len() implies #[trigger] (t->I32_0)[i] == (
                c.nulled(bits)->I32_0)[i] by {
                    assert(back[i] == v[i]);
                }
                assert(t->I32_0 =~= c.nulled(bits)->I32_0);
            },
            ColumnView::U32(v) => {
                let back = typed(c.dtype(), c.words())->U32_0;
                assert forall|i: int| 0 <= i < v.len() implies #[trigger] (t->U32_0)[i] == (
                c.nulled(bits)->U32_0)[i] by {
                    assert(back[i] == v[i]);
                }
                assert(t->U32_0 =~= c.nulled(bits)->U32_0);
            },
            ColumnView::F32(v) => {
                let back = typed(c.dtype(), c.words())->F32_0;
                assert forall|i: int| 0 <= i < v.len() implies #[trigger] (t->F32_0)[i] == (
                c.nulled(bits)->F32_0)[i] by {
                    assert(back[i] == v[i]);
                }
                assert(t->F32_0 =~= c.nulled(bits)->F32_0);
            },
            _ => {},
        }
    }
}

/// The words of a column's float frames in stream `out`: the slices of its
/// valid words that lie there.
pub open spec fn column_slices(out: Seq<u8>, col: ColumnView, bits: Option<Seq<bool>>) -> Seq<
    Seq<u64>,
> {
    if col.is_decimal() {
        Seq::empty()
    } else {
        encoder::stream_slices(out, col.dtype(), decimal::valid_of(col.words(), bits))
    }
}

/// The mode identifiers of the blocks in a stream or container, in order.
pub open spec fn stored_modes(out: Seq<u8>) -> Seq<u8> {
    if decimal::is_container(out) {
        decimal::container_modes(out)
    } else {
        encoder::frame_ids(encoder::stream_frames(out))
    }
}

/// What compressing a column promises of the stream.
pub open spec fn column_stored(
    out: Seq<u8>,
    col: ColumnView,
    bits: Option<Seq<bool>>,
    cfg: Config,
) -> bool {
    &&& column_decoded(out, column_slices(out, col, bits)) == Ok::<_, Error>(
        (col.nulled(bits), bits),
    )
    &&& !col.is_decimal() ==> crate::format::header_parse(out) == Ok::<_, Error>(
        Header {
            predictor_log2: cfg.spec_predictor_log2(),
            dtype: col.dtype(),
            has_validity: bits is Some,
            has_shared_dict: false,
            n_values: col.len() as u64,
        },
    )
}

/// What the container of a column of decimals holds.
#[verifier::opaque]
pub open spec fn contained(
    col: ColumnView,
    bits: Option<Seq<bool>>,
    c: decimal::ContainerView,
) -> bool {
    match col {
        ColumnView::Decimal128 { values, scale, precision } => decimal::holds128(
            c,
            values,
            scale,
            precision,
            bits,
        ),
        ColumnView::Decimal256 { values, scale, precision } => decimal::holds256(
            c,
            values,
            scale,
            precision,
            bits,
        ),
        _ => true,
    }
}

/// `out` is how a column is written, `bitmap` being the bitmap that is stored: the
/// stream of the winning blocks of its valid words, or for decimals the container of
/// the limb streams of their offsets from the least.
pub open spec fn column_written(
    out: Seq<u8>,
    col: ColumnView,
    bitmap: Option<&[u8]>,
    cfg: Config,
    offers: Seq<Vec<FloatOffer>>,
) -> bool {
    if col.is_decimal() {
        decimal::container_parse(out, col.dtype(), Seq::empty()) matches Ok(c) && decimal::container_written(
            out,
            col.dtype(),
            c,
            bitmap,
            cfg,
        ) && contained(col, encoder::bits_of(bitmap, col.len()), c)
    } else {
        encoder::won_stream(
            out,
            col.dtype(),
            decimal::valid_of(col.words(), encoder::bits_of(bitmap, col.len())),
            col.len() as usize,
            bitmap,
            cfg,
            offers,
        )
    }
}

proof fn lemma_lane_stored(
    out: Seq<u8>,
    col: ColumnView,
    n: usize,
    bits: Option<Seq<bool>>,
    cfg: Config,
)
    requires
        !col.is_decimal(),
        n == col.len(),
        bits matches Some(b) ==> b.len() == n,
        encoder::compressed(
            out,
            col.dtype(),
            decimal::valid_of(col.words(), bits),
            n,
            bits,
            cfg,
        ),
    ensures
        column_stored(out, col, bits, cfg),
{
    lemma_typed_words(col);
    lemma_typed_nulled(col, bits);
    decimal::lemma_placed(col.words(), bits, 0u64);
    assert(!decimal::is_container(out));
    assert(encoder::column_words(decimal::valid_of(col.words(), bits), bits) == decimal::nulled(
        col.words(),
        bits,
        0u64,
    ));
}

/// Compress a column already lowered to its lane, handling null compaction.
fn compress_typed(
    words: &[u64],
    dtype: DType,
    bitmap: Option<&[u8]>,
    cfg: &Config,
    offers: &[Vec<FloatOffer>],
    wins: &mut ModeWins,
) -> (out: Vec<u8>)
    requires
        dtype.lane().fits_all(words@),
        encoder::bitmap_covers(bitmap, words@.len()),
    ensures
        encoder::compressed(
            out@,
            dtype,
            decimal::valid_of(words@, decimal::stored_bits(bitmap, words@.len())),
            words.len(),
            decimal::stored_bits(bitmap, words@.len()),
            *cfg,
        ),
        encoder::won_stream(
            out@,
            dtype,
            decimal::valid_of(words@, decimal::stored_bits(bitmap, words@.len())),
            words.len(),
            decimal::stored_bitmap(bitmap, words@.len()),
            *cfg,
            offers@,
        ),
        dtype.family() is Int || offers.len() == 0 ==> encoder::stream_slices(
            out@,
            dtype,
            decimal::valid_of(words@, decimal::stored_bits(bitmap, words@.len())),
        ) == Seq::<Seq<u64>>::empty(),
        final(wins).counts@ == diag::with_wins(old(wins).counts@, stored_modes(out@)),
        cfg.block_size is None ==> out.len() <= 9 * words.len() + 1024,
{
    let n: usize = words.len();
    match nulls_only(bitmap, n) {
        None => compress_lane(words, dtype, n, None, cfg, offers, wins),
        Some(bm) => {
            let valid = validity::compact(words, bm);
            let ghost bits = validity::bitmap_bits(bm@, n as nat);
            proof {
                decimal::lemma_placed(words@, Some(bits), 0u64);
                lemma_compacted_fits(dtype.lane(), words@, bits);
            }
            compress_lane(&valid, dtype, n, Some(bm), cfg, offers, wins)
        },
    }
}

proof fn lemma_compacted_fits(lane: Lane, vals: Seq<u64>, bits: Seq<bool>)
    requires
        lane.fits_all(vals),
    ensures
        lane.fits_all(validity::compacted(vals, bits)),
    decreases vals.len(),
{
    if vals.len() > 0 {
        lemma_compacted_fits(lane, vals.drop_last(), bits);
    }
}

/// Compress a typed column losslessly, with an optional validity bitmap (a set
/// bit marks a valid value; least significant bit first). `offers[i]` are the
/// float candidates of block `i` of a float column.
pub fn compress_column(
    col: ColumnRef,
    bitmap: Option<&[u8]>,
    cfg: Config,
    offers: &[Vec<FloatOffer>],
    wins: &mut ModeWins,
) -> (out: Vec<u8>)
    requires
        encoder::bitmap_covers(bitmap, col@.len()),
    ensures
        column_stored(out@, col@, decimal::stored_bits(bitmap, col@.len()), cfg),
        column_written(out@, col@, decimal::stored_bitmap(bitmap, col@.len()), cfg, offers@),
        col@.dtype().family() is Int || offers.len() == 0 ==> column_slices(
            out@,
            col@,
            decimal::stored_bits(bitmap, col@.len()),
        ) == Seq::<Seq<u64>>::empty(),
        final(wins).counts@ == diag::with_wins(old(wins).counts@, stored_modes(out@)),
        !col@.is_decimal() && cfg.block_size is None ==> out.len() <= 9 * col@.len() + 1024,
{
    let ghost bits = decimal::stored_bits(bitmap, col@.len());
    proof {
        if !col@.is_decimal() {
            lemma_typed_words(col@);
        }
    }
    let n: usize = col.len();
    let out: Vec<u8> = match col {
        ColumnRef::F64(v) => compress_typed(v, DType::F64, bitmap, &cfg, offers, wins),
        ColumnRef::I64(v) => {
            let words = unsigned64(v);
            compress_typed(&words, DType::I64, bitmap, &cfg, offers, wins)
        },
        ColumnRef::U64(v) => compress_typed(v, DType::U64, bitmap, &cfg, offers, wins),
        ColumnRef::I32(v) => {
            let words = unsigned32(v);
            compress_typed(&words, DType::I32, bitmap, &cfg, offers, wins)
        },
        ColumnRef::U32(v) => {
            let words = widened32(v);
            compress_typed(&words, DType::U32, bitmap, &cfg, offers, wins)
        },
        ColumnRef::F32(v) => {
            let words = widened32(v);
            compress_typed(&words, DType::F32, bitmap, &cfg, offers, wins)
        },
        ColumnRef::Decimal128 { values, scale, precision } => {
            let out = compress128(values, scale, precision, bitmap, &cfg, wins);
            assert(column_stored(out@, col@, bits, cfg));
            proof {
                let c = decimal::container_parse(out@, DType::Decimal128, Seq::empty())->Ok_0;
                assert(c.bits == bits);
                assert(contained(col@, bits, c)) by {
                    reveal(contained);
                }
            }
            out
        },
        ColumnRef::Decimal256 { values, scale, precision } => {
            let out = compress256(values, scale, precision, bitmap, &cfg, wins);
            assert(column_stored(out@, col@, bits, cfg));
            proof {
                let c = decimal::container_parse(out@, DType::Decimal256, Seq::empty())->Ok_0;
                assert(c.bits == bits);
                assert(contained(col@, bits, c)) by {
                    reveal(contained);
                }
            }
            out
        },
    };
    proof {
        if !col@.is_decimal() {
            assert(bits matches Some(b) ==> b.len() == n);
            lemma_lane_stored(out@, col@, n, bits, cfg);
        }
    }
    out
}

/// Compress binary64 bit patterns losslessly.
pub fn compress(
    src: &[u64],
    cfg: Config,
    offers: &[Vec<FloatOffer>],
    wins: &mut ModeWins,
) -> (out: Vec<u8>)
    ensures
        column_stored(out@, ColumnView::F64(src@), None, cfg),
        column_written(out@, ColumnView::F64(src@), None, cfg, offers@),
        offers.len() == 0 ==> column_slices(out@, ColumnView::F64(src@), None) == Seq::<
            Seq<u64>,
        >::empty(),
        final(wins).counts@ == diag::with_wins(old(wins).counts@, stored_modes(out@)),
        cfg.block_size is None ==> out.len() <= 9 * src.len() + 1024,
{
    compress_column(ColumnRef::F64(src), None, cfg, offers, wins)
}

/// Decompressing undoes compressing: a stream that [`compress_column`] wrote for
/// a column, its float frames evaluated to the words they were made of, decodes to
/// that column, with zero where it is null and the validity as it was. A stream
/// without float frames needs nothing evaluated.
pub proof fn lemma_decompress_undoes_compress(
    out: Seq<u8>,
    col: ColumnView,
    bits: Option<Seq<bool>>,
    cfg: Config,
    floats: Seq<Seq<u64>>,
)
    requires
        column_stored(out, col, bits, cfg),
        floats == column_slices(out, col, bits),
    ensures
        column_decoded(out, floats) == Ok::<_, Error>((col.nulled(bits), bits)),
        bits is None ==> column_decoded(out, floats) == Ok::<_, Error>((col, bits)),
{
}

/// Two columns of one type, with the same scale and precision, hold the same wherever
/// the bits are set.
pub open spec fn agree(a: ColumnView, b: ColumnView, bits: Seq<bool>) -> bool {
    match (a, b) {
        (ColumnView::F64(x), ColumnView::F64(y)) => validity::agree(x, y, bits),
        (ColumnView::I64(x), ColumnView::I64(y)) => validity::agree(x, y, bits),
        (ColumnView::U64(x), ColumnView::U64(y)) => validity::agree(x, y, bits),
        (ColumnView::I32(x), ColumnView::I32(y)) => validity::agree(x, y, bits),
        (ColumnView::U32(x), ColumnView::U32(y)) => validity::agree(x, y, bits),
        (ColumnView::F32(x), ColumnView::F32(y)) => validity::agree(x, y, bits),
        (
            ColumnView::Decimal128 { values: x, scale, precision },
            ColumnView::Decimal128 { values: y, scale: s, precision: p },
        ) => validity::agree(x, y, bits) && s == scale && p == precision,
        (
            ColumnView::Decimal256 { values: x, scale, precision },
            ColumnView::Decimal256 { values: y, scale: s, precision: p },
        ) => validity::agree(x, y, bits) && s == scale && p == precision,
        _ => false,
    }
}

/// Columns that agree where they are valid have the same valid words, and are the same
/// with zero where they are null.
proof fn lemma_agree(a: ColumnView, b: ColumnView, bits: Seq<bool>)
    requires
        agree(a, b, bits),
        bits.len() == a.len(),
    ensures
        a.len() == b.len(),
        a.dtype() == b.dtype(),
        a.is_decimal() == b.is_decimal(),
        a.nulled(Some(bits)) == b.nulled(Some(bits)),
        !a.is_decimal() ==> validity::compacted(a.words(), bits) == validity::compacted(
            b.words(),
            bits,
        ),
        forall|c: decimal::ContainerView| #[trigger]
            contained(a, Some(bits), c) == contained(b, Some(bits), c),
        (forall|i: int| 0 <= i < bits.len() ==> #[trigger] bits[i]) ==> a == b,
{
    match (a, b) {
        (ColumnView::F64(x), ColumnView::F64(y)) => {
            validity::lemma_clear_unseen(x, y, bits, 0);
        },
        (ColumnView::I64(x), ColumnView::I64(y)) => {
            validity::lemma_clear_unseen(x, y, bits, 0);
        },
        (ColumnView::U64(x), ColumnView::U64(y)) => {
            validity::lemma_clear_unseen(x, y, bits, 0);
        },
        (ColumnView::I32(x), ColumnView::I32(y)) => {
            validity::lemma_clear_unseen(x, y, bits, 0);
        },
        (ColumnView::U32(x), ColumnView::U32(y)) => {
            validity::lemma_clear_unseen(x, y, bits, 0);
        },
        (ColumnView::F32(x), ColumnView::F32(y)) => {
            validity::lemma_clear_unseen(x, y, bits, 0);
        },
        (ColumnView::Decimal128 { values: x, .. }, ColumnView::Decimal128 { values: y, .. }) => {
            validity::lemma_clear_unseen(x, y, bits, 0);
        },
        (ColumnView::Decimal256 { values: x, .. }, ColumnView::Decimal256 { values: y, .. }) => {
            validity::lemma_clear_unseen(x, y, bits, decimal::zero256());
        },
        _ => {},
    }
    assert forall|c: decimal::ContainerView| #[trigger]
        contained(a, Some(bits), c) == contained(b, Some(bits), c) by {
        reveal(contained);
        match (a, b) {
            (
                ColumnView::Decimal128 { values: x, .. },
                ColumnView::Decimal128 { values: y, .. },
            ) => {
                assert(decimal::valid_of(x, Some(bits)) == decimal::valid_of(y, Some(bits)));
            },
            (
                ColumnView::Decimal256 { values: x, .. },
                ColumnView::Decimal256 { values: y, .. },
            ) => {
                assert(decimal::valid_of(x, Some(bits)) == decimal::valid_of(y, Some(bits)));
            },
            _ => {},
        }
    }
    if !a.is_decimal() {
        assert forall|i: int| 0 <= i < a.words().len() && bits[i] implies #[trigger] a.words()[i]
            == b.words()[i] by {}
        validity::lemma_clear_unseen(a.words(), b.words(), bits, 0);
    }
    if forall|i: int| 0 <= i < bits.len() ==> #[trigger] bits[i] {
        match (a, b) {
            (ColumnView::F64(x), ColumnView::F64(y)) => assert(x =~= y),
            (ColumnView::I64(x), ColumnView::I64(y)) => assert(x =~= y),
            (ColumnView::U64(x), ColumnView::U64(y)) => assert(x =~= y),
            (ColumnView::I32(x), ColumnView::I32(y)) => assert(x =~= y),
            (ColumnView::U32(x), ColumnView::U32(y)) => assert(x =~= y),
            (ColumnView::F32(x), ColumnView::F32(y)) => assert(x =~= y),
            (
                ColumnView::Decimal128 { values: x, .. },
                ColumnView::Decimal128 { values: y, .. },
            ) => assert(x =~= y),
            (
                ColumnView::Decimal256 { values: x, .. },
                ColumnView::Decimal256 { values: y, .. },
            ) => assert(x =~= y),
            _ => {},
        }
    }
}

/// What lies in null slots never reaches the stream: of two columns that hold the same
/// wherever they are valid, one is written and stored as a byte string exactly if the
/// other is.
pub proof fn lemma_null_slots_unseen(
    out: Seq<u8>,
    a: ColumnView,
    b: ColumnView,
    bitmap: &[u8],
    cfg: Config,
    offers: Seq<Vec<FloatOffer>>,
)
    requires
        encoder::bitmap_covers(Some(bitmap), a.len()),
        agree(a, b, validity::bitmap_bits(bitmap@, a.len())),
    ensures
        a.len() == b.len(),
        column_written(
            out,
            a,
            decimal::stored_bitmap(Some(bitmap), a.len()),
            cfg,
            offers,
        ) == column_written(out, b, decimal::stored_bitmap(Some(bitmap), b.len()), cfg, offers),
        column_stored(out, a, decimal::stored_bits(Some(bitmap), a.len()), cfg) == column_stored(
            out,
            b,
            decimal::stored_bits(Some(bitmap), b.len()),
            cfg,
        ),
        column_slices(out, a, decimal::stored_bits(Some(bitmap), a.len())) == column_slices(
            out,
            b,
            decimal::stored_bits(Some(bitmap), b.len()),
        ),
{
    let bits = validity::bitmap_bits(bitmap@, a.len());
    lemma_agree(a, b, bits);
    validity::lemma_all_set(bits);
}

/// A bitmap that marks no value null is written and stored as no bitmap at all.
pub proof fn lemma_all_valid_is_no_bitmap(
    out: Seq<u8>,
    col: ColumnView,
    bitmap: &[u8],
    cfg: Config,
    offers: Seq<Vec<FloatOffer>>,
)
    requires
        encoder::bitmap_covers(Some(bitmap), col.len()),
        forall|i: int|
            0 <= i < col.len() ==> #[trigger] validity::bitmap_bits(bitmap@, col.len())[i],
    ensures
        decimal::stored_bitmap(Some(bitmap), col.len()) == decimal::stored_bitmap(None, col.len()),
        decimal::stored_bits(Some(bitmap), col.len()) == decimal::stored_bits(None, col.len()),
        column_written(
            out,
            col,
            decimal::stored_bitmap(Some(bitmap), col.len()),
            cfg,
            offers,
        ) == column_written(out, col, decimal::stored_bitmap(None, col.len()), cfg, offers),
        column_stored(out, col, decimal::stored_bits(Some(bitmap), col.len()), cfg)
            == column_stored(out, col, decimal::stored_bits(None, col.len()), cfg),
{
    validity::lemma_all_set(validity::bitmap_bits(bitmap@, col.len()));
}

/// The validity flag of what is written is set exactly if some value is null.
pub proof fn lemma_validity_flag(
    out: Seq<u8>,
    col: ColumnView,
    bitmap: Option<&[u8]>,
    cfg: Config,
    offers: Seq<Vec<FloatOffer>>,
)
    requires
        encoder::bitmap_covers(bitmap, col.len()),
        column_written(out, col, decimal::stored_bitmap(bitmap, col.len()), cfg, offers),
    ensures
        out.len() > 5,
        out[5] % 2 == crate::format::FLAG_VALIDITY <==> (bitmap matches Some(bm) && exists|i: int|
            0 <= i < col.len() && !(#[trigger] validity::bitmap_bits(bm@, col.len())[i])),
{
    if let Some(bm) = bitmap {
        validity::lemma_all_set(validity::bitmap_bits(bm@, col.len()));
    }
    if col.is_decimal() {
        reveal(decimal::container_written);
    }
}

/// The length read from the header is that of the column, for every column that
/// is not decimal.
pub proof fn lemma_stored_len(
    out: Seq<u8>,
    col: ColumnView,
    bits: Option<Seq<bool>>,
    cfg: Config,
)
    requires
        column_stored(out, col, bits, cfg),
        !col.is_decimal(),
        col.len() <= usize::MAX,
    ensures
        crate::format::header_parse(out) matches Ok(h) && h.n_values == col.len(),
{
}

/// A stream of the legacy version reads as one of the current version, for 64-bit
/// types and for decimal containers.
pub proof fn lemma_legacy_reads_alike(src: Seq<u8>, floats: Seq<Seq<u64>>)
    requires
        src.len() > 7,
        src[4] == crate::format::VERSION,
        decimal::is_container(src) || (dtype::dtype_of_wire(src[7]) matches Ok(d) && d.lane() is W64),
    ensures
        column_decoded(src.update(4, crate::format::LEGACY_VERSION), floats) == column_decoded(
            src,
            floats,
        ),
{
    let legacy = src.update(4, crate::format::LEGACY_VERSION);
    assert(legacy.take(4) =~= src.take(4));
    if decimal::is_container(src) {
        decimal::lemma_legacy_container(src, DType::Decimal128, floats);
        decimal::lemma_legacy_container(src, DType::Decimal256, floats);
    } else {
        reveal(decoder::lane_decoded);
        if src.len() >= 16 {
            assert(legacy.subrange(8, 16) =~= src.subrange(8, 16));
            assert(legacy.skip(16) =~= src.skip(16));
        }
    }
}

/// A stream of the legacy version with a 32-bit type is refused.
pub proof fn lemma_legacy_narrow_refused(src: Seq<u8>, floats: Seq<Seq<u64>>)
    requires
        crate::format::header_parse(src) matches Ok(h) && h.dtype.lane() is W32,
        src[4] == crate::format::VERSION,
    ensures
        column_decoded(src.update(4, crate::format::LEGACY_VERSION), floats) == Err::<
            (ColumnView, Option<Seq<bool>>),
            Error,
        >(Error::UnsupportedVersion(crate::format::LEGACY_VERSION)),
{
    let legacy = src.update(4, crate::format::LEGACY_VERSION);
    assert(legacy.take(4) =~= src.take(4));
    reveal(decoder::lane_decoded);
}

} // verus!
