//! Columns of the native fixed-width types.
//!
//! A caller that stores columns at their native width (one, two, four or eight
//! bytes per value) hands them over as they are: narrow integers and booleans
//! are widened to a 32-bit column for the codecs, and narrowed again when the
//! column comes back.

use vstd::prelude::*;
use crate::column;
use crate::column::Column;
use crate::validity;

verus! {

pub const DTYPE_BOOL: i32 = 0;

pub const DTYPE_I8: i32 = 1;

pub const DTYPE_I16: i32 = 2;

pub const DTYPE_I32: i32 = 3;

pub const DTYPE_I64: i32 = 4;

pub const DTYPE_U8: i32 = 5;

pub const DTYPE_U16: i32 = 6;

pub const DTYPE_U32: i32 = 7;

pub const DTYPE_U64: i32 = 8;

pub const DTYPE_F32: i32 = 9;

pub const DTYPE_F64: i32 = 10;

/// Bytes of one value of the type with tag `dtype`; zero for an unknown tag.
pub fn dtype_width(dtype: i32) -> (w: usize)
    ensures
        w == (if dtype == DTYPE_BOOL || dtype == DTYPE_I8 || dtype == DTYPE_U8 {
            1int
        } else if dtype == DTYPE_I16 || dtype == DTYPE_U16 {
            2
        } else if dtype == DTYPE_I32 || dtype == DTYPE_U32 || dtype == DTYPE_F32 {
            4
        } else if dtype == DTYPE_I64 || dtype == DTYPE_U64 || dtype == DTYPE_F64 {
            8
        } else {
            0
        }),
{
    if dtype == DTYPE_BOOL || dtype == DTYPE_I8 || dtype == DTYPE_U8 {
        1
    } else if dtype == DTYPE_I16 || dtype == DTYPE_U16 {
        2
    } else if dtype == DTYPE_I32 || dtype == DTYPE_U32 || dtype == DTYPE_F32 {
        4
    } else if dtype == DTYPE_I64 || dtype == DTYPE_U64 || dtype == DTYPE_F64 {
        8
    } else {
        0
    }
}

/// Room enough for the compressed form of `n` values: what
/// [`crate::column::compress_column`] writes for a column that is not decimal,
/// when no block size is fixed, is no longer.
pub fn compress_bound(n: usize) -> (r: usize)
    ensures
        r == (if 9 * n + 1024 <= usize::MAX {
            9 * n + 1024
        } else {
            usize::MAX as int
        }),
{
    if n <= (usize::MAX - 1024) / 9 {
        9 * n + 1024
    } else {
        usize::MAX
    }
}

/// A column at its native width. Booleans are one byte each; floats are bit
/// patterns.
#[derive(Clone, Debug, PartialEq)]
pub enum NativeColumn {
    Bool(Vec<u8>),
    I8(Vec<i8>),
    I16(Vec<i16>),
    I32(Vec<i32>),
    I64(Vec<i64>),
    U8(Vec<u8>),
    U16(Vec<u16>),
    U32(Vec<u32>),
    U64(Vec<u64>),
    F32(Vec<u32>),
    F64(Vec<u64>),
}

/// What a native column holds.
pub enum NativeView {
    Bool(Seq<u8>),
    I8(Seq<i8>),
    I16(Seq<i16>),
    I32(Seq<i32>),
    I64(Seq<i64>),
    U8(Seq<u8>),
    U16(Seq<u16>),
    U32(Seq<u32>),
    U64(Seq<u64>),
    F32(Seq<u32>),
    F64(Seq<u64>),
}

impl View for NativeColumn {
    type V = NativeView;

    open spec fn view(&self) -> NativeView {
        match *self {
            NativeColumn::Bool(v) => NativeView::Bool(v@),
            NativeColumn::I8(v) => NativeView::I8(v@),
            NativeColumn::I16(v) => NativeView::I16(v@),
            NativeColumn::I32(v) => NativeView::I32(v@),
            NativeColumn::I64(v) => NativeView::I64(v@),
            NativeColumn::U8(v) => NativeView::U8(v@),
            NativeColumn::U16(v) => NativeView::U16(v@),
            NativeColumn::U32(v) => NativeView::U32(v@),
            NativeColumn::U64(v) => NativeView::U64(v@),
            NativeColumn::F32(v) => NativeView::F32(v@),
            NativeColumn::F64(v) => NativeView::F64(v@),
        }
    }
}

impl NativeView {
    /// The tag of the type.
    pub open spec fn tag(self) -> i32 {
        match self {
            NativeView::Bool(_) => DTYPE_BOOL,
            NativeView::I8(_) => DTYPE_I8,
            NativeView::I16(_) => DTYPE_I16,
            NativeView::I32(_) => DTYPE_I32,
            NativeView::I64(_) => DTYPE_I64,
            NativeView::U8(_) => DTYPE_U8,
            NativeView::U16(_) => DTYPE_U16,
            NativeView::U32(_) => DTYPE_U32,
            NativeView::U64(_) => DTYPE_U64,
            NativeView::F32(_) => DTYPE_F32,
            NativeView::F64(_) => DTYPE_F64,
        }
    }

    /// Number of values.
    pub open spec fn len(self) -> nat {
        match self {
            NativeView::Bool(v) => v.len(),
            NativeView::I8(v) => v.len(),
            NativeView::I16(v) => v.len(),
            NativeView::I32(v) => v.len(),
            NativeView::I64(v) => v.len(),
            NativeView::U8(v) => v.len(),
            NativeView::U16(v) => v.len(),
            NativeView::U32(v) => v.len(),
            NativeView::U64(v) => v.len(),
            NativeView::F32(v) => v.len(),
            NativeView::F64(v) => v.len(),
        }
    }

    /// The column that the codecs see.
    pub open spec fn widened(self) -> column::ColumnView {
        match self {
            NativeView::Bool(v) => column::ColumnView::U32(
                Seq::new(v.len(), |i: int| v[i] as u32),
            ),
            NativeView::I8(v) => column::ColumnView::I32(Seq::new(v.len(), |i: int| v[i] as i32)),
            NativeView::I16(v) => column::ColumnView::I32(Seq::new(v.len(), |i: int| v[i] as i32)),
            NativeView::I32(v) => column::ColumnView::I32(v),
            NativeView::I64(v) => column::ColumnView::I64(v),
            NativeView::U8(v) => column::ColumnView::U32(Seq::new(v.len(), |i: int| v[i] as u32)),
            NativeView::U16(v) => column::ColumnView::U32(Seq::new(v.len(), |i: int| v[i] as u32)),
            NativeView::U32(v) => column::ColumnView::U32(v),
            NativeView::U64(v) => column::ColumnView::U64(v),
            NativeView::F32(v) => column::ColumnView::F32(v),
            NativeView::F64(v) => column::ColumnView::F64(v),
        }
    }
}

/// The low eight bits, as a number.
pub open spec fn low8(x: int) -> u8 {
    (x % 0x100) as u8
}

/// The low sixteen bits, as a number.
pub open spec fn low16(x: int) -> u16 {
    (x % 0x1_0000) as u16
}

/// The low eight bits, as a signed number.
pub open spec fn low8_signed(x: int) -> i8 {
    (if x % 0x100 < 0x80 {
        x % 0x100
    } else {
        x % 0x100 - 0x100
    }) as i8
}

/// The low sixteen bits, as a signed number.
pub open spec fn low16_signed(x: int) -> i16 {
    (if x % 0x1_0000 < 0x8000 {
        x % 0x1_0000
    } else {
        x % 0x1_0000 - 0x1_0000
    }) as i16
}

/// The native column of type `dtype` in `col`: the low bits of each value, when
/// the column is of the wide type that `dtype` widens to.
pub open spec fn narrowed(dtype: i32, col: column::ColumnView) -> Option<NativeView> {
    match col {
        column::ColumnView::F64(v) => if dtype == DTYPE_F64 {
            Some(NativeView::F64(v))
        } else {
            None
        },
        column::ColumnView::F32(v) => if dtype == DTYPE_F32 {
            Some(NativeView::F32(v))
        } else {
            None
        },
        column::ColumnView::I64(v) => if dtype == DTYPE_I64 {
            Some(NativeView::I64(v))
        } else {
            None
        },
        column::ColumnView::U64(v) => if dtype == DTYPE_U64 {
            Some(NativeView::U64(v))
        } else {
            None
        },
        column::ColumnView::I32(v) => if dtype == DTYPE_I32 {
            Some(NativeView::I32(v))
        } else if dtype == DTYPE_I16 {
            Some(NativeView::I16(Seq::new(v.len(), |i: int| low16_signed(v[i] as int))))
        } else if dtype == DTYPE_I8 {
            Some(NativeView::I8(Seq::new(v.len(), |i: int| low8_signed(v[i] as int))))
        } else {
            None
        },
        column::ColumnView::U32(v) => if dtype == DTYPE_U32 {
            Some(NativeView::U32(v))
        } else if dtype == DTYPE_U16 {
            Some(NativeView::U16(Seq::new(v.len(), |i: int| low16(v[i] as int))))
        } else if dtype == DTYPE_U8 {
            Some(NativeView::U8(Seq::new(v.len(), |i: int| low8(v[i] as int))))
        } else if dtype == DTYPE_BOOL {
            Some(NativeView::Bool(Seq::new(v.len(), |i: int| low8(v[i] as int))))
        } else {
            None
        },
        _ => None,
    }
}

/// Narrowing undoes widening, for every native column.
pub proof fn lemma_narrow_undoes_widen(c: NativeView)
    ensures
        narrowed(c.tag(), c.widened()) == Some(c),
        c.widened().len() == c.len(),
{
    let back = narrowed(c.tag(), c.widened())->Some_0;
    match c {
        NativeView::Bool(v) => {
            assert(back->Bool_0 =~= v);
        },
        NativeView::I8(v) => {
            assert(back->I8_0 =~= v);
        },
        NativeView::I16(v) => {
            assert(back->I16_0 =~= v);
        },
        NativeView::U8(v) => {
            assert(back->U8_0 =~= v);
        },
        NativeView::U16(v) => {
            assert(back->U16_0 =~= v);
        },
        _ => {},
    }
}

fn widen_bytes(v: &[u8]) -> (out: Vec<u32>)
    ensures
        out@ == Seq::new(v@.len(), |i: int| v@[i] as u32),
{
    let mut out: Vec<u32> = Vec::new();
    let mut i: usize = 0;
    while i < v.len()
        invariant
            i <= v.len(),
            out.len() == i,
            forall|k: int| 0 <= k < i ==> #[trigger] out@[k] == v@[k] as u32,
        decreases v.len() - i,
    {
        out.push(v[i] as u32);
        i = i + 1;
    }
    assert(out@ =~= Seq::new(v@.len(), |i: int| v@[i] as u32));
    out
}

fn widen_u16(v: &[u16]) -> (out: Vec<u32>)
    ensures
        out@ == Seq::new(v@.len(), |i: int| v@[i] as u32),
{
    let mut out: Vec<u32> = Vec::new();
    let mut i: usize = 0;
    while i < v.len()
        invariant
            i <= v.len(),
            out.len() == i,
            forall|k: int| 0 <= k < i ==> #[trigger] out@[k] == v@[k] as u32,
        decreases v.len() - i,
    {
        out.push(v[i] as u32);
        i = i + 1;
    }
    assert(out@ =~= Seq::new(v@.len(), |i: int| v@[i] as u32));
    out
}

fn widen_i8(v: &[i8]) -> (out: Vec<i32>)
    ensures
        out@ == Seq::new(v@.len(), |i: int| v@[i] as i32),
{
    let mut out: Vec<i32> = Vec::new();
    let mut i: usize = 0;
    while i < v.len()
        invariant
            i <= v.len(),
            out.len() == i,
            forall|k: int| 0 <= k < i ==> #[trigger] out@[k] == v@[k] as i32,
        decreases v.len() - i,
    {
        out.push(v[i] as i32);
        i = i + 1;
    }
    assert(out@ =~= Seq::new(v@.len(), |i: int| v@[i] as i32));
    out
}

fn widen_i16(v: &[i16]) -> (out: Vec<i32>)
    ensures
        out@ == Seq::new(v@.len(), |i: int| v@[i] as i32),
{
    let mut out: Vec<i32> = Vec::new();
    let mut i: usize = 0;
    while i < v.len()
        invariant
            i <= v.len(),
            out.len() == i,
            forall|k: int| 0 <= k < i ==> #[trigger] out@[k] == v@[k] as i32,
        decreases v.len() - i,
    {
        out.push(v[i] as i32);
        i = i + 1;
    }
    assert(out@ =~= Seq::new(v@.len(), |i: int| v@[i] as i32));
    out
}

/// Widen a native column for the codecs.
pub fn widen(c: NativeColumn) -> (col: Column)
    ensures
        col@ == c@.widened(),
{
    match c {
        NativeColumn::Bool(v) => Column::U32(widen_bytes(&v)),
        NativeColumn::I8(v) => Column::I32(widen_i8(&v)),
        NativeColumn::I16(v) => Column::I32(widen_i16(&v)),
        NativeColumn::I32(v) => Column::I32(v),
        NativeColumn::I64(v) => Column::I64(v),
        NativeColumn::U8(v) => Column::U32(widen_bytes(&v)),
        NativeColumn::U16(v) => Column::U32(widen_u16(&v)),
        NativeColumn::U32(v) => Column::U32(v),
        NativeColumn::U64(v) => Column::U64(v),
        NativeColumn::F32(v) => Column::F32(v),
        NativeColumn::F64(v) => Column::F64(v),
    }
}

fn narrow_bytes(v: &[u32]) -> (out: Vec<u8>)
    ensures
        out@ == Seq::new(v@.len(), |i: int| low8(v@[i] as int)),
{
    let mut out: Vec<u8> = Vec::new();
    let mut i: usize = 0;
    while i < v.len()
        invariant
            i <= v.len(),
            out.len() == i,
            forall|k: int| 0 <= k < i ==> #[trigger] out@[k] == low8(v@[k] as int),
        decreases v.len() - i,
    {
        out.push((v[i] % 0x100) as u8);
        i = i + 1;
    }
    assert(out@ =~= Seq::new(v@.len(), |i: int| low8(v@[i] as int)));
    out
}

fn narrow_u16(v: &[u32]) -> (out: Vec<u16>)
    ensures
        out@ == Seq::new(v@.len(), |i: int| low16(v@[i] as int)),
{
    let mut out: Vec<u16> = Vec::new();
    let mut i: usize = 0;
    while i < v.len()
        invariant
            i <= v.len(),
            out.len() == i,
            forall|k: int| 0 <= k < i ==> #[trigger] out@[k] == low16(v@[k] as int),
        decreases v.len() - i,
    {
        out.push((v[i] % 0x1_0000) as u16);
        i = i + 1;
    }
    assert(out@ =~= Seq::new(v@.len(), |i: int| low16(v@[i] as int)));
    out
}

/// The low bits of `x` modulo `m`, a power of two, read as a signed number.
fn low_signed(x: i32, m: i32) -> (r: i32)
    requires
        m == 0x100 || m == 0x1_0000,
    ensures
        r == (if (x as int % m as int) < m / 2 {
            x as int % m as int
        } else {
            x as int % m as int - m
        }),
{
    let y: i64 = x as i64 + 0x1_0000_0000;
    let low: i64 = y % (m as i64);
    proof {
        if m == 0x100 {
            assert((x + 0x1_0000_0000) % 0x100 == x as int % 0x100);
        } else {
            assert((x + 0x1_0000_0000) % 0x1_0000 == x as int % 0x1_0000);
        }
    }
    if low < (m as i64) / 2 {
        low as i32
    } else {
        (low - m as i64) as i32
    }
}

fn narrow_i8(v: &[i32]) -> (out: Vec<i8>)
    ensures
        out@ == Seq::new(v@.len(), |i: int| low8_signed(v@[i] as int)),
{
    let mut out: Vec<i8> = Vec::new();
    let mut i: usize = 0;
    while i < v.len()
        invariant
            i <= v.len(),
            out.len() == i,
            forall|k: int| 0 <= k < i ==> #[trigger] out@[k] == low8_signed(v@[k] as int),
        decreases v.len() - i,
    {
        out.push(low_signed(v[i], 0x100) as i8);
        i = i + 1;
    }
    assert(out@ =~= Seq::new(v@.len(), |i: int| low8_signed(v@[i] as int)));
    out
}

fn narrow_i16(v: &[i32]) -> (out: Vec<i16>)
    ensures
        out@ == Seq::new(v@.len(), |i: int| low16_signed(v@[i] as int)),
{
    let mut out: Vec<i16> = Vec::new();
    let mut i: usize = 0;
    while i < v.len()
        invariant
            i <= v.len(),
            out.len() == i,
            forall|k: int| 0 <= k < i ==> #[trigger] out@[k] == low16_signed(v@[k] as int),
        decreases v.len() - i,
    {
        out.push(low_signed(v[i], 0x1_0000) as i16);
        i = i + 1;
    }
    assert(out@ =~= Seq::new(v@.len(), |i: int| low16_signed(v@[i] as int)));
    out
}

/// Narrow a decoded column of `n` values to the native type `dtype`; `None`
/// when the type or the length does not match.
pub fn narrow(dtype: i32, n: usize, col: Column) -> (r: Option<NativeColumn>)
    ensures
        match r {
            None => col@.len() != n || narrowed(dtype, col@) is None,
            Some(c) => col@.len() == n && narrowed(dtype, col@) == Some(c@),
        },
{
    if col.len() != n {
        return None;
    }
    match col {
        Column::F64(v) => if dtype == DTYPE_F64 {
            Some(NativeColumn::F64(v))
        } else {
            None
        },
        Column::F32(v) => if dtype == DTYPE_F32 {
            Some(NativeColumn::F32(v))
        } else {
            None
        },
        Column::I64(v) => if dtype == DTYPE_I64 {
            Some(NativeColumn::I64(v))
        } else {
            None
        },
        Column::U64(v) => if dtype == DTYPE_U64 {
            Some(NativeColumn::U64(v))
        } else {
            None
        },
        Column::I32(v) => if dtype == DTYPE_I32 {
            Some(NativeColumn::I32(v))
        } else if dtype == DTYPE_I16 {
            Some(NativeColumn::I16(narrow_i16(&v)))
        } else if dtype == DTYPE_I8 {
            Some(NativeColumn::I8(narrow_i8(&v)))
        } else {
            None
        },
        Column::U32(v) => if dtype == DTYPE_U32 {
            Some(NativeColumn::U32(v))
        } else if dtype == DTYPE_U16 {
            Some(NativeColumn::U16(narrow_u16(&v)))
        } else if dtype == DTYPE_U8 {
            Some(NativeColumn::U8(narrow_bytes(&v)))
        } else if dtype == DTYPE_BOOL {
            Some(NativeColumn::Bool(narrow_bytes(&v)))
        } else {
            None
        },
        _ => None,
    }
}

/// The bitmap of `n` values to hand out: the decoded one, or one that marks
/// every value valid. Bits past the last value are clear.
pub fn validity_out(n: usize, decoded: Option<&[u8]>) -> (out: Vec<u8>)
    requires
        decoded matches Some(bm) ==> bm@.len() >= validity::bitmap_len(n as nat),
    ensures
        validity::bitmap_canonical(out@, n as nat),
        validity::bitmap_bits(out@, n as nat) == (match decoded {
            Some(bm) => validity::bitmap_bits(bm@, n as nat),
            None => Seq::new(n as nat, |i: int| true),
        }),
{
    match decoded {
        Some(bm) => validity::canonical(bm, n),
        None => {
            let mut all: Vec<bool> = Vec::new();
            let mut i: usize = 0;
            while i < n
                invariant
                    i <= n,
                    all.len() == i,
                    forall|k: int| 0 <= k < i ==> #[trigger] all@[k],
                decreases n - i,
            {
                all.push(true);
                i = i + 1;
            }
            assert(all@ =~= Seq::new(n as nat, |i: int| true));
            validity::from_bools(&all)
        },
    }
}

} // verus!
