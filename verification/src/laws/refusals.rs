//! What is refused in a payload, and how.

use vstd::prelude::*;
use crate::bytes;
use crate::codecs::{alp, alp_rd, dict, float_mult, for_bitpack, linear, lz, pred_rc, rle};
use crate::column;
use crate::column::ColumnView;
use crate::decoder;
use crate::decoder::FrameView;
use crate::encoder;
use crate::entropy;
use crate::entropy::rans;
use crate::error::Error;
use crate::lane::Lane;
use crate::laws::wire;
use crate::validity;
use crate::varint;

verus! {

/// How long streams may be for a block of `n` values: ten bytes a value and sixteen for
/// residuals, sixteen bytes a value and 1024 for LZ, eight and sixteen for byte planes,
/// sixteen and ten thousand for split floats; and an LZ stream twice what it stands for and
/// sixty-four.
pub proof fn lemma_limits(n: nat)
    requires
        n <= 0x1_0000,
    ensures
        pred_rc::residual_bound(n) == 10 * n + 16,
        decoder::lz_frame_bound(n) == 16 * n + 1024,
        decoder::planes_frame_bound(n) == 8 * n + 16,
        alp_rd::rights_bound(n) == 16 * n + 10000,
        entropy::lz_bound(n) == 2 * n + 64,
{
}

/// A frame is read by itself: one of more values than a block may hold, or than are left,
/// is refused, and otherwise the rest holds what is left. Frames of no values are read too.
pub proof fn lemma_frame_read(f: FrameView, rest: Seq<u8>, left: nat, limit: nat)
    requires
        f.n < 0x1_0000_0000,
        f.payload.len() < 0x1_0000_0000,
        left > 0,
    ensures
        ({
            let r = decoder::frames_parse(encoder::frame_image(f) + rest, left, limit);
            &&& f.n > limit ==> r == Err::<Seq<FrameView>, Error>(
                Error::CorruptPayload("block value count exceeds maximum"),
            )
            &&& left < f.n <= limit ==> r == Err::<Seq<FrameView>, Error>(
                Error::CorruptPayload("block overruns declared length"),
            )
            &&& f.n <= left && f.n <= limit ==> r == (match decoder::frames_parse(
                rest,
                (left - f.n) as nat,
                limit,
            ) {
                Err(e) => Err::<Seq<FrameView>, Error>(e),
                Ok(more) => Ok::<_, Error>(seq![f] + more),
            })
        }),
{
    encoder::lemma_frame_fields(f, rest);
}

/// An unknown mode is refused by its number.
pub proof fn lemma_unknown_mode(s: Seq<u8>, left: nat, limit: nat)
    requires
        left > 0,
        s.len() >= 9,
        forall|m: crate::mode::Mode| #[trigger] wire::mode_number(m) != s[0],
    ensures
        decoder::frames_parse(s, left, limit) == Err::<Seq<FrameView>, Error>(
            Error::UnknownMode(s[0]),
        ),
{
    wire::lemma_numbers(crate::dtype::DType::U64, crate::mode::Mode::Raw, s[0]);
}

/// A bitmap stored as bytes needs as many as its bits fill; one stored as runs is read run
/// by run, of clear bits first, and a run past the last bit is refused.
pub proof fn lemma_bitmap_read(blob: Seq<u8>, n: nat, run: u64, rest: Seq<u8>, cur: bool)
    requires
        n > 0,
        n <= usize::MAX,
    ensures
        validity::validity_decoded(Seq::empty(), n) == Err::<Seq<bool>, Error>(Error::Truncated),
        validity::validity_decoded(seq![0u8] + blob, n) is Ok <==> blob.len() >= (n + 7) / 8,
        validity::validity_decoded(seq![1u8] + blob, n) == validity::runs_parse(blob, n, false),
        forall|tag: u8|
            tag > 1 ==> #[trigger] validity::validity_decoded(seq![tag] + blob, n) is Err,
        ({
            let r = validity::runs_parse(varint::varint_bytes(run as nat) + rest, n, cur);
            &&& run > n ==> r is Err
            &&& run <= n ==> r == (match validity::runs_parse(rest, (n - run) as nat, !cur) {
                Err(e) => Err::<Seq<bool>, Error>(e),
                Ok(more) => Ok::<_, Error>(Seq::new(run as nat, |i: int| cur) + more),
            })
        }),
{
    assert((seq![0u8] + blob).drop_first() =~= blob);
    assert((seq![1u8] + blob).drop_first() =~= blob);
    varint::lemma_varint_roundtrip(run, rest);
    assert(validity::bit_run(cur, run as nat) =~= Seq::new(run as nat, |i: int| cur));
}

/// Packed values whose number is not that of the block, or whose first width exceeds the
/// lane, are refused.
pub proof fn lemma_packed_refused(lane: Lane, len: u64, rest: Seq<u8>, n: nat)
    requires
        n > 0,
    ensures
        ({
            let r = for_bitpack::for_decoded(
                lane,
                varint::varint_bytes(len as nat) + rest,
                n,
            );
            &&& len != n ==> r == Err::<Seq<u64>, Error>(
                Error::CorruptPayload("for_bitpack length mismatch"),
            )
            &&& len == n && rest.len() > 0 && rest[0] > (if lane is W32 {
                32int
            } else {
                64
            }) ==> r == Err::<Seq<u64>, Error>(Error::CorruptPayload("for_bitpack bad width"))
            &&& len == n && rest.len() == 0 ==> r == Err::<Seq<u64>, Error>(Error::Truncated)
        }),
{
    reveal(for_bitpack::for_decoded);
    varint::lemma_varint_roundtrip(len, rest);
}

/// A match that reaches back nowhere, or before the first byte, or past the last, is
/// refused; another copies what it reaches back to.
pub proof fn lemma_match_read(
    n: nat,
    out: Seq<u8>,
    ctrl: u8,
    left: nat,
    off: u64,
    extra: u64,
    rest: Seq<u8>,
)
    requires
        out.len() < n,
        1 <= left <= 8,
        lz::flag(ctrl, left),
    ensures
        ({
            let s = varint::varint_bytes(off as nat) + (varint::varint_bytes(extra as nat) + rest);
            let r = lz::lz_tokens(s, n, out, ctrl, left);
            &&& off == 0 || off > out.len() ==> r == Err::<Seq<u8>, Error>(
                Error::CorruptPayload("lz bad offset"),
            )
            &&& 0 < off <= out.len() && out.len() + extra + 4 > n ==> r == Err::<Seq<u8>, Error>(
                Error::CorruptPayload("lz match overruns output"),
            )
            &&& 0 < off <= out.len() && out.len() + extra + 4 <= n ==> r == lz::lz_tokens(
                rest,
                n,
                out + Seq::new(
                    (extra + 4) as nat,
                    |j: int| out[out.len() - off + j % (off as int)],
                ),
                ctrl,
                (left - 1) as nat,
            )
        }),
{
    varint::lemma_varint_roundtrip(off, varint::varint_bytes(extra as nat) + rest);
    varint::lemma_varint_roundtrip(extra, rest);
    if 0 < off <= out.len() {
        assert(lz::copied(out, off as nat, (extra + 4) as nat) =~= out + Seq::new(
            (extra + 4) as nat,
            |j: int| out[out.len() - off + j % (off as int)],
        ));
    }
}

/// An LZ stream of another length than expected is refused.
pub proof fn lemma_lz_length(len: u64, rest: Seq<u8>, n: nat)
    requires
        len != n,
    ensures
        lz::lz_decoded(varint::varint_bytes(len as nat) + rest, n) == Err::<Seq<u8>, Error>(
            Error::CorruptPayload("lz length mismatch"),
        ),
{
    varint::lemma_varint_roundtrip(len, rest);
}

/// A dictionary of more values than the block has, and more runs than it has values, are
/// refused.
pub proof fn lemma_counts_refused(lane: Lane, count: u64, rest: Seq<u8>, n: nat)
    requires
        count > n,
    ensures
        dict::dict_decoded(lane, varint::varint_bytes(count as nat) + rest, n) == Err::<
            Seq<u64>,
            Error,
        >(Error::CorruptPayload("dict cardinality exceeds value count")),
        rle::rle_decoded(lane, varint::varint_bytes(count as nat) + rest, n) == Err::<
            Seq<u64>,
            Error,
        >(Error::CorruptPayload("rle run count exceeds value count")),
{
    varint::lemma_varint_roundtrip(count, rest);
}

/// A code past the dictionary is refused; otherwise each code stands for the value at its
/// place.
pub proof fn lemma_codes_read(table: Seq<u64>, codes: Seq<u64>, bad: Error)
    ensures
        (exists|i: int| 0 <= i < codes.len() && #[trigger] codes[i] >= table.len())
            ==> dict::looked_up(table, codes, bad) == Err::<Seq<u64>, Error>(bad),
        dict::looked_up(table, codes, bad) matches Ok(v) ==> v.len() == codes.len() && forall|
            i: int,
        |
            0 <= i < codes.len() ==> #[trigger] v[i] == table[codes[i] as int],
        (forall|i: int| 0 <= i < codes.len() ==> #[trigger] codes[i] < table.len())
            ==> dict::looked_up(table, codes, bad) is Ok,
{
}

/// A run that does not fit what is left of the block is refused; runs are copied in order.
pub proof fn lemma_run_read(values: Seq<u64>, lens: Seq<u64>, i: nat, out: Seq<u64>, n: nat)
    requires
        i < values.len(),
    ensures
        ({
            let r = rle::runs_expanded(values, lens, i, out, n);
            &&& out.len() + lens[i as int] > n ==> r == Err::<Seq<u64>, Error>(
                Error::CorruptPayload("rle run overruns value count"),
            )
            &&& out.len() + lens[i as int] <= n ==> r == rle::runs_expanded(
                values,
                lens,
                i + 1,
                out + Seq::new(lens[i as int] as nat, |j: int| values[i as int]),
                n,
            )
        }),
{
}

/// Units, orders, numbers of values and cuts out of range are refused.
pub proof fn lemma_parameters_refused(lane: Lane, payload: Seq<u8>, n: nat, len: u64, rest: Seq<u8>)
    ensures
        payload.len() >= 2 && payload[1] >= 7 ==> float_mult::fm_parsed(lane, payload, n) is Err,
        payload.len() > 0 && (payload[0] == 0 || payload[0] > 4) ==> linear::xor_stream_parsed(
            lane,
            payload,
            n,
        ) is Err && linear::dp_stream_parsed(lane, payload, n) is Err,
        len != n ==> alp::alp_parsed(lane, varint::varint_bytes(len as nat) + rest, n) is Err,
        payload.len() > 0 && (payload[0] == 0 || payload[0] >= (if lane is W32 {
            32int
        } else {
            64
        })) ==> alp_rd::rd_decoded(lane, payload, n) == Err::<Seq<u64>, Error>(
            Error::CorruptPayload("alp_rd left_bw out of range"),
        ),
        payload.len() > 1 && 1 <= payload[0] < 32 && payload[1] > 8 ==> alp_rd::rd_decoded(
            lane,
            payload,
            n,
        ) == Err::<Seq<u64>, Error>(Error::CorruptPayload("alp_rd dict too large")),
{
    varint::lemma_varint_roundtrip(len, rest);
}

/// A rANS table of no symbols or more than 256 is refused, and so is a frequency of nothing
/// or more than 4096.
pub proof fn lemma_tables_refused(
    n: u64,
    k: u64,
    rest: Seq<u8>,
    most: nat,
    left: nat,
    symbol: u8,
    f: u64,
    freq: Seq<u32>,
    sum: nat,
)
    requires
        left > 0,
        n <= most,
    ensures
        k == 0 || k > 256 ==> rans::rans_decoded(
            varint::varint_bytes(n as nat) + (varint::varint_bytes(k as nat) + rest),
            most,
        ) == Err::<Seq<u8>, Error>(Error::CorruptPayload("rans symbol count")),
        f == 0 || 4096 < f < 0x1_0000_0000 ==> rans::rans_table(
            seq![symbol] + (varint::varint_bytes(f as nat) + rest),
            left,
            freq,
            sum,
        ) == Err::<(Seq<u32>, nat, Seq<u8>), Error>(Error::CorruptPayload("rans frequency")),
        0 < f <= 4096 ==> rans::rans_table(
            seq![symbol] + (varint::varint_bytes(f as nat) + rest),
            left,
            freq,
            sum,
        ) == rans::rans_table(
            rest,
            (left - 1) as nat,
            freq.update(symbol as int, f as u32),
            sum + f as nat,
        ),
{
    varint::lemma_varint_roundtrip(n, varint::varint_bytes(k as nat) + rest);
    varint::lemma_varint_roundtrip(k, rest);
    varint::lemma_varint_roundtrip(f, rest);
    let s = seq![symbol] + (varint::varint_bytes(f as nat) + rest);
    assert(s.drop_first() =~= varint::varint_bytes(f as nat) + rest);
}

/// A stream shorter than its type is cut short, one of an unknown type is refused, and so
/// is a decimal type outside a container.
pub proof fn lemma_column_refused(src: Seq<u8>, floats: Seq<Seq<u64>>)
    ensures
        ({
            let r = column::column_decoded(src, floats);
            &&& src.len() <= 7 ==> r == Err::<(ColumnView, Option<Seq<bool>>), Error>(
                Error::Truncated,
            )
            &&& src.len() > 7 && src[7] > 7 ==> r == Err::<
                (ColumnView, Option<Seq<bool>>),
                Error,
            >(Error::UnsupportedDType(src[7]))
            &&& src.len() > 7 && 6 <= src[7] <= 7 && (src[5] / 2) % 2 == 0 ==> r == Err::<
                (ColumnView, Option<Seq<bool>>),
                Error,
            >(Error::CorruptPayload("decimal lane without container"))
        }),
{
    if let Ok(t) = crate::dtype::dtype_of_wire(src[7]) {
        wire::lemma_numbers(t, crate::mode::Mode::Raw, src[7]);
    }
}

} // verus!
