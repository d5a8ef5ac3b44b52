//! How validity bitmaps are stored: by their runs or by their bytes, whichever takes less.

use vstd::prelude::*;
use crate::config::Config;
use crate::decoder;
use crate::dtype::DType;
use crate::encoder;
use crate::encoder::FloatOffer;
use crate::error::Error;
use crate::validity;
use crate::varint;

verus! {

/// The bits that alternating runs spell, the first a run of `cur`.
pub open spec fn spelled(runs: Seq<u64>, cur: bool) -> Seq<bool>
    decreases runs.len(),
{
    if runs.len() == 0 {
        Seq::empty()
    } else {
        Seq::new(runs[0] as nat, |i: int| cur) + spelled(runs.drop_first(), !cur)
    }
}

/// The runs of bits, from nulls on: they spell the bits, and only the first may be empty.
pub open spec fn runs_spell(runs: Seq<u64>, bits: Seq<bool>) -> bool {
    &&& runs.len() > 0
    &&& forall|i: int| 0 < i < runs.len() ==> #[trigger] runs[i] > 0
    &&& spelled(runs, false) == bits
}

/// Bytes of numbers, each as a varint of seven bits a byte.
pub open spec fn varints_len(runs: Seq<u64>) -> nat
    decreases runs.len(),
{
    if runs.len() == 0 {
        0
    } else {
        varints_len(runs.drop_last()) + septets(runs.last() as nat)
    }
}

/// Groups of seven bits in a number, at least one.
pub open spec fn septets(v: nat) -> nat
    decreases v,
{
    if v < 128 {
        1
    } else {
        1 + septets(v / 128)
    }
}

/// A varint takes one byte for each group of seven bits.
pub proof fn lemma_septets(v: nat)
    ensures
        varint::varint_bytes(v).len() == septets(v),
    decreases v,
{
    if v >= 128 {
        lemma_septets(v / 128);
    }
}

proof fn lemma_varints_len(runs: Seq<u64>)
    ensures
        validity::run_varints(runs).len() == varints_len(runs),
    decreases runs.len(),
{
    if runs.len() > 0 {
        lemma_varints_len(runs.drop_last());
        lemma_septets(runs.last() as nat);
    }
}

/// A run lengthens the run that is under way.
proof fn lemma_run_absorbed(k: nat, tail: Seq<bool>, cur: bool, seen: nat)
    ensures
        validity::runs_of(Seq::new(k, |i: int| cur) + tail, cur, seen) == validity::runs_of(
            tail,
            cur,
            seen + k,
        ),
    decreases k,
{
    let bits = Seq::new(k, |i: int| cur) + tail;
    if k == 0 {
        assert(bits =~= tail);
    } else {
        assert(bits[0] == cur);
        assert(bits.drop_first() =~= Seq::new((k - 1) as nat, |i: int| cur) + tail);
        lemma_run_absorbed((k - 1) as nat, tail, cur, seen + 1);
    }
}

/// Bits have one list of runs.
proof fn lemma_runs_unique(runs: Seq<u64>, cur: bool)
    requires
        runs.len() > 0,
        forall|i: int| 0 < i < runs.len() ==> #[trigger] runs[i] > 0,
    ensures
        validity::runs_of(spelled(runs, cur), cur, 0) == runs,
    decreases runs.len(),
{
    let rest = runs.drop_first();
    let tail = spelled(rest, !cur);
    lemma_run_absorbed(runs[0] as nat, tail, cur, 0);
    if rest.len() == 0 {
        assert(tail =~= Seq::empty());
        assert(seq![runs[0]] =~= runs);
    } else {
        assert(runs[1] > 0);
        assert forall|i: int| 0 < i < rest.len() implies #[trigger] rest[i] > 0 by {
            assert(runs[i + 1] > 0);
        }
        lemma_runs_unique(rest, !cur);
        assert(tail[0] == !cur);
        assert(seq![runs[0]] + rest =~= runs);
    }
}

/// The stored bitmap is the smaller of two forms, after a tag of one byte: the varints of
/// its run lengths, from nulls on, or its bytes, eight values each. The run lengths are
/// stored only where they take less.
pub proof fn lemma_smaller_form(bitmap: Seq<u8>, n: nat, runs: Seq<u64>)
    requires
        bitmap.len() >= (n + 7) / 8,
        runs_spell(runs, validity::bitmap_bits(bitmap, n)),
    ensures
        ({
            let out = validity::validity_bytes(bitmap, n);
            let (by_runs, by_bytes) = (varints_len(runs), (n + 7) / 8);
            &&& out.len() == 1 + (if by_runs < by_bytes {
                by_runs
            } else {
                by_bytes
            })
            &&& out[0] == (if by_runs < by_bytes {
                1u8
            } else {
                0u8
            })
        }),
{
    lemma_runs_unique(runs, false);
    lemma_varints_len(runs);
}

/// A bitmap whose nulls form one run takes a few bytes, however many values there are: the
/// tag and the varints of nothing, the values before, the nulls and the values after.
pub proof fn lemma_one_gap(bitmap: Seq<u8>, n: nat, from: nat, to: nat)
    requires
        bitmap.len() >= (n + 7) / 8,
        0 < from < to < n <= u64::MAX,
        forall|i: int|
            0 <= i < n ==> (#[trigger] validity::bitmap_bits(bitmap, n)[i] <==> !(from <= i < to)),
    ensures
        validity::validity_bytes(bitmap, n).len() <= 2 + septets(from) + septets(
            (to - from) as nat,
        ) + septets((n - to) as nat),
{
    let runs = seq![0u64, from as u64, (to - from) as u64, (n - to) as u64];
    let bits = validity::bitmap_bits(bitmap, n);
    reveal_with_fuel(spelled, 5);
    assert(spelled(runs, false) =~= bits);
    lemma_smaller_form(bitmap, n, runs);
    reveal_with_fuel(varints_len, 5);
    let a = runs.drop_last();
    let b = a.drop_last();
    let c = b.drop_last();
    assert(c.drop_last() =~= Seq::empty());
    assert(runs.last() == n - to && a.last() == to - from && b.last() == from && c.last() == 0);
    assert(varints_len(runs) == 1 + septets(from) + septets((to - from) as nat) + septets(
        (n - to) as nat,
    ));
}

/// The bitmap that a stream stores behind its header is in the smaller form.
pub proof fn lemma_stored_in_smaller_form(
    out: Seq<u8>,
    dtype: DType,
    vals: Seq<u64>,
    n: usize,
    bitmap: &[u8],
    cfg: Config,
    offers: Seq<Vec<FloatOffer>>,
    runs: Seq<u64>,
)
    requires
        encoder::won_stream(out, dtype, vals, n, Some(bitmap), cfg, offers),
        bitmap@.len() >= (n + 7) / 8,
        runs_spell(runs, validity::bitmap_bits(bitmap@, n as nat)),
    ensures
        decoder::section_parse(
            out.skip(16),
            Error::CorruptPayload("validity length too large"),
        ) matches Ok((blob, _)) && blob.len() <= 1 + varints_len(runs) && blob.len() <= 1 + (n + 7)
            / 8,
{
    lemma_smaller_form(bitmap@, n as nat, runs);
    let log2 = cfg.spec_predictor_log2();
    let (r, x) = choose|r: Seq<(usize, usize)>, x: Seq<encoder::Candidate>|
        #[trigger] encoder::planned_and_won(r, x, dtype, vals, cfg, offers) && out
            == encoder::stream_image(dtype, log2, n, Some(bitmap), encoder::block_frames(r, x));
    let header = crate::format::Header {
        predictor_log2: log2,
        dtype,
        has_validity: true,
        has_shared_dict: false,
        n_values: n as u64,
    };
    let body = encoder::frames_image(encoder::block_frames(r, x));
    let blob = validity::validity_bytes(bitmap@, n as nat);
    crate::format::lemma_header_roundtrip(header, Seq::empty());
    assert(out.skip(16) =~= varint::varint_bytes(blob.len()) + (blob + body));
    varint::lemma_varint_roundtrip(blob.len() as u64, blob + body);
    assert((blob + body).take(blob.len() as int) =~= blob);
}

} // verus!
