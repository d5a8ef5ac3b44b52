//! How values are cut into blocks, as a reader of the stream finds them.

use vstd::prelude::*;
use crate::column;
use crate::column::ColumnView;
use crate::config::Config;
use crate::decimal;
use crate::decoder;
use crate::decoder::FrameView;
use crate::dtype::DType;
use crate::encoder;
use crate::encoder::FloatOffer;
use crate::features;
use crate::lane::Lane;
use crate::validity;

verus! {

/// Every frame but the last holds `size` values, and the last at most as many.
pub open spec fn cut_by(frames: Seq<FrameView>, size: nat) -> bool {
    &&& forall|i: int| 0 <= i < frames.len() - 1 ==> (#[trigger] frames[i]).n == size
    &&& frames.len() > 0 ==> 1 <= frames.last().n <= size
}

/// Values in a block of a mebibyte.
pub open spec fn largest_block(lane: Lane) -> nat {
    match lane {
        Lane::W32 => 262144,
        Lane::W64 => 131072,
    }
}

/// Values in a block of a quarter of a mebibyte.
pub open spec fn base_block(lane: Lane) -> nat {
    match lane {
        Lane::W32 => 65536,
        Lane::W64 => 32768,
    }
}

/// The block sizes in bytes are those in values.
pub proof fn lemma_sizes(lane: Lane)
    ensures
        crate::format::max_block_values(lane.bytes()) == largest_block(lane),
        features::BASE_BYTES as int / lane.bytes() as int == base_block(lane),
{
    match lane {
        Lane::W32 => {
            assert(1048576int / 4 == 262144 && 262144int / 4 == 65536);
        },
        Lane::W64 => {
            assert(1048576int / 8 == 131072 && 262144int / 8 == 32768);
        },
    }
}

/// A configured block size cuts a stream: each block holds exactly that many values, at
/// least one and at most a mebibyte of them, and the last what is left.
pub proof fn lemma_fixed_blocks(
    out: Seq<u8>,
    dtype: DType,
    vals: Seq<u64>,
    n_values: usize,
    bitmap: Option<&[u8]>,
    cfg: Config,
    offers: Seq<Vec<FloatOffer>>,
    size: usize,
)
    requires
        encoder::won_stream(out, dtype, vals, n_values, bitmap, cfg, offers),
        encoder::values_match(vals, n_values, bitmap),
        cfg.block_size == Some(size),
    ensures
        1 <= size <= largest_block(dtype.lane()) ==> cut_by(encoder::stream_frames(out), size as nat),
        size == 0 ==> cut_by(encoder::stream_frames(out), 1),
        size > largest_block(dtype.lane()) ==> cut_by(
            encoder::stream_frames(out),
            largest_block(dtype.lane()),
        ),
        decoder::frames_total(encoder::stream_frames(out)) == vals.len(),
{
    let won = encoder::lemma_won_frames(out, dtype, vals, n_values, bitmap, cfg, offers);
    lemma_sizes(dtype.lane());
    reveal(encoder::planned_and_won);
    let frames = encoder::stream_frames(out);
    assert forall|i: int| 0 <= i < frames.len() implies #[trigger] frames[i].n == won.0[i].1
        - won.0[i].0 && won.0[i].0 < won.0[i].1 && won.0[i].1 == features::block_end(
        dtype.lane(),
        vals,
        won.0[i].0 as int,
        cfg.spec_fixed_block_size(dtype.lane().bytes()),
        cfg.level,
    ) && (i < frames.len() - 1 ==> won.0[i].1 < vals.len()) by {
        assert(won.0[i].0 < won.0[i].1);
        if i < frames.len() - 1 {
            assert(won.0[i + 1].0 == won.0[i].1 && won.0[i + 1].0 < won.0[i + 1].1 <= vals.len());
        }
    }
}

/// Without a configured size the middle level and those above it cut a stream into blocks
/// of a mebibyte.
pub proof fn lemma_full_blocks(
    out: Seq<u8>,
    dtype: DType,
    vals: Seq<u64>,
    n_values: usize,
    bitmap: Option<&[u8]>,
    cfg: Config,
    offers: Seq<Vec<FloatOffer>>,
)
    requires
        encoder::won_stream(out, dtype, vals, n_values, bitmap, cfg, offers),
        encoder::values_match(vals, n_values, bitmap),
        cfg.block_size is None,
        cfg.level is Balanced || cfg.level is High || cfg.level is Max,
    ensures
        cut_by(encoder::stream_frames(out), largest_block(dtype.lane())),
{
    let won = encoder::lemma_won_frames(out, dtype, vals, n_values, bitmap, cfg, offers);
    lemma_sizes(dtype.lane());
    reveal(encoder::planned_and_won);
    let frames = encoder::stream_frames(out);
    assert forall|i: int| 0 <= i < frames.len() implies #[trigger] frames[i].n == won.0[i].1
        - won.0[i].0 && won.0[i].0 < won.0[i].1 && won.0[i].1 == features::block_end(
        dtype.lane(),
        vals,
        won.0[i].0 as int,
        cfg.spec_fixed_block_size(dtype.lane().bytes()),
        cfg.level,
    ) && (i < frames.len() - 1 ==> won.0[i].1 < vals.len()) by {
        assert(won.0[i].0 < won.0[i].1);
        if i < frames.len() - 1 {
            assert(won.0[i + 1].0 == won.0[i].1 && won.0[i + 1].0 < won.0[i + 1].1 <= vals.len());
        }
    }
}

/// Without a configured size the lowest levels cut a stream into blocks of a quarter of a
/// mebibyte, each grown to a whole one where the values it would start with look low in
/// entropy.
pub proof fn lemma_grown_blocks(
    out: Seq<u8>,
    dtype: DType,
    vals: Seq<u64>,
    n_values: usize,
    bitmap: Option<&[u8]>,
    cfg: Config,
    offers: Seq<Vec<FloatOffer>>,
    i: int,
)
    requires
        encoder::won_stream(out, dtype, vals, n_values, bitmap, cfg, offers),
        encoder::values_match(vals, n_values, bitmap),
        cfg.block_size is None,
        cfg.level is Fastest || cfg.level is Fast,
        0 <= i < encoder::stream_frames(out).len(),
    ensures
        ({
            let frames = encoder::stream_frames(out);
            let start = decoder::frames_total(frames.take(i)) as int;
            let left = vals.len() - start;
            let base = base_block(dtype.lane()) as int;
            let probed = vals.subrange(
                start,
                start + if base < left {
                    base
                } else {
                    left
                },
            );
            let f = features::features_of(dtype.lane(), probed);
            let want = if f.distinct_low || f.looks_like_repeats {
                largest_block(dtype.lane()) as int
            } else {
                base
            };
            frames[i].n == (if want < left {
                want
            } else {
                left
            })
        }),
{
    let won = encoder::lemma_won_frames(out, dtype, vals, n_values, bitmap, cfg, offers);
    lemma_sizes(dtype.lane());
    reveal(encoder::planned_and_won);
    lemma_starts(won.0, won.1, dtype, vals, cfg, offers, i as nat);
    assert(won.0[i].0 < won.0[i].1 <= vals.len());
    assert(won.0[i].1 == features::block_end(
        dtype.lane(),
        vals,
        won.0[i].0 as int,
        cfg.spec_fixed_block_size(dtype.lane().bytes()),
        cfg.level,
    ));
}

/// A block starts where the blocks before it end.
pub proof fn lemma_starts(
    ranges: Seq<(usize, usize)>,
    blocks: Seq<encoder::Candidate>,
    dtype: DType,
    vals: Seq<u64>,
    cfg: Config,
    offers: Seq<Vec<FloatOffer>>,
    k: nat,
)
    requires
        encoder::planned_and_won(ranges, blocks, dtype, vals, cfg, offers),
        k < ranges.len(),
    ensures
        decoder::frames_total(encoder::block_frames(ranges, blocks).take(k as int))
            == ranges[k as int].0,
    decreases k,
{
    let frames = encoder::block_frames(ranges, blocks);
    if k == 0 {
        reveal(encoder::planned_and_won);
        assert(frames.take(0) =~= Seq::empty());
    } else {
        lemma_starts(ranges, blocks, dtype, vals, cfg, offers, (k - 1) as nat);
        reveal(encoder::planned_and_won);
        assert(ranges[k as int].0 == ranges[k - 1].1);
        assert(ranges[k - 1].0 < ranges[k - 1].1);
        lemma_total_push(frames.take(k - 1), frames[k - 1]);
        assert(frames.take(k as int) =~= frames.take(k - 1).push(frames[k - 1]));
    }
}

proof fn lemma_total_push(frames: Seq<FrameView>, f: FrameView)
    ensures
        decoder::frames_total(frames.push(f)) == decoder::frames_total(frames) + f.n,
    decreases frames.len(),
{
    if frames.len() == 0 {
        assert(frames.push(f).drop_first() =~= Seq::empty());
        assert(decoder::frames_total(Seq::<FrameView>::empty()) == 0);
    } else {
        lemma_total_push(frames.drop_first(), f);
        assert(frames.push(f).drop_first() =~= frames.drop_first().push(f));
    }
}

/// A configured block size cuts a written column of numbers.
pub proof fn lemma_column_cut(
    out: Seq<u8>,
    col: ColumnView,
    bitmap: Option<&[u8]>,
    cfg: Config,
    offers: Seq<Vec<FloatOffer>>,
    size: usize,
)
    requires
        column::column_written(out, col, bitmap, cfg, offers),
        encoder::bitmap_covers(bitmap, col.len()),
        !col.is_decimal(),
        col.len() <= usize::MAX,
        cfg.block_size == Some(size),
        1 <= size <= largest_block(col.dtype().lane()),
    ensures
        cut_by(encoder::stream_frames(out), size as nat),
{
    let bits = encoder::bits_of(bitmap, col.len());
    if let Some(b) = bits {
        validity::lemma_scatter_compact(col.words(), b, 0u64);
    }
    lemma_fixed_blocks(
        out,
        col.dtype(),
        decimal::valid_of(col.words(), bits),
        col.len() as usize,
        bitmap,
        cfg,
        offers,
        size,
    );
}

/// A configured block size cuts each limb stream of written decimals.
pub proof fn lemma_limbs_cut(
    subs: Seq<Seq<u8>>,
    limbs: Seq<Seq<u64>>,
    cfg: Config,
    i: int,
    size: usize,
)
    requires
        decimal::limb_streams(subs, limbs, cfg),
        0 <= i < subs.len(),
        limbs[i].len() <= usize::MAX,
        cfg.block_size == Some(size),
        1 <= size <= 131072,
    ensures
        cut_by(encoder::stream_frames(subs[i]), size as nat),
{
    lemma_fixed_blocks(
        subs[i],
        DType::U64,
        limbs[i],
        limbs[i].len() as usize,
        None,
        cfg,
        Seq::empty(),
        size,
    );
}

} // verus!
