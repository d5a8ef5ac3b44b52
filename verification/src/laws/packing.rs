//! How small bit-packing, runs and dictionaries make a block.

use vstd::prelude::*;
use vstd::arithmetic::power2::*;
use crate::codecs::{delta_bitpack, dict, for_bitpack, rle};
use crate::lane;
use crate::lane::Lane;
use crate::laws::bitmaps;
use crate::laws::bitmaps::septets;
use crate::laws::differences;
use crate::laws::probes::repeated;
use crate::varint;

verus! {

/// A word as a number, with or without sign.
pub open spec fn number(lane: Lane, signed: bool, v: u64) -> int {
    if signed && v >= lane.modulus() / 2 {
        v - lane.modulus()
    } else {
        v as int
    }
}

/// Within each run of 1024 values, from the first on, the numbers lie less than `2^w`
/// apart.
pub open spec fn spans_below(lane: Lane, signed: bool, vals: Seq<u64>, w: nat) -> bool {
    forall|i: int, j: int|
        0 <= i < vals.len() && 0 <= j < vals.len() && i / 1024 == j / 1024 ==> number(
            lane,
            signed,
            #[trigger] vals[i],
        ) - number(lane, signed, #[trigger] vals[j]) < pow2(w)
}

/// Runs of 1024 values, the last of which may be shorter.
pub open spec fn runs_of_1024(n: nat) -> nat {
    (n + 1023) / 1024
}

/// Bytes of `n` values bit-packed at `w` bits: their number, and for each run of 1024 a
/// width, a word and 128 bytes a bit.
pub open spec fn packed_len(lane: Lane, n: nat, w: nat) -> nat {
    septets(n) + runs_of_1024(n) * (1 + lane.bytes() as nat + 128 * w)
}

proof fn lemma_sub_len(lane: Lane, signed: bool, sub: Seq<u64>, w: nat)
    requires
        lane.fits_all(sub),
        0 < sub.len() <= 1024,
        spans_below(lane, signed, sub, w),
    ensures
        for_bitpack::sub_image(lane, signed, sub).len() <= 1 + lane.bytes() + 128 * w,
{
    reveal(for_bitpack::sub_image);
    let k = for_bitpack::keys(lane, signed, sub);
    k.min_ensures();
    k.max_ensures();
    let a = choose|i: int| 0 <= i < k.len() && k[i] == k.max();
    let b = choose|i: int| 0 <= i < k.len() && k[i] == k.min();
    assert(lane.fits(sub[a]) && lane.fits(sub[b]));
    assert(number(lane, signed, sub[a]) - number(lane, signed, sub[b]) < pow2(w));
    crate::sort::lemma_min_le_max(k);
    for_bitpack::lemma_bit_len((k.max() - k.min()) as nat, w);
    for_bitpack::lemma_width_in_lane(lane, signed, sub);
    let width = for_bitpack::sub_width(lane, signed, sub);
    let min = for_bitpack::least(lane, signed, sub);
    let kernel = for_bitpack::kernel(width as u32);
    let words = crate::bitpack::packed_words(
        for_bitpack::offsets(lane, min, sub),
        kernel.bits() as nat,
        width,
    );
    lane::lemma_words_bytes_len(kernel, words);
    crate::bytes::lemma_le_bytes_len(min as nat, lane.bytes() as nat);
    assert(words.len() * kernel.bytes() == 128 * width) by (nonlinear_arith)
        requires
            kernel.bytes() == 4 && words.len() == 32 * width || kernel.bytes() == 8 && words.len()
                == 16 * width,
    ;
}

proof fn lemma_subs_len(lane: Lane, signed: bool, vals: Seq<u64>, w: nat)
    requires
        lane.fits_all(vals),
        spans_below(lane, signed, vals, w),
    ensures
        for_bitpack::subs_image(lane, signed, vals).len() <= runs_of_1024(vals.len()) * (1
            + lane.bytes() as nat + 128 * w),
    decreases vals.len(),
{
    let each = 1 + lane.bytes() as nat + 128 * w;
    if vals.len() > 0 {
        let count = for_bitpack::sub_count(vals.len()) as int;
        let (sub, rest) = (vals.take(count), vals.skip(count));
        assert forall|i: int| 0 <= i < sub.len() implies lane.fits(#[trigger] sub[i]) by {
            assert(lane.fits(vals[i]));
        }
        assert forall|i: int| 0 <= i < rest.len() implies lane.fits(#[trigger] rest[i]) by {
            assert(lane.fits(vals[i + count]));
        }
        assert(spans_below(lane, signed, sub, w)) by {
            assert forall|i: int, j: int|
                0 <= i < sub.len() && 0 <= j < sub.len() && i / 1024 == j / 1024 implies number(
                lane,
                signed,
                #[trigger] sub[i],
            ) - number(lane, signed, #[trigger] sub[j]) < pow2(w) by {
                assert(sub[i] == vals[i] && sub[j] == vals[j]);
            }
        }
        assert(spans_below(lane, signed, rest, w)) by {
            if rest.len() > 0 {
                assert forall|i: int, j: int|
                    0 <= i < rest.len() && 0 <= j < rest.len() && i / 1024 == j / 1024 implies number(
                    lane,
                    signed,
                    #[trigger] rest[i],
                ) - number(lane, signed, #[trigger] rest[j]) < pow2(w) by {
                    assert(rest[i] == vals[i + 1024] && rest[j] == vals[j + 1024]);
                }
            }
        }
        lemma_sub_len(lane, signed, sub, w);
        lemma_subs_len(lane, signed, rest, w);
        let (r, all) = (runs_of_1024(rest.len()), runs_of_1024(vals.len()));
        assert(all == r + 1);
        assert((r + 1) * each == r * each + each) by (nonlinear_arith);
    } else {
        assert(for_bitpack::subs_image(lane, signed, vals) =~= Seq::empty());
        assert(0 * each == 0);
    }
}

/// Frame of reference packs each run of 1024 values at the width of its own range, with
/// sign where the type has one.
pub proof fn lemma_frame_of_reference(lane: Lane, signed: bool, vals: Seq<u64>, w: nat)
    requires
        lane.fits_all(vals),
        spans_below(lane, signed, vals, w),
    ensures
        for_bitpack::for_image(lane, signed, vals).len() <= packed_len(lane, vals.len(), w),
{
    reveal(for_bitpack::for_image);
    lemma_subs_len(lane, signed, vals, w);
    bitmaps::lemma_septets(vals.len());
}

/// Deltas pack: where each value differs from the one before by less than `2^(w-1)` either
/// way, wrapping included, a value takes `w` bits.
pub proof fn lemma_deltas_pack(lane: Lane, vals: Seq<u64>, deltas: Seq<int>, w: nat)
    requires
        lane.fits_all(vals),
        1 <= w <= lane.bits(),
        deltas.len() == vals.len(),
        forall|i: int|
            0 < i < vals.len() ==> {
                &&& -pow2((w - 1) as nat) <= #[trigger] deltas[i] < pow2((w - 1) as nat)
                &&& vals[i] == (vals[i - 1] + deltas[i]) % (lane.modulus() as int)
            },
    ensures
        delta_bitpack::delta_image(lane, vals).len() <= lane.bytes() + packed_len(
            lane,
            vals.len(),
            w,
        ),
{
    let base = delta_bitpack::base_of(vals);
    let d = delta_bitpack::deltas_of(lane, vals, base);
    lemma_pow2_adds((w - 1) as nat, 1);
    lemma2_to64();
    lemma2_to64_rest();
    lemma_pow2_pos((w - 1) as nat);
    if w < lane.bits() {
        lemma_pow2_strictly_increases(w, lane.bits() as nat);
    }
    assert(pow2(lane.bits() as nat) == lane.modulus());
    assert forall|i: int| 0 <= i < d.len() implies #[trigger] d[i] < pow2(w) by {
        if i > 0 {
            assert(-pow2((w - 1) as nat) <= deltas[i] < pow2((w - 1) as nat));
            differences::lemma_packed_deltas(lane, vals, i, deltas[i]);
        } else {
            differences::lemma_packed_deltas(lane, vals, 0, 0);
        }
    }
    if vals.len() > 0 {
        assert(lane.fits(vals[0]));
        delta_bitpack::lemma_delta_roundtrip(lane, vals, base);
    }
    assert(spans_below(lane, false, d, w));
    lemma_frame_of_reference(lane, false, d, w);
    crate::bytes::lemma_le_bytes_len(base as nat, lane.bytes() as nat);
}

proof fn lemma_run_count(vals: Seq<u64>)
    requires
        vals.len() <= u64::MAX,
    ensures
        repeated(vals).finite(),
        rle::run_count(vals) + repeated(vals).len() == vals.len(),
        rle::runs_of(vals).0.len() == rle::run_count(vals),
        rle::runs_of(vals).1.len() == rle::run_count(vals),
        forall|i: int|
            0 <= i < rle::runs_of(vals).1.len() ==> 1 <= #[trigger] rle::runs_of(vals).1[i]
                <= vals.len(),
    decreases vals.len(),
{
    if vals.len() == 0 {
        assert(repeated(vals) =~= Set::empty());
    } else {
        let front = vals.drop_last();
        let n = vals.len() - 1;
        lemma_run_count(front);
        if n > 0 && vals[n] == vals[n - 1] {
            assert(repeated(vals) =~= repeated(front).insert(n));
            assert(!repeated(front).contains(n));
            assert(rle::run_count(front) > 0) by {
                if n == 1 {
                    assert(front.len() == 1);
                }
                lemma_some_run(front);
            }
        } else {
            assert(repeated(vals) =~= repeated(front));
        }
    }
}

proof fn lemma_some_run(vals: Seq<u64>)
    requires
        vals.len() > 0,
    ensures
        rle::run_count(vals) > 0,
    decreases vals.len(),
{
    if vals.len() > 1 {
        lemma_some_run(vals.drop_last());
    }
}

/// Runs are tried where at most half of the values, and two more, start one.
pub proof fn lemma_runs_tried(vals: Seq<u64>)
    requires
        0 < vals.len() <= u64::MAX,
    ensures
        rle::rle_applies(vals) <==> vals.len() - repeated(vals).len() <= vals.len() / 2 + 2,
{
    lemma_run_count(vals);
}

/// A block of `k` runs takes a word for each, and their lengths bit-packed.
pub proof fn lemma_runs_pack(lane: Lane, vals: Seq<u64>, w: nat)
    requires
        lane.fits_all(vals),
        vals.len() <= u64::MAX,
        vals.len() < pow2(w),
    ensures
        ({
            let k = (vals.len() - repeated(vals).len()) as nat;
            rle::rle_image(lane, vals).len() <= septets(k) + k * lane.bytes() + packed_len(
                Lane::W64,
                k,
                w,
            )
        }),
{
    lemma_run_count(vals);
    let (values, lens) = rle::runs_of(vals);
    assert(spans_below(Lane::W64, false, lens, w)) by {
        assert forall|i: int, j: int|
            0 <= i < lens.len() && 0 <= j < lens.len() && i / 1024 == j / 1024 implies number(
            Lane::W64,
            false,
            #[trigger] lens[i],
        ) - number(Lane::W64, false, #[trigger] lens[j]) < pow2(w) by {
            assert(1 <= lens[i] <= vals.len());
            assert(1 <= lens[j] <= vals.len());
        }
    }
    lemma_frame_of_reference(Lane::W64, false, lens, w);
    lane::lemma_words_bytes_len(lane, values);
    bitmaps::lemma_septets(values.len());
}

/// A dictionary is tried where at most half of the values, and one more, are distinct.
pub proof fn lemma_dictionary_tried(vals: Seq<u64>)
    requires
        vals.len() > 0,
    ensures
        dict::dict_applies(vals) <==> vals.to_set().len() <= vals.len() / 2 + 1,
        dict::shared_applies(vals) <==> vals.to_set().len() <= vals.len() / 2 + 1
            && vals.to_set().len() <= 1048576,
{
}

/// A block of `2^w` distinct values takes at most a word for each of them, and `w` bits a
/// value.
pub proof fn lemma_dictionary_packs(
    lane: Lane,
    vals: Seq<u64>,
    table: Seq<u64>,
    entropy: bool,
    lambda: u64,
    cascade: bool,
    w: nat,
)
    requires
        lane.fits_all(vals),
        dict::is_dictionary(table, vals),
        table.len() <= pow2(w),
        table.len() <= 0x1_0000_0000,
    ensures
        dict::dict_image(lane, vals, entropy, lambda, cascade).len() <= septets(table.len()) + 1
            + septets(table.len() * lane.bytes() as nat) + table.len() * lane.bytes() + 1
            + packed_len(lane, vals.len(), w),
{
    dict::lemma_dictionary(table, vals);
    let (tag, blob) = dict::values_image(lane, table, entropy, lambda, cascade);
    dict::lemma_values_smallest(lane, table, entropy, lambda, cascade);
    lane::lemma_words_bytes_len(lane, table);
    let codes = dict::codes_of(table, vals);
    dict::lemma_codes_smallest(lane, codes, table.len(), entropy, lambda, cascade);
    assert forall|i: int| 0 <= i < codes.len() implies #[trigger] codes[i] < table.len()
        && lane.fits(codes[i]) by {
        assert(vals.contains(vals[i]));
        assert(table.contains(vals[i]));
        let p = table.index_of(vals[i]);
        assert(0 <= p < table.len());
    }
    assert(spans_below(lane, false, codes, w));
    lemma_frame_of_reference(lane, false, codes, w);
    bitmaps::lemma_septets(table.len());
    bitmaps::lemma_septets(blob.len());
    varint::lemma_varint_mono(blob.len(), table.len() * lane.bytes() as nat);
    bitmaps::lemma_septets(table.len() * lane.bytes() as nat);
}

/// The codes of a dictionary are packed at the width of the largest, or, where entropy
/// coding is on and no more than 65536 values are distinct, coded by bytes, whichever is
/// smaller.
pub proof fn lemma_codes_choice(
    lane: Lane,
    codes: Seq<u64>,
    card: nat,
    lambda: u64,
    cascade: bool,
)
    ensures
        card <= 65536 ==> dict::codes_image(lane, codes, card, true, lambda, cascade).len()
            <= dict::planes_image(codes, card, lambda, cascade).len(),
        dict::codes_image(lane, codes, card, false, lambda, cascade) == seq![0u8]
            + for_bitpack::for_image(lane, false, codes),
{
    reveal(dict::codes_image);
}

} // verus!
