//! Validity (null) bitmaps: one bit per value, least significant bit first
//! within each byte, set for a valid value; `ceil(n/8)` bytes with the unused
//! trailing bits clear.
//!
//! Nulls mostly cluster, so a bitmap is stored as the smaller of its run lengths
//! (alternating, starting with nulls) and its bytes. The values are stored
//! compacted, only the valid ones; [`compact`] and [`scatter`] convert.

use vstd::prelude::*;
use vstd::arithmetic::power2::*;
use crate::bitio::two_to;
use crate::bytes::tail;
use crate::error::Error;
use crate::lane::Lane;
use crate::varint;

verus! {

/// Tag of a bitmap stored as bytes.
pub const TAG_RAW: u8 = 0;

/// Tag of a bitmap stored as run lengths.
pub const TAG_RLE: u8 = 1;

/// Bit `i` of a bitmap.
pub open spec fn bit_set(bitmap: Seq<u8>, i: int) -> bool {
    (bitmap[i / 8] as nat / pow2((i % 8) as nat)) % 2 == 1
}

/// Bytes of a bitmap of `n` bits.
pub open spec fn bitmap_len(n: nat) -> nat {
    (n + 7) / 8
}

/// The first `n` bits of a bitmap.
pub open spec fn bitmap_bits(bitmap: Seq<u8>, n: nat) -> Seq<bool> {
    Seq::new(n, |i: int| bit_set(bitmap, i))
}

/// A bitmap of exactly `n` bits, the unused ones clear.
pub open spec fn bitmap_canonical(bitmap: Seq<u8>, n: nat) -> bool {
    &&& bitmap.len() == bitmap_len(n)
    &&& forall|i: int| n <= i < 8 * bitmap.len() ==> !(#[trigger] bit_set(bitmap, i))
}

/// The number of set bits.
pub open spec fn set_count(bits: Seq<bool>) -> nat
    decreases bits.len(),
{
    if bits.len() == 0 {
        0
    } else {
        set_count(bits.drop_last()) + (if bits.last() {
            1nat
        } else {
            0nat
        })
    }
}

/// `run` copies of `bit`.
pub open spec fn bit_run(bit: bool, run: nat) -> Seq<bool> {
    Seq::new(run, |i: int| bit)
}

/// `left` bits read from alternating run lengths, the first a run of `cur`.
pub open spec fn runs_parse(s: Seq<u8>, left: nat, cur: bool) -> Result<Seq<bool>, Error>
    decreases s.len(),
{
    if left == 0 {
        Ok(Seq::empty())
    } else {
        match varint::varint_parse(s) {
            Err(e) => Err(e),
            Ok((run, rest)) => if run > usize::MAX {
                Err(Error::CorruptPayload("validity run too large"))
            } else if run > left {
                Err(Error::CorruptPayload("validity run overruns"))
            } else {
                proof {
                    varint::lemma_varint_suffix(s, 0);
                }
                match runs_parse(rest, (left - run) as nat, !cur) {
                    Err(e) => Err(e),
                    Ok(more) => Ok(bit_run(cur, run as nat) + more),
                }
            },
        }
    }
}

/// The `n` bits stored in `blob`.
pub open spec fn validity_decoded(blob: Seq<u8>, n: nat) -> Result<Seq<bool>, Error> {
    if blob.len() == 0 {
        Err(Error::Truncated)
    } else if blob[0] == TAG_RAW {
        if blob.len() - 1 < bitmap_len(n) {
            Err(Error::Truncated)
        } else {
            Ok(bitmap_bits(blob.drop_first(), n))
        }
    } else if blob[0] == TAG_RLE {
        runs_parse(blob.drop_first(), n, false)
    } else {
        Err(Error::CorruptPayload("validity tag"))
    }
}

/// The bits are all set exactly if as many are set as there are.
pub proof fn lemma_all_set(bits: Seq<bool>)
    ensures
        set_count(bits) <= bits.len(),
        set_count(bits) == bits.len() <==> forall|i: int| 0 <= i < bits.len() ==> #[trigger] bits[i],
    decreases bits.len(),
{
    if bits.len() > 0 {
        let front = bits.drop_last();
        lemma_all_set(front);
        if set_count(bits) == bits.len() {
            assert forall|i: int| 0 <= i < bits.len() implies #[trigger] bits[i] by {
                if i < front.len() {
                    assert(front[i]);
                }
            }
        }
        if forall|i: int| 0 <= i < bits.len() ==> #[trigger] bits[i] {
            assert forall|i: int| 0 <= i < front.len() implies #[trigger] front[i] by {
                assert(bits[i]);
            }
            assert(bits[bits.len() - 1]);
        }
    }
}

/// Two columns hold the same wherever the bits are set.
pub open spec fn agree<T>(a: Seq<T>, b: Seq<T>, bits: Seq<bool>) -> bool {
    &&& a.len() == b.len()
    &&& forall|i: int| 0 <= i < a.len() && bits[i] ==> #[trigger] a[i] == b[i]
}

/// What lies at clear positions is neither among the values at set positions nor left
/// after masking.
pub proof fn lemma_clear_unseen<T>(a: Seq<T>, b: Seq<T>, bits: Seq<bool>, null: T)
    requires
        agree(a, b, bits),
        bits.len() >= a.len(),
    ensures
        compacted(a, bits) == compacted(b, bits),
        masked(a, bits, null) == masked(b, bits, null),
    decreases a.len(),
{
    if a.len() > 0 {
        let (x, y) = (a.drop_last(), b.drop_last());
        assert forall|i: int| 0 <= i < x.len() && bits[i] implies #[trigger] x[i] == y[i] by {
            assert(a[i] == b[i]);
        }
        lemma_clear_unseen(x, y, bits, null);
        let last = a.len() - 1;
        assert(bits[last] ==> a[last] == b[last]);
    }
    assert forall|i: int| 0 <= i < a.len() implies #[trigger] masked(a, bits, null)[i] == masked(
        b,
        bits,
        null,
    )[i] by {
        assert(bits[i] ==> a[i] == b[i]);
    }
    assert(masked(a, bits, null) =~= masked(b, bits, null));
}

/// The values at set positions.
pub open spec fn compacted<T>(vals: Seq<T>, bits: Seq<bool>) -> Seq<T>
    decreases vals.len(),
{
    if vals.len() == 0 {
        Seq::empty()
    } else if bits[vals.len() - 1] {
        compacted(vals.drop_last(), bits).push(vals.last())
    } else {
        compacted(vals.drop_last(), bits)
    }
}

/// The values of `valid` at the set positions, in order, `null` at the others.
pub open spec fn scattered<T>(valid: Seq<T>, bits: Seq<bool>, null: T) -> Seq<T>
    decreases bits.len(),
{
    if bits.len() == 0 {
        Seq::empty()
    } else if bits.last() {
        scattered(valid.drop_last(), bits.drop_last(), null).push(valid.last())
    } else {
        scattered(valid, bits.drop_last(), null).push(null)
    }
}

/// `vals` with `null` at the clear positions.
pub open spec fn masked<T>(vals: Seq<T>, bits: Seq<bool>, null: T) -> Seq<T> {
    Seq::new(
        vals.len(),
        |i: int|
            if bits[i] {
                vals[i]
            } else {
                null
            },
    )
}

proof fn lemma_compacted_prefix<T>(vals: Seq<T>, a: Seq<bool>, b: Seq<bool>)
    requires
        vals.len() <= a.len(),
        vals.len() <= b.len(),
        forall|i: int| 0 <= i < vals.len() ==> a[i] == b[i],
    ensures
        compacted(vals, a) == compacted(vals, b),
    decreases vals.len(),
{
    if vals.len() > 0 {
        lemma_compacted_prefix(vals.drop_last(), a, b);
    }
}

/// Compacting keeps as many values as there are set bits, and scattering them
/// again restores every valid value and clears the others.
pub proof fn lemma_scatter_compact<T>(vals: Seq<T>, bits: Seq<bool>, null: T)
    requires
        vals.len() == bits.len(),
    ensures
        compacted(vals, bits).len() == set_count(bits),
        scattered(compacted(vals, bits), bits, null) == masked(vals, bits, null),
    decreases vals.len(),
{
    if vals.len() > 0 {
        let (v, b) = (vals.drop_last(), bits.drop_last());
        lemma_scatter_compact(v, b, null);
        lemma_compacted_prefix(v, bits, b);
        let c = compacted(vals, bits);
        if bits.last() {
            assert(c.drop_last() =~= compacted(v, b));
        }
        assert(scattered(c, bits, null) =~= masked(vals, bits, null));
    } else {
        assert(scattered(compacted(vals, bits), bits, null) =~= masked(vals, bits, null));
    }
}

/// Scattering gives a value for every position.
pub proof fn lemma_scattered_len<T>(valid: Seq<T>, bits: Seq<bool>, null: T)
    ensures
        scattered(valid, bits, null).len() == bits.len(),
    decreases bits.len(),
{
    if bits.len() > 0 {
        lemma_scattered_len(valid.drop_last(), bits.drop_last(), null);
        lemma_scattered_len(valid, bits.drop_last(), null);
    }
}

/// Scattered lane words are lane words.
pub proof fn lemma_scattered_fits(lane: Lane, valid: Seq<u64>, bits: Seq<bool>)
    requires
        lane.fits_all(valid),
        valid.len() == set_count(bits),
    ensures
        lane.fits_all(scattered(valid, bits, 0)),
    decreases bits.len(),
{
    if bits.len() > 0 {
        let b = bits.drop_last();
        if bits.last() {
            let v = valid.drop_last();
            assert forall|i: int| 0 <= i < v.len() implies lane.fits(#[trigger] v[i]) by {
                assert(lane.fits(valid[i]));
            }
            lemma_scattered_fits(lane, v, b);
            assert(lane.fits(valid[valid.len() - 1]));
        } else {
            lemma_scattered_fits(lane, valid, b);
        }
    }
}

/// At most every bit is set.
pub proof fn lemma_set_count_bound(bits: Seq<bool>)
    ensures
        set_count(bits) <= bits.len(),
    decreases bits.len(),
{
    if bits.len() > 0 {
        lemma_set_count_bound(bits.drop_last());
    }
}

/// Whether value `i` is valid.
pub fn is_set(bitmap: &[u8], i: usize) -> (r: bool)
    requires
        i / 8 < bitmap.len(),
    ensures
        r == bit_set(bitmap@, i as int),
{
    let scale: u64 = two_to((i % 8) as u32);
    (bitmap[i / 8] as u64 / scale) % 2 == 1
}

/// Mark value `i` valid.
pub fn set_bit(bitmap: &mut Vec<u8>, i: usize)
    requires
        i / 8 < old(bitmap).len(),
    ensures
        final(bitmap).len() == old(bitmap).len(),
        bit_set(final(bitmap)@, i as int),
        forall|j: int|
            0 <= j < 8 * old(bitmap).len() && j != i ==> #[trigger] bit_set(final(bitmap)@, j)
                == bit_set(old(bitmap)@, j),
{
    let ghost before = bitmap@;
    let k: usize = i / 8;
    let byte: u8 = bitmap[k];
    let at: u32 = (i % 8) as u32;
    let scale: u64 = two_to(at);
    proof {
        lemma2_to64();
    }
    if (byte as u64 / scale) % 2 == 0 {
        proof {
            lemma_add_bit(byte, at as nat);
        }
        bitmap[k] = byte + scale as u8;
        proof {
            let now = (byte + scale as u8) as u8;
            assert forall|j: int| 0 <= j < 8 * before.len() && j != i implies #[trigger] bit_set(
                bitmap@,
                j,
            ) == bit_set(before, j) by {
                if j / 8 == k {
                    let m = (j % 8) as nat;
                    assert(m != at);
                    assert((now as nat / pow2(m)) % 2 == (byte as nat / pow2(m)) % 2);
                }
            }
        }
    }
}

/// Adding a missing bit to a byte sets that bit and no other.
proof fn lemma_add_bit(b: u8, at: nat)
    requires
        at < 8,
        (b as nat / pow2(at)) % 2 == 0,
    ensures
        b + pow2(at) < 256,
        ((b + pow2(at)) as nat / pow2(at)) % 2 == 1,
        forall|m: nat|
            m < 8 && m != at ==> #[trigger] ((b + pow2(at)) as nat / pow2(m)) % 2 == (b as nat
                / pow2(m)) % 2,
{
    lemma2_to64();
    assert forall|m: nat| m < 8 && m != at implies #[trigger] ((b + pow2(at)) as nat / pow2(m)) % 2
        == (b as nat / pow2(m)) % 2 by {
        lemma_add_bit_at(b, at, m);
    }
    lemma_add_bit_at(b, at, at);
}

proof fn lemma_add_bit_at(b: u8, at: nat, m: nat)
    requires
        at < 8,
        m < 8,
        (b as nat / pow2(at)) % 2 == 0,
    ensures
        b + pow2(at) < 256,
        ((b + pow2(at)) as nat / pow2(m)) % 2 == (if m == at {
            1nat
        } else {
            (b as nat / pow2(m)) % 2
        }),
{
    lemma2_to64();
    let (x, p, q) = (b as u32, pow2(at) as u32, pow2(m) as u32);
    assert(p == 1 || p == 2 || p == 4 || p == 8 || p == 16 || p == 32 || p == 64 || p == 128);
    assert(q == 1 || q == 2 || q == 4 || q == 8 || q == 16 || q == 32 || q == 64 || q == 128);
    assert((m == at) == (p == q));
    let s = (x + p) as u32;
    assert(s < 256 && (p == q ==> (s / q) % 2 == 1) && (p != q ==> (s / q) % 2 == (x / q) % 2))
        by (bit_vector)
        requires
            x < 256,
            s == x + p,
            (x / p) % 2 == 0,
            p == 1 || p == 2 || p == 4 || p == 8 || p == 16 || p == 32 || p == 64 || p == 128,
            q == 1 || q == 2 || q == 4 || q == 8 || q == 16 || q == 32 || q == 64 || q == 128,
    ;
}

/// The number of valid values among the first `n`.
pub fn count_valid(bitmap: &[u8], n: usize) -> (c: usize)
    requires
        bitmap.len() >= bitmap_len(n as nat),
    ensures
        c == set_count(bitmap_bits(bitmap@, n as nat)),
        c <= n,
{
    let mut c: usize = 0;
    let mut i: usize = 0;
    assert(bitmap_bits(bitmap@, 0) =~= Seq::empty());
    while i < n
        invariant
            i <= n,
            c <= i,
            bitmap.len() >= bitmap_len(n as nat),
            c == set_count(bitmap_bits(bitmap@, i as nat)),
        decreases n - i,
    {
        assert(bitmap_bits(bitmap@, i as nat + 1).drop_last() =~= bitmap_bits(bitmap@, i as nat));
        if is_set(bitmap, i) {
            c = c + 1;
        }
        i = i + 1;
    }
    c
}

/// The varints of `runs`.
pub open spec fn run_varints(runs: Seq<u64>) -> Seq<u8>
    decreases runs.len(),
{
    if runs.len() == 0 {
        Seq::empty()
    } else {
        run_varints(runs.drop_last()) + varint::varint_bytes(runs.last() as nat)
    }
}

/// The bits that alternating runs stand for, the first a run of `cur`.
spec fn run_bits(runs: Seq<u64>, cur: bool) -> Seq<bool>
    decreases runs.len(),
{
    if runs.len() == 0 {
        Seq::empty()
    } else {
        bit_run(cur, runs[0] as nat) + run_bits(runs.drop_first(), !cur)
    }
}

proof fn lemma_run_bits_push(runs: Seq<u64>, cur: bool, r: u64)
    ensures
        run_bits(runs.push(r), cur) == run_bits(runs, cur) + bit_run(
            cur == (runs.len() % 2 == 0),
            r as nat,
        ),
    decreases runs.len(),
{
    let t = runs.push(r);
    if runs.len() == 0 {
        assert(t.drop_first() =~= Seq::empty());
        assert(run_bits(Seq::<u64>::empty(), !cur) =~= Seq::empty());
        assert(run_bits(t, cur) =~= run_bits(runs, cur) + bit_run(cur, r as nat));
    } else {
        lemma_run_bits_push(runs.drop_first(), !cur, r);
        assert(t.drop_first() =~= runs.drop_first().push(r));
        let last = bit_run(cur == (runs.len() % 2 == 0), r as nat);
        assert(run_bits(t, cur) =~= run_bits(runs, cur) + last);
    }
}

proof fn lemma_run_varints_front(runs: Seq<u64>)
    requires
        runs.len() > 0,
    ensures
        run_varints(runs) == varint::varint_bytes(runs[0] as nat) + run_varints(
            runs.drop_first(),
        ),
    decreases runs.len(),
{
    let rest = runs.drop_first();
    if runs.len() == 1 {
        assert(runs.drop_last() =~= Seq::empty());
        assert(rest =~= Seq::empty());
        assert(run_varints(Seq::<u64>::empty()) =~= Seq::<u8>::empty());
        assert(run_varints(runs) =~= varint::varint_bytes(runs[0] as nat) + run_varints(rest));
    } else {
        lemma_run_varints_front(runs.drop_last());
        assert(runs.drop_last().drop_first() =~= rest.drop_last());
        assert(run_varints(runs) =~= varint::varint_bytes(runs[0] as nat) + run_varints(rest));
    }
}

proof fn lemma_runs_roundtrip(runs: Seq<u64>, cur: bool)
    requires
        run_bits(runs, cur).len() <= usize::MAX,
    ensures
        runs_parse(run_varints(runs), run_bits(runs, cur).len(), cur) == Ok::<_, Error>(
            run_bits(runs, cur),
        ),
    decreases runs.len(),
{
    let bits = run_bits(runs, cur);
    if bits.len() == 0 {
        assert(bits =~= Seq::empty());
    } else {
        let rest = runs.drop_first();
        lemma_runs_roundtrip(rest, !cur);
        lemma_run_varints_front(runs);
        varint::lemma_varint_roundtrip(runs[0], run_varints(rest));
    }
}

/// The lengths of the runs of `bits`, alternating from `cur`, of which `run`
/// bits were seen already.
pub open spec fn runs_of(bits: Seq<bool>, cur: bool, run: nat) -> Seq<u64>
    decreases bits.len(),
{
    if bits.len() == 0 {
        seq![run as u64]
    } else if bits[0] == cur {
        runs_of(bits.drop_first(), cur, run + 1)
    } else {
        seq![run as u64] + runs_of(bits.drop_first(), !cur, 1)
    }
}

/// The stored form of a bitmap: its run lengths, or its bytes when those are no
/// longer.
pub open spec fn validity_bytes(bitmap: Seq<u8>, n: nat) -> Seq<u8> {
    let rle = run_varints(runs_of(bitmap_bits(bitmap, n), false, 0));
    if rle.len() < bitmap_len(n) {
        seq![TAG_RLE] + rle
    } else {
        seq![TAG_RAW] + bitmap.take(bitmap_len(n) as int)
    }
}

/// The run lengths of bits spell the bits.
proof fn lemma_runs_of(bits: Seq<bool>, cur: bool, run: nat)
    requires
        run + bits.len() <= u64::MAX,
    ensures
        run_bits(runs_of(bits, cur, run), cur) == bit_run(cur, run) + bits,
    decreases bits.len(),
{
    let runs = runs_of(bits, cur, run);
    if bits.len() == 0 {
        assert(runs.drop_first() =~= Seq::empty());
        assert(run_bits(Seq::<u64>::empty(), !cur) =~= Seq::empty());
        assert(run_bits(runs, cur) =~= bit_run(cur, run) + bits);
    } else if bits[0] == cur {
        lemma_runs_of(bits.drop_first(), cur, run + 1);
        assert(bit_run(cur, run + 1) + bits.drop_first() =~= bit_run(cur, run) + bits);
    } else {
        lemma_runs_of(bits.drop_first(), !cur, 1);
        assert(runs.drop_first() =~= runs_of(bits.drop_first(), !cur, 1));
        assert(bit_run(!cur, 1) + bits.drop_first() =~= bits);
    }
}

/// A stored bitmap is read back.
pub proof fn lemma_validity_roundtrip(bitmap: Seq<u8>, n: nat)
    requires
        bitmap.len() >= bitmap_len(n),
        n <= usize::MAX,
    ensures
        validity_decoded(validity_bytes(bitmap, n), n) == Ok::<_, Error>(bitmap_bits(bitmap, n)),
{
    let bits = bitmap_bits(bitmap, n);
    let runs = runs_of(bits, false, 0);
    let out = validity_bytes(bitmap, n);
    lemma_runs_of(bits, false, 0);
    assert(bit_run(false, 0) + bits =~= bits);
    lemma_runs_roundtrip(runs, false);
    if run_varints(runs).len() < bitmap_len(n) {
        assert(out.drop_first() =~= run_varints(runs));
    } else {
        assert(out.drop_first() =~= bitmap.take(bitmap_len(n) as int));
        assert(bitmap_bits(out.drop_first(), n) =~= bits);
    }
}

/// Serialise the first `n` bits of a bitmap, as run lengths or as bytes,
/// whichever is smaller.
pub fn encode(bitmap: &[u8], n: usize) -> (out: Vec<u8>)
    requires
        bitmap.len() >= bitmap_len(n as nat),
    ensures
        out@ == validity_bytes(bitmap@, n as nat),
        validity_decoded(out@, n as nat) == Ok::<_, Error>(bitmap_bits(bitmap@, n as nat)),
        out.len() <= bitmap_len(n as nat) + 1,
{
    let ghost bits = bitmap_bits(bitmap@, n as nat);
    let mut rle: Vec<u8> = Vec::new();
    let mut cur: bool = false;
    let mut run: u64 = 0;
    let mut i: usize = 0;
    let ghost mut runs: Seq<u64> = Seq::empty();
    proof {
        assert(run_varints(runs) =~= Seq::empty());
        assert(run_bits(runs, false) + bit_run(false, 0) =~= bitmap_bits(bitmap@, 0));
        assert(bits.skip(0) =~= bits);
        assert(runs + runs_of(bits, false, 0) =~= runs_of(bits, false, 0));
    }
    while i < n
        invariant
            i <= n,
            bitmap.len() >= bitmap_len(n as nat),
            run <= i,
            rle@ == run_varints(runs),
            cur == (runs.len() % 2 == 1),
            run_bits(runs, false) + bit_run(cur, run as nat) == bitmap_bits(bitmap@, i as nat),
            bits == bitmap_bits(bitmap@, n as nat),
            runs + runs_of(bits.skip(i as int), cur, run as nat) == runs_of(bits, false, 0),
        decreases n - i,
    {
        let bit = is_set(bitmap, i);
        proof {
            assert(bits.skip(i as int)[0] == bit);
            assert(bits.skip(i as int).drop_first() =~= bits.skip(i + 1));
        }
        let ghost now = bitmap_bits(bitmap@, i as nat);
        let ghost next = bitmap_bits(bitmap@, i as nat + 1);
        assert(next =~= now.push(bit));
        if bit == cur {
            assert(run_bits(runs, false) + bit_run(cur, run as nat + 1) =~= next);
            run = run + 1;
        } else {
            varint::write_u64(&mut rle, run);
            proof {
                lemma_run_bits_push(runs, false, run);
                let before = runs;
                runs = before.push(run);
                assert(runs.drop_last() =~= before);
                assert(run_bits(runs, false) == now);
                assert(now + bit_run(!cur, 1) =~= next);
                let more = runs_of(bits.skip(i + 1), !cur, 1);
                assert(before + (seq![run] + more) =~= runs + more);
            }
            cur = !cur;
            run = 1;
        }
        i = i + 1;
    }
    varint::write_u64(&mut rle, run);
    proof {
        lemma_run_bits_push(runs, false, run);
        let before = runs;
        runs = before.push(run);
        assert(runs.drop_last() =~= before);
        lemma_runs_roundtrip(runs, false);
        assert(before + seq![run] =~= runs);
        assert(bits.skip(n as int) =~= Seq::empty());
        assert(runs == runs_of(bits, false, 0));
    }
    let raw_len: usize = n / 8 + (if n % 8 == 0 {
        0
    } else {
        1
    });
    let mut out: Vec<u8> = Vec::new();
    if rle.len() < raw_len {
        out.push(TAG_RLE);
        out.extend_from_slice(&rle);
        assert(out@.drop_first() =~= rle@);
        assert(out@ =~= seq![TAG_RLE] + rle@);
    } else {
        out.push(TAG_RAW);
        out.extend_from_slice(vstd::slice::slice_subrange(bitmap, 0, raw_len));
        proof {
            assert(out@.drop_first() =~= bitmap@.subrange(0, raw_len as int));
            assert(out@ =~= seq![TAG_RAW] + bitmap@.take(raw_len as int));
            assert(bitmap_bits(out@.drop_first(), n as nat) =~= bitmap_bits(bitmap@, n as nat));
        }
    }
    out
}

/// The canonical bitmap of the first `n` bits of `src`.
pub fn canonical(src: &[u8], n: usize) -> (bitmap: Vec<u8>)
    requires
        src.len() >= bitmap_len(n as nat),
    ensures
        bitmap_canonical(bitmap@, n as nat),
        bitmap_bits(bitmap@, n as nat) == bitmap_bits(src@, n as nat),
{
    let mut bitmap: Vec<u8> = empty_bitmap(n);
    let mut i: usize = 0;
    while i < n
        invariant
            i <= n,
            src.len() >= bitmap_len(n as nat),
            bitmap.len() == bitmap_len(n as nat),
            forall|j: int| 0 <= j < i ==> #[trigger] bit_set(bitmap@, j) == bit_set(src@, j),
            forall|j: int| i <= j < 8 * bitmap.len() ==> !(#[trigger] bit_set(bitmap@, j)),
        decreases n - i,
    {
        if is_set(src, i) {
            set_bit(&mut bitmap, i);
        }
        i = i + 1;
    }
    assert(bitmap_bits(bitmap@, n as nat) =~= bitmap_bits(src@, n as nat));
    bitmap
}

/// A bitmap of `n` clear bits.
fn empty_bitmap(n: usize) -> (bitmap: Vec<u8>)
    ensures
        bitmap.len() == bitmap_len(n as nat),
        forall|j: int| 0 <= j < 8 * bitmap.len() ==> !(#[trigger] bit_set(bitmap@, j)),
{
    let raw_len: usize = n / 8 + (if n % 8 == 0 {
        0
    } else {
        1
    });
    let bitmap: Vec<u8> = vec![0; raw_len];
    proof {
        assert forall|j: int| 0 <= j < 8 * bitmap.len() implies !(#[trigger] bit_set(
            bitmap@,
            j,
        )) by {
            lemma_pow2_pos((j % 8) as nat);
            vstd::arithmetic::div_mod::lemma_basic_div(0, pow2((j % 8) as nat) as int);
        }
    }
    bitmap
}

/// Inverse of [`encode`]: the `ceil(n/8)`-byte bitmap.
pub fn decode(blob: &[u8], n: usize) -> (r: Result<Vec<u8>, Error>)
    ensures
        match validity_decoded(blob@, n as nat) {
            Err(e) => r == Err::<Vec<u8>, _>(e),
            Ok(bits) => r matches Ok(bm) && bitmap_canonical(bm@, n as nat) && bitmap_bits(
                bm@,
                n as nat,
            ) == bits,
        },
{
    if blob.len() == 0 {
        return Err(Error::Truncated);
    }
    let tag: u8 = blob[0];
    let rest = tail(blob, 1);
    assert(blob@.skip(1) =~= blob@.drop_first());
    if tag == TAG_RAW {
        let raw_len: usize = n / 8 + (if n % 8 == 0 {
            0
        } else {
            1
        });
        if rest.len() < raw_len {
            return Err(Error::Truncated);
        }
        return Ok(canonical(rest, n));
    }
    if tag != TAG_RLE {
        return Err(Error::CorruptPayload("validity tag"));
    }
    let mut bitmap: Vec<u8> = empty_bitmap(n);
    let mut pos: usize = 0;
    let mut i: usize = 0;
    let mut cur: bool = false;
    let ghost whole = runs_parse(rest@, n as nat, false);
    proof {
        assert(rest@.skip(0) =~= rest@);
        assert(bitmap_bits(bitmap@, 0) =~= Seq::empty());
        if let Ok(t) = whole {
            assert(bitmap_bits(bitmap@, 0) + t =~= t);
        }
    }
    while i < n
        invariant
            i <= n,
            pos <= rest.len(),
            whole == validity_decoded(blob@, n as nat),
            bitmap.len() == bitmap_len(n as nat),
            forall|j: int| i <= j < 8 * bitmap.len() ==> !(#[trigger] bit_set(bitmap@, j)),
            whole == (match runs_parse(rest@.skip(pos as int), (n - i) as nat, cur) {
                Err(e) => Err::<Seq<bool>, _>(e),
                Ok(t) => Ok(bitmap_bits(bitmap@, i as nat) + t),
            }),
        decreases rest.len() - pos,
    {
        let ghost before = bitmap_bits(bitmap@, i as nat);
        let run: u64 = match varint::read_u64(rest, &mut pos) {
            Ok(v) => v,
            Err(e) => return Err(e),
        };
        if run > usize::MAX as u64 {
            return Err(Error::CorruptPayload("validity run too large"));
        }
        if run > (n - i) as u64 {
            return Err(Error::CorruptPayload("validity run overruns"));
        }
        let end: usize = i + run as usize;
        let ghost start = i as int;
        if cur {
            let mut k: usize = i;
            while k < end
                invariant
                    start <= k <= end <= n,
                    bitmap.len() == bitmap_len(n as nat),
                    before.len() == start,
                    forall|j: int|
                        0 <= j < start ==> #[trigger] bit_set(bitmap@, j) == before[j],
                    forall|j: int| start <= j < k ==> #[trigger] bit_set(bitmap@, j),
                    forall|j: int|
                        k <= j < 8 * bitmap.len() ==> !(#[trigger] bit_set(bitmap@, j)),
                decreases end - k,
            {
                set_bit(&mut bitmap, k);
                k = k + 1;
            }
        }
        proof {
            let now = bitmap_bits(bitmap@, end as nat);
            assert(now =~= before + bit_run(cur, run as nat));
            if let Ok(t) = runs_parse(rest@.skip(pos as int), (n - end) as nat, !cur) {
                assert(before + (bit_run(cur, run as nat) + t) =~= now + t);
            }
        }
        i = end;
        cur = !cur;
    }
    assert(bitmap_bits(bitmap@, n as nat) + Seq::<bool>::empty() =~= bitmap_bits(
        bitmap@,
        n as nat,
    ));
    Ok(bitmap)
}

/// Keep only the values at valid positions.
pub fn compact(vals: &[u64], bitmap: &[u8]) -> (out: Vec<u64>)
    requires
        bitmap.len() >= bitmap_len(vals@.len()),
    ensures
        out@ == compacted(vals@, bitmap_bits(bitmap@, vals@.len())),
        forall|k: int| 0 <= k < out.len() ==> vals@.contains(#[trigger] out@[k]),
{
    let mut out: Vec<u64> = Vec::new();
    let mut i: usize = 0;
    let ghost bits = bitmap_bits(bitmap@, vals@.len());
    assert(compacted(vals@.take(0), bits) =~= Seq::empty());
    while i < vals.len()
        invariant
            i <= vals.len(),
            bitmap.len() >= bitmap_len(vals@.len()),
            bits == bitmap_bits(bitmap@, vals@.len()),
            out@ == compacted(vals@.take(i as int), bits),
            forall|k: int| 0 <= k < out.len() ==> vals@.contains(#[trigger] out@[k]),
        decreases vals.len() - i,
    {
        assert(vals@.take(i + 1).drop_last() =~= vals@.take(i as int));
        if is_set(bitmap, i) {
            assert(vals@.contains(vals@[i as int]));
            out.push(vals[i]);
        }
        i = i + 1;
    }
    assert(vals@.take(vals.len() as int) =~= vals@);
    out
}

/// Scatter `valid` back into `n` positions; null slots become 0.
pub fn scatter(valid: &[u64], bitmap: &[u8], n: usize) -> (r: Result<Vec<u64>, Error>)
    requires
        bitmap.len() >= bitmap_len(n as nat),
    ensures
        if set_count(bitmap_bits(bitmap@, n as nat)) != valid.len() {
            r == Err::<Vec<u64>, _>(Error::CorruptPayload("validity/value count mismatch"))
        } else {
            r matches Ok(out) && out@ == scattered(
                valid@,
                bitmap_bits(bitmap@, n as nat),
                0,
            )
        },
{
    if count_valid(bitmap, n) != valid.len() {
        return Err(Error::CorruptPayload("validity/value count mismatch"));
    }
    let mut out: Vec<u64> = Vec::new();
    let mut j: usize = 0;
    let mut i: usize = 0;
    let ghost bits = bitmap_bits(bitmap@, n as nat);
    proof {
        assert(bits.take(0) =~= Seq::empty());
        assert(bits.take(n as int) =~= bits);
        assert(valid@.take(0) =~= Seq::empty());
    }
    while i < n
        invariant
            i <= n,
            bitmap.len() >= bitmap_len(n as nat),
            bits == bitmap_bits(bitmap@, n as nat),
            set_count(bits) == valid.len(),
            j == set_count(bits.take(i as int)),
            j <= valid.len(),
            out@ == scattered(valid@.take(j as int), bits.take(i as int), 0),
        decreases n - i,
    {
        proof {
            assert(bits.take(i + 1).drop_last() =~= bits.take(i as int));
            assert(bits.take(i + 1).last() == bits[i as int]);
            lemma_set_count_mono(bits, i + 1);
        }
        if is_set(bitmap, i) {
            out.push(valid[j]);
            assert(valid@.take(j + 1).drop_last() =~= valid@.take(j as int));
            j = j + 1;
        } else {
            out.push(0);
        }
        i = i + 1;
    }
    assert(bits.take(n as int) =~= bits);
    assert(valid@.take(valid.len() as int) =~= valid@);
    Ok(out)
}

/// A prefix has no more set bits than the whole.
pub proof fn lemma_set_count_mono(bits: Seq<bool>, a: int)
    requires
        0 <= a <= bits.len(),
    ensures
        set_count(bits.take(a)) <= set_count(bits),
    decreases bits.len() - a,
{
    if a < bits.len() {
        lemma_set_count_mono(bits, a + 1);
        assert(bits.take(a + 1).drop_last() =~= bits.take(a));
    } else {
        assert(bits.take(a) =~= bits);
    }
}

/// The bitmap of a list of validities.
pub fn from_bools(bits: &[bool]) -> (bitmap: Vec<u8>)
    ensures
        bitmap_canonical(bitmap@, bits@.len()),
        bitmap_bits(bitmap@, bits@.len()) == bits@,
{
    let n: usize = bits.len();
    let mut bitmap: Vec<u8> = empty_bitmap(n);
    let mut i: usize = 0;
    while i < n
        invariant
            i <= n,
            n == bits.len(),
            bitmap.len() == bitmap_len(n as nat),
            forall|j: int| 0 <= j < i ==> #[trigger] bit_set(bitmap@, j) == bits@[j],
            forall|j: int| i <= j < 8 * bitmap.len() ==> !(#[trigger] bit_set(bitmap@, j)),
        decreases n - i,
    {
        if bits[i] {
            set_bit(&mut bitmap, i);
        }
        i = i + 1;
    }
    assert(bitmap_bits(bitmap@, bits@.len()) =~= bits@);
    bitmap
}

} // verus!
