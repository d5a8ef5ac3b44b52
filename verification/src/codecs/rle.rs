//! RLE: run lengths of equal values. Each run stores its value verbatim and its
//! length bit-packed. Wins on grouped columns; bails out when runs are short.
//!
//! Payload: `varint(runs) ++ run values ++ for_bitpack(run lengths)`.

use vstd::prelude::*;
use crate::bytes::tail;
use crate::codecs::for_bitpack;
use crate::error;
use crate::error::Error;
use crate::lane;
use crate::lane::Lane;
use crate::varint;

verus! {

/// The number of runs of equal values.
pub open spec fn run_count(vals: Seq<u64>) -> nat
    decreases vals.len(),
{
    if vals.len() == 0 {
        0
    } else if vals.len() == 1 {
        1
    } else {
        run_count(vals.drop_last()) + (if vals.last() == vals[vals.len() - 2] {
            0nat
        } else {
            1nat
        })
    }
}

/// The values and the lengths of the runs of equal values.
pub open spec fn runs_of(vals: Seq<u64>) -> (Seq<u64>, Seq<u64>)
    decreases vals.len(),
{
    if vals.len() == 0 {
        (Seq::empty(), Seq::empty())
    } else {
        let (values, lens) = runs_of(vals.drop_last());
        if vals.len() > 1 && vals.last() == vals[vals.len() - 2] {
            (values, lens.update(lens.len() - 1, (lens.last() + 1) as u64))
        } else {
            (values.push(vals.last()), lens.push(1))
        }
    }
}

/// `out` followed by runs `i..` of the given values and lengths, never past `n`
/// values.
pub open spec fn runs_expanded(
    values: Seq<u64>,
    lens: Seq<u64>,
    i: nat,
    out: Seq<u64>,
    n: nat,
) -> Result<Seq<u64>, Error>
    decreases values.len() - i,
{
    if i >= values.len() {
        Ok(out)
    } else if out.len() + lens[i as int] > n {
        Err(Error::CorruptPayload("rle run overruns value count"))
    } else {
        runs_expanded(
            values,
            lens,
            i + 1,
            out + Seq::new(lens[i as int] as nat, |k: int| values[i as int]),
            n,
        )
    }
}

/// The `n` values coded by `payload`.
pub open spec fn rle_decoded(lane: Lane, payload: Seq<u8>, n: nat) -> Result<Seq<u64>, Error> {
    match varint::varint_parse(payload) {
        Err(e) => Err(e),
        Ok((runs, rest)) => if runs > n {
            Err(Error::CorruptPayload("rle run count exceeds value count"))
        } else if rest.len() < runs * lane.bytes() {
            Err(Error::Truncated)
        } else {
            let end = runs * lane.bytes();
            let values = lane.words_of(rest.take(end));
            match for_bitpack::for_decoded(Lane::W64, rest.skip(end), runs as nat) {
                Err(e) => Err(e),
                Ok(lens) => match runs_expanded(values, lens, 0, Seq::empty(), n) {
                    Err(e) => Err(e),
                    Ok(out) => if out.len() != n {
                        Err(Error::LengthMismatch { expected: n as usize, got: out.len() as usize })
                    } else {
                        Ok(out)
                    },
                },
            }
        },
    }
}

/// Whether run-length encoding is worth a try: few enough runs.
pub open spec fn rle_applies(vals: Seq<u64>) -> bool {
    vals.len() > 0 && run_count(vals) - 1 <= vals.len() / 2 + 1
}

/// The values that the runs `..k` stand for.
spec fn expanded(values: Seq<u64>, lens: Seq<u64>, k: nat) -> Seq<u64>
    decreases k,
{
    if k == 0 {
        Seq::empty()
    } else {
        expanded(values, lens, (k - 1) as nat) + Seq::new(
            lens[k - 1] as nat,
            |j: int| values[k - 1],
        )
    }
}

proof fn lemma_expanded_push(values: Seq<u64>, lens: Seq<u64>, v: u64, l: u64, k: nat)
    requires
        k <= values.len(),
        values.len() == lens.len(),
    ensures
        expanded(values.push(v), lens.push(l), k) == expanded(values, lens, k),
    decreases k,
{
    if k > 0 {
        lemma_expanded_push(values, lens, v, l, (k - 1) as nat);
        assert(Seq::new(lens[k - 1] as nat, |j: int| values[k - 1]) =~= Seq::new(
            lens.push(l)[k - 1] as nat,
            |j: int| values.push(v)[k - 1],
        ));
    }
}

proof fn lemma_expanded_mono(values: Seq<u64>, lens: Seq<u64>, a: nat, b: nat)
    requires
        a <= b,
    ensures
        expanded(values, lens, a).len() <= expanded(values, lens, b).len(),
    decreases b - a,
{
    if a < b {
        lemma_expanded_mono(values, lens, a, (b - 1) as nat);
    }
}

proof fn lemma_runs_expand(values: Seq<u64>, lens: Seq<u64>, i: nat, n: nat)
    requires
        i <= values.len(),
        values.len() == lens.len(),
        n == expanded(values, lens, values.len()).len(),
    ensures
        runs_expanded(values, lens, i, expanded(values, lens, i), n) == Ok::<_, Error>(
            expanded(values, lens, values.len()),
        ),
    decreases values.len() - i,
{
    if i < values.len() {
        lemma_runs_expand(values, lens, i + 1, n);
        lemma_expanded_mono(values, lens, i + 1, values.len());
        assert(expanded(values, lens, i + 1) == expanded(values, lens, i) + Seq::new(
            lens[i as int] as nat,
            |k: int| values[i as int],
        ));
    }
}

/// The payload of `vals`.
pub open spec fn rle_image(lane: Lane, vals: Seq<u64>) -> Seq<u8> {
    let (values, lens) = runs_of(vals);
    varint::varint_bytes(values.len()) + lane.words_bytes(values) + for_bitpack::for_image(
        Lane::W64,
        false,
        lens,
    )
}

/// Run-length encode a block.
pub fn encode(lane: Lane, vals: &[u64]) -> (r: Option<Vec<u8>>)
    requires
        lane.fits_all(vals@),
    ensures
        r is Some <==> rle_applies(vals@),
        r matches Some(out) ==> rle_decoded(lane, out@, vals@.len()) == Ok::<_, Error>(vals@),
        r matches Some(out) ==> out@ == rle_image(lane, vals@),
{
    if vals.len() == 0 {
        return None;
    }
    let max_runs: usize = vals.len() / 2 + 1;
    let mut values: Vec<u64> = Vec::new();
    let mut lens: Vec<u64> = Vec::new();
    let mut prev: u64 = vals[0];
    let mut len: u64 = 0;
    let mut i: usize = 0;
    while i < vals.len()
        invariant
            i <= vals.len(),
            lane.fits_all(vals@),
            vals.len() > 0,
            max_runs == vals.len() / 2 + 1,
            values.len() == lens.len(),
            values.len() <= max_runs,
            lane.fits_all(values@),
            lane.fits(prev),
            i == 0 ==> prev == vals@[0] && len == 0 && values.len() == 0,
            i > 0 ==> prev == vals@[i - 1] && len > 0,
            len <= i,
            values.len() <= i,
            i > 0 ==> values.len() < i,
            i > 0 ==> run_count(vals@.take(i as int)) == values.len() + 1,
            i > 0 ==> runs_of(vals@.take(i as int)) == (values@.push(prev), lens@.push(len)),
            expanded(values@, lens@, values@.len()) + Seq::new(len as nat, |j: int| prev)
                == vals@.take(i as int),
        decreases vals.len() - i,
    {
        let v: u64 = vals[i];
        assert(lane.fits(vals@[i as int]));
        let ghost done = expanded(values@, lens@, values@.len());
        proof {
            let t = vals@.take(i + 1);
            assert(t.drop_last() =~= vals@.take(i as int));
            assert(t.last() == v);
            if i > 0 {
                assert(t[t.len() - 2] == vals@[i - 1]);
                let l = lens@.push(len);
                assert(l.update(l.len() - 1, (len + 1) as u64) =~= lens@.push((len + 1) as u64));
            } else {
                assert(t.drop_last() =~= Seq::empty());
                assert(runs_of(t.drop_last()) == (Seq::<u64>::empty(), Seq::<u64>::empty()));
                assert(values@ =~= Seq::empty());
                assert(lens@ =~= Seq::empty());
            }
        }
        if v == prev {
            len = len + 1;
            assert(done + Seq::new(len as nat, |j: int| prev) =~= vals@.take(i + 1));
        } else {
            proof {
                lemma_expanded_push(values@, lens@, prev, len, values@.len());
                let (v2, l2) = (values@.push(prev), lens@.push(len));
                assert(Seq::new(l2[v2.len() - 1] as nat, |j: int| v2[v2.len() - 1]) =~= Seq::new(
                    len as nat,
                    |j: int| prev,
                ));
                assert(expanded(v2, l2, v2.len()) == vals@.take(i as int));
                assert(vals@.take(i as int) + Seq::new(1, |j: int| v) =~= vals@.take(i + 1));
            }
            values.push(prev);
            lens.push(len);
            prev = v;
            len = 1;
            if values.len() > max_runs {
                proof {
                    lemma_run_count_mono(vals@, i + 1);
                }
                return None;
            }
        }
        i = i + 1;
    }
    proof {
        lemma_expanded_push(values@, lens@, prev, len, values@.len());
        let (v2, l2) = (values@.push(prev), lens@.push(len));
        assert(Seq::new(l2[v2.len() - 1] as nat, |j: int| v2[v2.len() - 1]) =~= Seq::new(
            len as nat,
            |j: int| prev,
        ));
        assert(vals@.take(vals.len() as int) =~= vals@);
        assert(expanded(v2, l2, v2.len()) == vals@);
    }
    values.push(prev);
    lens.push(len);
    let mut out: Vec<u8> = Vec::new();
    varint::write_u64(&mut out, values.len() as u64);
    lane.write_words(&mut out, &values);
    let packed = for_bitpack::encode(Lane::W64, &lens, false);
    out.extend_from_slice(&packed);
    proof {
        let image = lane.words_bytes(values@);
        lane::lemma_words_roundtrip(lane, values@);
        let rest = image + packed@;
        assert(out@ =~= varint::varint_bytes(values@.len()) + rest);
        varint::lemma_varint_roundtrip(values@.len() as u64, rest);
        let end = values@.len() * lane.bytes();
        assert(rest.take(end) =~= image);
        assert(rest.skip(end) =~= packed@);
        lemma_runs_expand(values@, lens@, 0, vals@.len());
        assert(values@.len() <= vals@.len());
    }
    Some(out)
}

proof fn lemma_run_count_mono(vals: Seq<u64>, a: int)
    requires
        0 <= a <= vals.len(),
    ensures
        run_count(vals.take(a)) <= run_count(vals),
    decreases vals.len() - a,
{
    if a < vals.len() {
        lemma_run_count_mono(vals, a + 1);
        assert(vals.take(a + 1).drop_last() =~= vals.take(a));
    } else {
        assert(vals.take(a) =~= vals);
    }
}

/// Inverse of [`encode`].
pub fn decode(lane: Lane, payload: &[u8], n: usize) -> (r: Result<Vec<u64>, Error>)
    ensures
        error::viewed(r) == rle_decoded(lane, payload@, n as nat),
        r matches Ok(v) ==> lane.fits_all(v@) && v.len() == n,
{
    let mut pos: usize = 0;
    assert(payload@.skip(0) =~= payload@);
    let runs: u64 = match varint::read_u64(payload, &mut pos) {
        Ok(v) => v,
        Err(e) => return Err(e),
    };
    if runs > n as u64 {
        return Err(Error::CorruptPayload("rle run count exceeds value count"));
    }
    let rest = tail(payload, pos);
    let w: usize = lane.bytes();
    let count: usize = runs as usize;
    if rest.len() / w < count {
        proof {
            assert(rest.len() < count * w) by (nonlinear_arith)
                requires
                    rest.len() as int / w as int + 1 <= count,
                    w > 0,
            ;
        }
        return Err(Error::Truncated);
    }
    proof {
        assert(count * w <= rest.len()) by (nonlinear_arith)
            requires
                count <= rest.len() as int / w as int,
                w > 0,
        ;
    }
    let end: usize = count * w;
    let values = lane.from_le_image(vstd::slice::slice_subrange(rest, 0, end));
    proof {
        assert(rest@.subrange(0, end as int) =~= rest@.take(end as int));
        assert(end as int / w as int == count) by (nonlinear_arith)
            requires
                end == count * w,
                w > 0,
        ;
    }
    let lens: Vec<u64> = match for_bitpack::decode(Lane::W64, tail(rest, end), count) {
        Ok(v) => v,
        Err(e) => return Err(e),
    };
    proof {
        for_bitpack::lemma_for_decoded_len(Lane::W64, rest@.skip(end as int), count as nat);
    }
    let mut out: Vec<u64> = Vec::new();
    let mut i: usize = 0;
    let ghost whole = runs_expanded(values@, lens@, 0, Seq::empty(), n as nat);
    while i < count
        invariant
            i <= count,
            values.len() == count,
            lens.len() == count,
            out.len() <= n,
            lane.fits_all(values@),
            lane.fits_all(out@),
            whole == runs_expanded(values@, lens@, i as nat, out@, n as nat),
            rle_decoded(lane, payload@, n as nat) == (match whole {
                Err(e) => Err::<Seq<u64>, _>(e),
                Ok(t) => if t.len() != n {
                    Err(Error::LengthMismatch { expected: n, got: t.len() as usize })
                } else {
                    Ok(t)
                },
            }),
        decreases count - i,
    {
        let l: u64 = lens[i];
        let v: u64 = values[i];
        assert(lane.fits(values@[i as int]));
        if l > (n - out.len()) as u64 {
            return Err(Error::CorruptPayload("rle run overruns value count"));
        }
        let ghost before = out@;
        let mut k: u64 = 0;
        assert(before + Seq::new(0, |j: int| v) =~= out@);
        while k < l
            invariant
                k <= l,
                lane.fits(v),
                lane.fits_all(out@),
                out@ == before + Seq::new(k as nat, |j: int| v),
            decreases l - k,
        {
            out.push(v);
            k = k + 1;
            assert(out@ =~= before + Seq::new(k as nat, |j: int| v));
        }
        proof {
            assert(Seq::new(l as nat, |j: int| v) =~= Seq::new(
                lens@[i as int] as nat,
                |j: int| values@[i as int],
            ));
        }
        i = i + 1;
    }
    if out.len() != n {
        return Err(Error::LengthMismatch { expected: n, got: out.len() });
    }
    Ok(out)
}

} // verus!
