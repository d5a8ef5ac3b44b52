//! Stratified samples: contiguous runs spread evenly over a block.
//!
//! Runs rather than single values, so that local structure (deltas, repeats)
//! survives in the sample and periodic data does not alias with a stride.

use vstd::prelude::*;

verus! {

/// Values per run of a sample of `count` values.
pub open spec fn run_len(count: nat) -> nat {
    if count < 8 {
        1
    } else {
        count / 8
    }
}

/// Runs of a sample of `count` values.
pub open spec fn runs(count: nat) -> nat {
    count / run_len(count)
}

/// Where run `r` of a sample of `count` out of `n` values starts.
pub open spec fn run_start(n: nat, count: nat, r: int) -> int {
    if runs(count) == 1 {
        0
    } else {
        r * (n - run_len(count)) / (runs(count) - 1)
    }
}

/// The positions sampled when `count` out of `n` values are wanted.
pub open spec fn sampled(n: nat, count: nat) -> Seq<int> {
    if n <= count {
        Seq::new(n, |i: int| i)
    } else {
        Seq::new(
            runs(count) * run_len(count),
            |i: int| run_start(n, count, i / run_len(count) as int) + i % run_len(count) as int,
        )
    }
}

proof fn lemma_run_start(n: nat, count: nat, r: int)
    requires
        0 < count < n,
        0 <= r < runs(count),
    ensures
        0 < run_len(count) <= count,
        0 <= run_start(n, count, r) <= n - run_len(count),
{
    let len = run_len(count);
    let k = runs(count);
    if k > 1 {
        let span = n - len;
        assert(0 <= r * span <= (k - 1) * span) by (nonlinear_arith)
            requires
                0 <= r <= k - 1,
                span >= 0,
        ;
        assert(0 <= (r * span) / (k - 1) <= span) by (nonlinear_arith)
            requires
                0 <= r * span <= (k - 1) * span,
                k - 1 > 0,
        ;
    }
}

/// Every sampled position lies in the block.
pub proof fn lemma_sampled_in_range(n: nat, count: nat)
    ensures
        forall|i: int| 0 <= i < sampled(n, count).len() ==> 0 <= #[trigger] sampled(n, count)[i] < n,
{
    if count < n {
        assert forall|i: int| 0 <= i < sampled(n, count).len() implies 0 <= #[trigger] sampled(
            n,
            count,
        )[i] < n by {
            let len = run_len(count) as int;
            let r = i / len;
            vstd::arithmetic::div_mod::lemma_fundamental_div_mod(i, len);
            assert(0 <= r < runs(count)) by (nonlinear_arith)
                requires
                    0 <= i < runs(count) * len,
                    r == i / len,
                    len > 0,
            ;
            lemma_run_start(n, count, r);
        }
    }
}

/// The positions sampled when `count` out of `n` values are wanted.
pub fn sample_positions(n: usize, count: usize) -> (out: Vec<usize>)
    ensures
        out.len() == sampled(n as nat, count as nat).len(),
        forall|i: int|
            0 <= i < out.len() ==> #[trigger] out@[i] == sampled(n as nat, count as nat)[i],
        forall|i: int| 0 <= i < out.len() ==> #[trigger] out@[i] < n,
{
    let mut out: Vec<usize> = Vec::new();
    if n <= count {
        let mut i: usize = 0;
        while i < n
            invariant
                i <= n,
                out.len() == i,
                forall|k: int| 0 <= k < i ==> #[trigger] out@[k] == k,
            decreases n - i,
        {
            out.push(i);
            i = i + 1;
        }
        return out;
    }
    let len: usize = if count < 8 {
        1
    } else {
        count / 8
    };
    let k: usize = count / len;
    let ghost want = sampled(n as nat, count as nat);
    assert(k * len <= count) by (nonlinear_arith)
        requires
            k == count / len,
            len > 0,
    ;
    assert(len <= count || count == 0);
    let mut r: usize = 0;
    while r < k
        invariant
            r <= k,
            0 < len,
            count < n,
            len == run_len(count as nat),
            k == runs(count as nat),
            want == sampled(n as nat, count as nat),
            out.len() == r * len,
            forall|i: int| 0 <= i < out.len() ==> #[trigger] out@[i] == want[i],
            forall|i: int| 0 <= i < out.len() ==> #[trigger] out@[i] < n,
        decreases k - r,
    {
        proof {
            lemma_run_start(n as nat, count as nat, r as int);
        }
        let start: usize = if k == 1 {
            0
        } else {
            let span: u128 = (n - len) as u128;
            assert(r * span <= 0xFFFF_FFFF_FFFF_FFFF * 0xFFFF_FFFF_FFFF_FFFF) by (nonlinear_arith)
                requires
                    r <= 0xFFFF_FFFF_FFFF_FFFF,
                    span <= 0xFFFF_FFFF_FFFF_FFFF,
            ;
            (r as u128 * span / (k - 1) as u128) as usize
        };
        assert(start == run_start(n as nat, count as nat, r as int));
        let mut j: usize = 0;
        while j < len
            invariant
                j <= len,
                0 < len,
                r < k,
                count < n,
                len == run_len(count as nat),
                k == runs(count as nat),
                want == sampled(n as nat, count as nat),
                start == run_start(n as nat, count as nat, r as int),
                start + len <= n,
                out.len() == r * len + j,
                forall|i: int| 0 <= i < out.len() ==> #[trigger] out@[i] == want[i],
                forall|i: int| 0 <= i < out.len() ==> #[trigger] out@[i] < n,
            decreases len - j,
        {
            proof {
                let i = r * len + j;
                vstd::arithmetic::div_mod::lemma_fundamental_div_mod_converse(
                    i,
                    len as int,
                    r as int,
                    j as int,
                );
                assert(i < k * len) by (nonlinear_arith)
                    requires
                        i == r * len + j,
                        r < k,
                        j < len,
                ;
                assert(want[i] == start + j);
            }
            out.push(start + j);
            j = j + 1;
        }
        assert((r + 1) * len == r * len + len) by (nonlinear_arith);
        r = r + 1;
    }
    out
}

/// Every `step`-th value, from the first on.
pub open spec fn strided(vals: Seq<u64>, step: nat) -> Seq<u64> {
    Seq::new(
        ((vals.len() + step - 1) / step as int) as nat,
        |i: int| vals[i * step as int],
    )
}

/// The strided positions lie in the block.
pub proof fn lemma_strided_in_range(n: nat, step: nat, i: int)
    requires
        step > 0,
        0 <= i < (n + step - 1) / step as int,
    ensures
        0 <= i * step < n,
{
    assert(0 <= i * step < n) by (nonlinear_arith)
        requires
            step > 0,
            0 <= i < (n + step - 1) / step as int,
    ;
}

/// Every `step`-th value, from the first on.
pub fn stride_sample(vals: &[u64], step: usize) -> (out: Vec<u64>)
    requires
        step > 0,
    ensures
        out@ == strided(vals@, step as nat),
        vals.len() > 0 ==> out.len() > 0,
{
    let n = vals.len();
    let mut out: Vec<u64> = Vec::new();
    if n == 0 {
        assert((n + step - 1) as int / step as int == 0) by (nonlinear_arith)
            requires
                n == 0,
                step > 0,
        ;
        assert(out@ =~= strided(vals@, step as nat));
        return out;
    }
    let count: usize = (n - 1) / step + 1;
    proof {
        vstd::arithmetic::div_mod::lemma_div_plus_one(n - 1, step as int);
        assert((n + step - 1) as int / step as int == count);
    }
    let mut i: usize = 0;
    while i < count
        invariant
            i <= count,
            n == vals.len(),
            step > 0,
            count == (n + step - 1) as int / step as int,
            out.len() == i,
            forall|k: int| 0 <= k < i ==> #[trigger] out@[k] == vals@[k * step],
        decreases count - i,
    {
        proof {
            lemma_strided_in_range(n as nat, step as nat, i as int);
        }
        out.push(vals[i * step]);
        i = i + 1;
    }
    assert(out@ =~= strided(vals@, step as nat));
    out
}

} // verus!
