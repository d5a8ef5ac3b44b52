//! Byte transpose between array-of-structs and struct-of-arrays layouts.

use vstd::prelude::*;

verus! {

/// `n` records of `w` bytes regrouped into `w` planes of `n` bytes: byte `p` of
/// record `i` moves to place `i` of plane `p`.
pub open spec fn transposed(s: Seq<u8>, n: nat, w: nat) -> Seq<u8> {
    Seq::new(n * w, |k: int| s[(k % n as int) * w + k / n as int])
}

/// The source index of place `k` lies inside the input.
pub proof fn lemma_transpose_index(k: int, n: int, w: int)
    requires
        0 <= k < n * w,
        0 <= w,
        0 <= n,
    ensures
        n > 0,
        w > 0,
        0 <= k % n < n,
        0 <= k / n < w,
        0 <= (k % n) * w + k / n < n * w,
{
    assert(n > 0 && w > 0) by (nonlinear_arith)
        requires
            0 <= k < n * w,
            0 <= w,
            0 <= n,
    ;
    vstd::arithmetic::div_mod::lemma_fundamental_div_mod(k, n);
    vstd::arithmetic::div_mod::lemma_mod_bound(k, n);
    let q = k / n;
    let r = k % n;
    assert(0 <= q) by (nonlinear_arith)
        requires
            k == n * q + r,
            r < n,
            0 <= k,
            n > 0,
    ;
    assert(q < w) by (nonlinear_arith)
        requires
            k == n * q + r,
            0 <= r,
            k < n * w,
            n > 0,
    ;
    assert(r * w + q < n * w) by (nonlinear_arith)
        requires
            0 <= r <= n - 1,
            q < w,
            w > 0,
    ;
    assert(0 <= r * w) by (nonlinear_arith)
        requires
            0 <= r,
            0 < w,
    ;
}

/// Transposing with the two sizes exchanged undoes a transpose.
pub proof fn lemma_transpose_roundtrip(s: Seq<u8>, n: nat, w: nat)
    requires
        s.len() == n * w,
    ensures
        transposed(transposed(s, n, w), w, n) == s,
{
    let t = transposed(s, n, w);
    assert(n * w == w * n) by (nonlinear_arith);
    let u = transposed(t, w, n);
    assert forall|k: int| 0 <= k < s.len() implies u[k] == s[k] by {
        let (ni, wi) = (n as int, w as int);
        lemma_transpose_index(k, wi, ni);
        let j = (k % wi) * ni + k / wi;
        lemma_transpose_index(j, ni, wi);
        vstd::arithmetic::div_mod::lemma_fundamental_div_mod_converse(j, ni, k % wi, k / wi);
        vstd::arithmetic::div_mod::lemma_fundamental_div_mod(k, wi);
        assert((k / wi) * wi == wi * (k / wi)) by (nonlinear_arith);
    }
    assert(u =~= s);
}

/// Regroup `n` records of `w` bytes into `w` contiguous byte planes.
pub fn byte_transpose(src: &[u8], n: usize, w: usize, dst: &mut [u8])
    requires
        src.len() == n * w,
        old(dst)@.len() == n * w,
    ensures
        final(dst)@ == transposed(src@, n as nat, w as nat),
{
    let total = src.len();
    let mut k: usize = 0;
    while k < total
        invariant
            k <= total,
            total == n * w,
            src.len() == total,
            dst@.len() == total,
            forall|j: int| 0 <= j < k ==> dst@[j] == #[trigger] transposed(src@, n as nat, w as nat)[j],
        decreases total - k,
    {
        proof {
            lemma_transpose_index(k as int, n as int, w as int);
        }
        let record: usize = k % n;
        let place: usize = k / n;
        dst[k] = src[record * w + place];
        k = k + 1;
    }
    assert(dst@ =~= transposed(src@, n as nat, w as nat));
}

/// Inverse of [`byte_transpose`].
pub fn byte_untranspose(src: &[u8], n: usize, w: usize, dst: &mut [u8])
    requires
        src.len() == n * w,
        old(dst)@.len() == n * w,
    ensures
        final(dst)@ == transposed(src@, w as nat, n as nat),
{
    assert(n * w == w * n) by (nonlinear_arith);
    byte_transpose(src, w, n, dst);
}

} // verus!
