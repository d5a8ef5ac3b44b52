//! What readers accept and what they refuse.

use vstd::prelude::*;
use vstd::arithmetic::power2::*;
use crate::bytes;
use crate::codecs::pred::{Flavor, Predictor};
use crate::codecs::{const_block, linear, pred, raw, stride, xorz};
use crate::decoder;
use crate::decoder::FrameView;
use crate::dtype;
use crate::encoder;
use crate::entropy;
use crate::entropy::{rans, rc};
use crate::error::Error;
use crate::format::Header;
use crate::lane::Lane;
use crate::laws::wire;
use crate::varint;

verus! {

/// A header is read exactly if it is sixteen bytes that begin with the four letters, have
/// version three or, for a 64-bit type, two, no flags but those of nulls and of a shared
/// dictionary, a predictor table of ten to sixteen bits and one of the eight types. What it
/// says is what these bytes say.
pub proof fn lemma_header_read(s: Seq<u8>)
    ensures
        ({
            let r = crate::format::header_parse(s);
            &&& r is Ok <==> s.len() >= 16 && s[0] == 0x46 && s[1] == 0x43 && s[2] == 0x52 && s[3]
                == 0x31 && (s[5] == 0 || s[5] == 1 || s[5] == 4 || s[5] == 5) && 10 <= s[6] <= 16
                && s[7] <= 7 && (s[4] == 3 || (s[4] == 2 && s[7] != 3 && s[7] != 4 && s[7] != 5))
            &&& r matches Ok(h) ==> h.predictor_log2 == s[6] && wire::type_number(h.dtype) == s[7]
                && (h.has_validity <==> s[5] == 1 || s[5] == 5) && (h.has_shared_dict <==> s[5] == 4
                || s[5] == 5)
        }),
{
    if s.len() >= 16 {
        assert(s.take(4) == crate::format::magic() <==> s[0] == 0x46 && s[1] == 0x43 && s[2] == 0x52
            && s[3] == 0x31) by {
            let m = crate::format::magic();
            if s[0] == 0x46 && s[1] == 0x43 && s[2] == 0x52 && s[3] == 0x31 {
                assert(s.take(4) =~= m);
            }
            if s.take(4) == m {
                assert(m[0] == s[0] && m[1] == s[1] && m[2] == s[2] && m[3] == s[3]);
            }
        }
    }
    if let Ok(t) = dtype::dtype_of_wire(s[7]) {
        wire::lemma_numbers(t, crate::mode::Mode::Raw, s[7]);
        wire::lemma_types(t);
    }
}

/// What is wrong with a header is told in this order: too short, not the four letters, a
/// version out of range, unknown flags, a table size out of range, an unknown type, and a
/// type that the version does not have.
pub proof fn lemma_header_refused(s: Seq<u8>)
    ensures
        ({
            let r = crate::format::header_parse(s);
            let lettered = s.len() >= 16 && s.take(4) == seq![0x46u8, 0x43u8, 0x52u8, 0x31u8];
            let versioned = lettered && (s[4] == 2 || s[4] == 3);
            let flagged = versioned && (s[5] == 0 || s[5] == 1 || s[5] == 4 || s[5] == 5);
            let sized = flagged && 10 <= s[6] <= 16;
            &&& s.len() < 16 ==> r == Err::<Header, Error>(Error::Truncated)
            &&& s.len() >= 16 && !lettered ==> r == Err::<Header, Error>(Error::BadMagic)
            &&& lettered && !versioned ==> r == Err::<Header, Error>(Error::UnsupportedVersion(s[4]))
            &&& versioned && !flagged ==> r == Err::<Header, Error>(
                Error::CorruptPayload("unknown header flags"),
            )
            &&& flagged && !sized ==> r == Err::<Header, Error>(
                Error::CorruptPayload("predictor_log2 out of range"),
            )
            &&& sized && s[7] > 7 ==> r == Err::<Header, Error>(Error::UnsupportedDType(s[7]))
            &&& sized && s[4] == 2 && 3 <= s[7] <= 5 ==> r == Err::<Header, Error>(
                Error::UnsupportedVersion(2),
            )
        }),
{
    if let Ok(t) = dtype::dtype_of_wire(s[7]) {
        wire::lemma_numbers(t, crate::mode::Mode::Raw, s[7]);
        wire::lemma_types(t);
    }
}

/// The number that the first `k` bytes of `s` spell, seven bits each, the lowest first.
pub open spec fn septets_value(s: Seq<u8>, k: nat) -> nat
    decreases k,
{
    if k == 0 {
        0
    } else {
        septets_value(s, (k - 1) as nat) + (s[k - 1] as nat % 128) * pow2((7 * (k - 1)) as nat)
    }
}

proof fn lemma_septets_shift(s: Seq<u8>, k: nat)
    requires
        0 < k <= s.len(),
    ensures
        septets_value(s, k) == s[0] as nat % 128 + 128 * septets_value(
            s.drop_first(),
            (k - 1) as nat,
        ),
    decreases k,
{
    lemma2_to64();
    let t = s.drop_first();
    let a = (s[k - 1] as nat % 128) as int;
    if k == 1 {
        assert(septets_value(s, 0) == 0 && septets_value(t, 0) == 0);
        assert(septets_value(s, 1) == a * pow2(0));
        assert(a * 1 == a);
    } else {
        lemma_septets_shift(s, (k - 1) as nat);
        let p = pow2((7 * (k - 2)) as nat) as int;
        let b = septets_value(t, (k - 2) as nat) as int;
        lemma_pow2_adds(7, (7 * (k - 2)) as nat);
        assert(7 + (7 * (k - 2)) as nat == (7 * (k - 1)) as nat);
        assert(pow2((7 * (k - 1)) as nat) == 128 * p);
        assert(t[k - 2] == s[k - 1]);
        assert(septets_value(t, (k - 1) as nat) == b + a * p);
        assert(septets_value(s, k) == septets_value(s, (k - 1) as nat) + a * (128 * p));
        assert(a * (128 * p) == 128 * (a * p)) by (nonlinear_arith);
    }
}

proof fn lemma_groups_read(s: Seq<u8>, groups: nat, k: nat)
    requires
        0 < k <= s.len(),
        groups + k <= 10,
        s[k - 1] < 128,
        forall|i: int| 0 <= i < k - 1 ==> #[trigger] s[i] >= 128,
    ensures
        varint::varint_groups(s, groups) == Ok::<_, Error>((septets_value(s, k), s.skip(k as int))),
    decreases k,
{
    lemma_septets_shift(s, k);
    let t = s.drop_first();
    if k == 1 {
        assert(s.skip(1) =~= t);
        assert(septets_value(t, 0) == 0);
    } else {
        assert(s[0] >= 128);
        assert forall|i: int| 0 <= i < k - 2 implies #[trigger] t[i] >= 128 by {
            assert(t[i] == s[i + 1]);
        }
        lemma_groups_read(t, groups + 1, (k - 1) as nat);
        assert(t.skip(k - 1) =~= s.skip(k as int));
    }
}

/// A varint ends with its first byte below 128, which is one of the first ten. It is the
/// number that its bytes spell, seven bits each, the lowest first, without what exceeds 64
/// bits. Longer forms than needed are read too.
pub proof fn lemma_varint_read(s: Seq<u8>, k: nat)
    requires
        0 < k <= s.len(),
        k <= 10,
        s[k - 1] < 128,
        forall|i: int| 0 <= i < k - 1 ==> #[trigger] s[i] >= 128,
    ensures
        varint::varint_parse(s) == Ok::<_, Error>(
            ((septets_value(s, k) % 0x1_0000_0000_0000_0000) as u64, s.skip(k as int)),
        ),
{
    lemma_groups_read(s, 0, k);
}

proof fn lemma_groups_refused(s: Seq<u8>, groups: nat)
    requires
        groups <= 9,
        forall|i: int| 0 <= i < s.len() && i < 10 - groups ==> #[trigger] s[i] >= 128,
    ensures
        varint::varint_groups(s, groups) == Err::<(nat, Seq<u8>), Error>(
            if s.len() < 10 - groups {
                Error::Truncated
            } else {
                Error::CorruptPayload("leb128 overflow")
            },
        ),
    decreases s.len(),
{
    if s.len() > 0 && groups < 9 {
        let t = s.drop_first();
        assert(s[0] >= 128);
        assert forall|i: int| 0 <= i < t.len() && i < 9 - groups implies #[trigger] t[i] >= 128 by {
            assert(t[i] == s[i + 1]);
        }
        lemma_groups_refused(t, groups + 1);
    }
}

/// Where no byte below 128 comes, a varint is cut short, or too long after ten bytes.
pub proof fn lemma_varint_refused(s: Seq<u8>)
    requires
        forall|i: int| 0 <= i < s.len() && i < 10 ==> #[trigger] s[i] >= 128,
    ensures
        varint::varint_parse(s) == Err::<(u64, Seq<u8>), Error>(
            if s.len() < 10 {
                Error::Truncated
            } else {
                Error::CorruptPayload("leb128 overflow")
            },
        ),
{
    lemma_groups_refused(s, 0);
}

/// Frames that are cut short anywhere are refused as such.
pub proof fn lemma_cut_frames_refused(frames: Seq<FrameView>, limit: nat, k: nat)
    requires
        forall|i: int|
            0 <= i < frames.len() ==> encoder::frame_storable(#[trigger] frames[i], limit),
        k < encoder::frames_image(frames).len(),
    ensures
        decoder::frames_parse(
            encoder::frames_image(frames).take(k as int),
            decoder::frames_total(frames),
            limit,
        ) == Err::<Seq<FrameView>, Error>(Error::Truncated),
    decreases frames.len(),
{
    let f = frames[0];
    let more = frames.drop_first();
    assert(encoder::frame_storable(f, limit));
    let whole = encoder::frames_image(frames);
    let s = whole.take(k as int);
    let len = f.payload.len() as int;
    encoder::lemma_frame_fields(f, encoder::frames_image(more));
    if k >= 9 {
        assert(s.subrange(1, 5) =~= whole.subrange(1, 5));
        assert(s.subrange(5, 9) =~= whole.subrange(5, 9));
        if k >= 9 + len {
            assert forall|i: int| 0 <= i < more.len() implies encoder::frame_storable(
                #[trigger] more[i],
                limit,
            ) by {
                assert(encoder::frame_storable(frames[i + 1], limit));
            }
            lemma_cut_frames_refused(more, limit, (k - 9 - len) as nat);
            assert(s.skip(9 + len) =~= encoder::frames_image(more).take(k - 9 - len));
        }
    }
}

/// What follows the last frame is left alone.
pub proof fn lemma_frames_end(s: Seq<u8>, left: nat, limit: nat, tail: Seq<u8>)
    requires
        decoder::frames_parse(s, left, limit) is Ok,
    ensures
        decoder::frames_parse(s + tail, left, limit) == decoder::frames_parse(s, left, limit),
    decreases s.len(),
{
    if left > 0 {
        let w = s + tail;
        let n = bytes::le_value(s.subrange(1, 5));
        let len = bytes::le_value(s.subrange(5, 9)) as int;
        assert(w.subrange(1, 5) =~= s.subrange(1, 5));
        assert(w.subrange(5, 9) =~= s.subrange(5, 9));
        assert(w.subrange(9, 9 + len) =~= s.subrange(9, 9 + len));
        assert(w.skip(9 + len) =~= s.skip(9 + len) + tail);
        lemma_frames_end(s.skip(9 + len), (left - n) as nat, limit, tail);
    }
}

/// Every frame holds at most as many values as a block may, and together they hold as many
/// as there are.
pub proof fn lemma_frames_bounded(s: Seq<u8>, left: nat, limit: nat, i: int)
    requires
        decoder::frames_parse(s, left, limit) is Ok,
        0 <= i < decoder::frames_parse(s, left, limit)->Ok_0.len(),
    ensures
        decoder::frames_parse(s, left, limit)->Ok_0[i].n <= limit,
        decoder::frames_total(decoder::frames_parse(s, left, limit)->Ok_0) == left,
    decreases s.len(),
{
    decoder::lemma_frames_total(s, left, limit);
    if left > 0 && i > 0 {
        let n = bytes::le_value(s.subrange(1, 5));
        let len = bytes::le_value(s.subrange(5, 9)) as int;
        let rest = s.skip(9 + len);
        lemma_frames_bounded(rest, (left - n) as nat, limit, i - 1);
    }
}

/// Verbatim words, a constant and a progression are read from payloads of exactly their
/// size.
pub proof fn lemma_fixed_payloads(lane: Lane, payload: Seq<u8>, n: nat)
    ensures
        raw::raw_decoded(lane, payload, n) is Ok <==> payload.len() == n * (if lane is W32 {
            4nat
        } else {
            8nat
        }),
        const_block::const_decoded(lane, payload, n) is Ok <==> payload.len() == (if lane is W32 {
            4nat
        } else {
            8nat
        }),
        stride::stride_decoded(lane, payload, n) is Ok <==> payload.len() == (if lane is W32 {
            8nat
        } else {
            16nat
        }),
        const_block::const_decoded(lane, payload, n) matches Ok(v) ==> v.len() == n && forall|
            i: int,
        |
            0 <= i < n ==> #[trigger] v[i] == bytes::le_value(payload),
{
    bytes::lemma_le_value_bound(payload);
    bytes::lemma_pow256_values();
}

proof fn lemma_read_bytes_len(d: rc::Reading, probs: Seq<u16>, ctx: u8, n: nat)
    ensures
        rc::read_bytes(d, probs, ctx, n).len() == n,
    decreases n,
{
    if n > 0 {
        let (d2, probs2, node) = rc::read_tree(d, probs, (ctx * 256) as nat, 1, 8);
        lemma_read_bytes_len(d2, probs2, (node % 256) as u8, (n - 1) as nat);
    }
}

proof fn lemma_symbols_len(freq: Seq<u32>, x: Seq<nat>, i: nat, n: nat, s: Seq<u8>)
    requires
        i <= n,
    ensures
        rans::rans_symbols(freq, x, i, n, s) matches Some(r) ==> r.len() == n - i,
    decreases n - i,
{
    if i < n {
        let xi = x[(i % 4) as int];
        if let Some((next, rest)) = rans::refilled(rans::advanced(freq, xi), s) {
            lemma_symbols_len(freq, x.update((i % 4) as int, next), i + 1, n, rest);
        }
    }
}

/// Both coders give as many bytes as the stream announces, and refuse to announce more than
/// is asked for.
pub proof fn lemma_announced_length(s: Seq<u8>, most: nat)
    ensures
        rc::rc_decoded(s, most) matches Ok(r) ==> r.len() <= most && varint::varint_parse(s)->Ok_0.0
            == r.len(),
        rans::rans_decoded(s, most) matches Ok(r) ==> r.len() <= most && varint::varint_parse(
            s,
        )->Ok_0.0 == r.len(),
        varint::varint_parse(s) matches Ok((n, _)) ==> n > most ==> rc::rc_decoded(s, most) is Err
            && rans::rans_decoded(s, most) is Err,
{
    if let Ok((n, rest)) = varint::varint_parse(s) {
        lemma_read_bytes_len(rc::reading_start(rest), rc::fresh_model(), 0, n as nat);
        if let Ok((k, s2)) = varint::varint_parse(rest) {
            if let Ok((freq, sum, s3)) = rans::rans_table(
                s2,
                k as nat,
                Seq::new(256, |j: int| 0u32),
                0,
            ) {
                lemma_symbols_len(freq, rans::rans_states(s3), 0, n as nat, s3.skip(16));
            }
        }
    }
}

/// A coded stream is told by its first byte: zero for the range coder, two for rANS; none
/// and a number above three are refused.
pub proof fn lemma_coder_tags(tag: u8, rest: Seq<u8>, most: nat)
    ensures
        tag == 0 ==> entropy::residuals_decoded(seq![tag] + rest, most) == rc::rc_decoded(
            rest,
            most,
        ),
        tag == 2 ==> entropy::residuals_decoded(seq![tag] + rest, most) == rans::rans_decoded(
            rest,
            most,
        ),
        tag > 3 ==> entropy::residuals_decoded(seq![tag] + rest, most) == Err::<Seq<u8>, Error>(
            Error::CorruptPayload("unknown entropy tag"),
        ),
        entropy::residuals_decoded(Seq::empty(), most) == Err::<Seq<u8>, Error>(Error::Truncated),
{
    reveal(entropy::residuals_decoded);
    assert((seq![tag] + rest).drop_first() =~= rest);
}

proof fn lemma_groups_extend(s: Seq<u8>, groups: nat, tail: Seq<u8>)
    requires
        varint::varint_groups(s, groups) is Ok,
    ensures
        varint::varint_groups(s + tail, groups) == Ok::<_, Error>(
            (
                varint::varint_groups(s, groups)->Ok_0.0,
                varint::varint_groups(s, groups)->Ok_0.1 + tail,
            ),
        ),
    decreases s.len(),
{
    assert((s + tail).drop_first() =~= s.drop_first() + tail);
    if s[0] >= 128 {
        lemma_groups_extend(s.drop_first(), groups + 1, tail);
    }
}

/// What follows a varint does not change it.
pub proof fn lemma_varint_ends(s: Seq<u8>, tail: Seq<u8>)
    requires
        varint::varint_parse(s) is Ok,
    ensures
        varint::varint_parse(s + tail) == Ok::<_, Error>(
            (varint::varint_parse(s)->Ok_0.0, varint::varint_parse(s)->Ok_0.1 + tail),
        ),
{
    lemma_groups_extend(s, 0, tail);
}

/// A chain of exclusive-ors with anything after it is refused.
pub proof fn lemma_chain_is_whole(
    lane: Lane,
    s: Seq<u8>,
    n: nat,
    prev: u64,
    trailing: Error,
    tail: Seq<u8>,
)
    requires
        xorz::xorz_parse(lane, s, n, prev, trailing) is Ok,
        tail.len() > 0,
    ensures
        xorz::xorz_parse(lane, s + tail, n, prev, trailing) == Err::<Seq<u64>, Error>(trailing),
    decreases n,
{
    if n > 0 {
        lemma_varint_ends(s, tail);
        let (x, rest) = varint::varint_parse(s)->Ok_0;
        lemma_chain_is_whole(lane, rest, (n - 1) as nat, x ^ prev, trailing, tail);
    }
}

/// A list of varints with anything after it is refused.
pub proof fn lemma_list_is_whole(lane: Lane, s: Seq<u8>, n: nat, trailing: Error, tail: Seq<u8>)
    requires
        linear::words_parse(lane, s, n, trailing) is Ok,
        tail.len() > 0,
    ensures
        linear::words_parse(lane, s + tail, n, trailing) == Err::<Seq<u64>, Error>(trailing),
    decreases n,
{
    if n > 0 {
        lemma_varint_ends(s, tail);
        let (x, rest) = varint::varint_parse(s)->Ok_0;
        lemma_list_is_whole(lane, rest, (n - 1) as nat, trailing, tail);
    }
}

/// Second differences with anything after them are refused.
pub proof fn lemma_differences_are_whole(
    lane: Lane,
    s: Seq<u8>,
    n: nat,
    p1: u64,
    p2: u64,
    seen: nat,
    tail: Seq<u8>,
)
    requires
        linear::idelta2_parse(lane, s, n, p1, p2, seen) is Ok,
        tail.len() > 0,
    ensures
        linear::idelta2_parse(lane, s + tail, n, p1, p2, seen) == Err::<Seq<u64>, Error>(
            Error::CorruptPayload("idelta2 trailing bytes"),
        ),
    decreases n,
{
    if n > 0 {
        lemma_varint_ends(s, tail);
        let (z, rest) = varint::varint_parse(s)->Ok_0;
        let v = lane.sum(linear::extrapolated(lane, p1, p2, seen), lane.unzigzagged(z));
        lemma_differences_are_whole(lane, rest, (n - 1) as nat, v, p1, seen + 1, tail);
    }
}

/// The residuals of a predictor with anything after them are refused.
pub proof fn lemma_residuals_are_whole(
    lane: Lane,
    flavor: Flavor,
    s: Seq<u8>,
    n: nat,
    p: Predictor,
    log2: u8,
    tail: Seq<u8>,
)
    requires
        pred::residual_parse(lane, flavor, s, n, p, log2) is Ok,
        tail.len() > 0,
    ensures
        pred::residual_parse(lane, flavor, s + tail, n, p, log2) is Err,
    decreases n,
{
    if n > 0 {
        lemma_varint_ends(s, tail);
        let (x, rest) = varint::varint_parse(s)->Ok_0;
        let v = x ^ pred::predicted(lane, flavor, p);
        lemma_residuals_are_whole(
            lane,
            flavor,
            rest,
            (n - 1) as nat,
            pred::advanced(lane, flavor, p, v, log2),
            log2,
            tail,
        );
    }
}

/// On the 32-bit lane a stored number of more than 32 bits is refused.
pub proof fn lemma_wide_refused(x: u64, rest: Seq<u8>, n: nat, trailing: Error)
    requires
        x >= 0x1_0000_0000,
        n > 0,
    ensures
        ({
            let s = varint::varint_bytes(x as nat) + rest;
            let refused = Err::<Seq<u64>, Error>(
                Error::CorruptPayload("value exceeds 32-bit lane"),
            );
            &&& xorz::xorz_parse(Lane::W32, s, n, 0, trailing) == refused
            &&& linear::words_parse(Lane::W32, s, n, trailing) == refused
            &&& linear::idelta2_parse(Lane::W32, s, n, 0, 0, 0) == refused
        }),
{
    varint::lemma_varint_roundtrip(x, rest);
}

} // verus!
