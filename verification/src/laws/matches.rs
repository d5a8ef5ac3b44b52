//! Laws of the LZ match finder.

use vstd::prelude::*;
use crate::bytes;
use crate::codecs::lz;
use crate::codecs::lz::Token;
use crate::laws::bitmaps;

verus! {

/// The `l` bytes from `i` on are those from `c` on.
pub open spec fn repeats(input: Seq<u8>, i: int, c: int, l: int) -> bool {
    forall|k: int| 0 <= k < l ==> #[trigger] input[i + k] == input[c + k]
}

/// The key under which the four bytes from `i` on are found again.
pub open spec fn key_at(input: Seq<u8>, i: int) -> int {
    let word = input[i] + 256 * input[i + 1] + 65536 * input[i + 2] + 16777216 * input[i + 3];
    (word * 2654435761) % 4294967296 / 32768
}

/// How many positions between `c` and `i` have the key of `c`.
pub open spec fn alike_between(input: Seq<u8>, c: int, i: int) -> nat
    decreases i - c,
{
    if i <= c + 1 {
        0
    } else {
        alike_between(input, c, i - 1) + (if key_at(input, i - 1) == key_at(input, c) {
            1nat
        } else {
            0nat
        })
    }
}

proof fn lemma_key(input: Seq<u8>, i: int)
    requires
        0 <= i,
        i + 4 <= input.len(),
    ensures
        lz::hash_at(input, i) == key_at(input, i),
{
    let s = input.subrange(i, i + 4);
    reveal_with_fuel(bytes::le_value, 5);
    let s1 = s.drop_first();
    let s2 = s1.drop_first();
    let s3 = s2.drop_first();
    assert(s[0] == input[i] && s1[0] == input[i + 1] && s2[0] == input[i + 2] && s3[0] == input[i
        + 3]);
    assert(s3.drop_first().len() == 0);
}

proof fn lemma_same_key(input: Seq<u8>, i: int, c: int, l: int)
    requires
        0 <= c < i,
        i + l <= input.len(),
        l >= 4,
        repeats(input, i, c, l),
    ensures
        key_at(input, i) == key_at(input, c),
        lz::hash_at(input, i) == lz::hash_at(input, c),
{
    lemma_key(input, i);
    lemma_key(input, c);
    assert(input[i + 0] == input[c + 0]);
    assert(input[i + 1] == input[c + 1]);
    assert(input[i + 2] == input[c + 2]);
    assert(input[i + 3] == input[c + 3]);
}

/// Equal bytes are counted, and only those.
proof fn lemma_common(input: Seq<u8>, i: int, c: int, l: int)
    requires
        0 <= c < i,
        0 <= l,
        i + l <= input.len(),
        repeats(input, i, c, l),
    ensures
        lz::common(input, i, c) >= l,
    decreases l,
{
    if l > 0 {
        assert(input[i + 0] == input[c + 0]);
        assert forall|k: int| 0 <= k < l - 1 implies #[trigger] input[i + 1 + k] == input[c + 1
            + k] by {
            assert(input[i + (1 + k)] == input[c + (1 + k)]);
        }
        lemma_common(input, i + 1, c + 1, l - 1);
    }
}

proof fn lemma_common_repeats(input: Seq<u8>, i: int, c: int)
    requires
        0 <= c < i <= input.len(),
    ensures
        i + lz::common(input, i, c) <= input.len(),
        repeats(input, i, c, lz::common(input, i, c) as int),
    decreases input.len() - i,
{
    if i < input.len() && input[i] == input[c] {
        lemma_common_repeats(input, i + 1, c + 1);
        let l = lz::common(input, i, c) as int;
        assert forall|k: int| 0 <= k < l implies #[trigger] input[i + k] == input[c + k] by {
            if k > 0 {
                assert(input[(i + 1) + (k - 1)] == input[(c + 1) + (k - 1)]);
            }
        }
    }
}

/// The latest position of a hash is no earlier than any such position, and none lies
/// between it and where the search began.
proof fn lemma_latest(input: Seq<u8>, i: int, h: int, c: int)
    requires
        0 <= c < i,
        c + 4 <= input.len(),
        lz::hash_at(input, c) == h,
    ensures
        c <= lz::latest(input, i, h) < i,
        lz::latest(input, i, h) + 4 <= input.len(),
        lz::hash_at(input, lz::latest(input, i, h)) == h,
        i + 3 <= input.len() ==> alike_between(input, c, i) == alike_between(
            input,
            c,
            lz::latest(input, i, h) + 1,
        ),
        forall|j: int|
            lz::latest(input, i, h) < j < i && j + 4 <= input.len() ==> #[trigger] lz::hash_at(
                input,
                j,
            ) != h,
    decreases i,
{
    if i + 3 <= input.len() && lz::hash_at(input, i - 1) == h {
    } else {
        assert(c < i - 1);
        lemma_latest(input, i - 1, h, c);
        if i + 3 <= input.len() {
            lemma_key(input, i - 1);
            lemma_key(input, c);
        }
    }
}

/// Before where nothing lies there is no position.
proof fn lemma_latest_bound(input: Seq<u8>, i: int, h: int)
    requires
        0 <= i,
    ensures
        -1 <= lz::latest(input, i, h) < i,
        lz::latest(input, i, h) >= 0 ==> lz::latest(input, i, h) + 4 <= input.len() && lz::hash_at(
            input,
            lz::latest(input, i, h),
        ) == h,
    decreases i,
{
    if i > 0 {
        lemma_latest_bound(input, i - 1, h);
    }
}

/// A match is a repeat: the bytes that it stands for came before, as many as it says.
proof fn lemma_longest_repeats(input: Seq<u8>, i: int, x: int, chain: nat, best: (nat, nat))
    requires
        -1 <= x < i <= input.len(),
        best.0 > 0 ==> 1 <= best.1 <= i && i + best.0 <= input.len() && repeats(
            input,
            i,
            i - best.1,
            best.0 as int,
        ),
    ensures
        ({
            let (len, off) = lz::longest(input, i, x, chain, best);
            &&& len >= best.0
            &&& len > 0 ==> 1 <= off <= i && i + len <= input.len() && repeats(
                input,
                i,
                i - off,
                len as int,
            )
        }),
    decreases chain,
{
    if x >= 0 && chain > 0 {
        lemma_common_repeats(input, i, x);
        let y = lz::latest(input, x, lz::hash_at(input, x));
        lemma_latest_bound(input, x, lz::hash_at(input, x));
        let len = lz::common(input, i, x);
        let next = if len > best.0 {
            (len, (i - x) as nat)
        } else {
            best
        };
        assert(i - next.1 == x || next == best);
        lemma_longest_repeats(input, i, y, (chain - 1) as nat, next);
    }
}

/// Every match repeats bytes that came before.
pub proof fn lemma_match_repeats(input: Seq<u8>, i: int)
    requires
        0 <= i <= input.len(),
    ensures
        ({
            let (len, off) = lz::match_at(input, i);
            len > 0 ==> 1 <= off <= i && i + len <= input.len() && repeats(
                input,
                i,
                i - off,
                len as int,
            )
        }),
{
    reveal(lz::match_at);
    if i + 4 <= input.len() {
        lemma_latest_bound(input, i, lz::hash_at(input, i));
        lemma_longest_repeats(
            input,
            i,
            lz::latest(input, i, lz::hash_at(input, i)),
            lz::MAX_CHAIN as nat,
            (0, 0),
        );
    }
}

/// A repeat within reach of the search is found in its full length.
proof fn lemma_longest_finds(
    input: Seq<u8>,
    i: int,
    x: int,
    chain: nat,
    best: (nat, nat),
    c: int,
    l: int,
)
    requires
        0 <= c <= x < i,
        i + l <= input.len(),
        l >= 4,
        repeats(input, i, c, l),
        lz::hash_at(input, x) == lz::hash_at(input, c),
        alike_between(input, c, x + 1) < chain,
    ensures
        lz::longest(input, i, x, chain, best).0 >= l,
    decreases chain,
{
    let len = lz::common(input, i, x);
    let h = lz::hash_at(input, x);
    let next = if len > best.0 {
        (len, (i - x) as nat)
    } else {
        best
    };
    let y = lz::latest(input, x, h);
    if x == c {
        lemma_common(input, i, c, l);
        lemma_longest_grows(input, i, y, (chain - 1) as nat, next);
    } else {
        lemma_latest(input, x, h, c);
        lemma_key(input, x);
        lemma_key(input, c);
        assert(alike_between(input, c, x + 1) == alike_between(input, c, x) + 1);
        lemma_longest_finds(input, i, y, (chain - 1) as nat, next, c, l);
    }
}

proof fn lemma_longest_grows(input: Seq<u8>, i: int, x: int, chain: nat, best: (nat, nat))
    ensures
        lz::longest(input, i, x, chain, best).0 >= best.0,
    decreases chain,
{
    if x >= 0 && chain > 0 {
        let len = lz::common(input, i, x);
        lemma_longest_grows(
            input,
            i,
            lz::latest(input, x, lz::hash_at(input, x)),
            (chain - 1) as nat,
            if len > best.0 {
                (len, (i - x) as nat)
            } else {
                best
            },
        );
    }
}

/// A repeat of four bytes or more is found in its full length at least, at any distance,
/// if fewer than sixty-four positions nearer have its key.
pub proof fn lemma_repeat_found(input: Seq<u8>, i: int, c: int, l: int)
    requires
        0 <= c < i,
        i + l <= input.len(),
        l >= 4,
        repeats(input, i, c, l),
        alike_between(input, c, i) < 64,
    ensures
        lz::match_at(input, i).0 >= l,
{
    reveal(lz::match_at);
    let h = lz::hash_at(input, i);
    lemma_same_key(input, i, c, l);
    lemma_latest(input, i, h, c);
    lemma_longest_finds(input, i, lz::latest(input, i, h), 64, (0, 0), c, l);
}

/// At a distance of up to sixty-four bytes every repeat of four bytes or more is found.
pub proof fn lemma_near_repeat_found(input: Seq<u8>, i: int, c: int, l: int)
    requires
        0 <= c < i <= c + 64,
        i + l <= input.len(),
        l >= 4,
        repeats(input, i, c, l),
    ensures
        lz::match_at(input, i).0 >= l,
{
    lemma_alike_bound(input, c, i);
    lemma_repeat_found(input, i, c, l);
}

proof fn lemma_alike_bound(input: Seq<u8>, c: int, i: int)
    requires
        c < i,
    ensures
        alike_between(input, c, i) <= i - c - 1,
    decreases i - c,
{
    if i > c + 1 {
        lemma_alike_bound(input, c, i - 1);
    }
}

/// Of several repeats the nearest of the longest is kept.
proof fn lemma_longest_nearest(
    input: Seq<u8>,
    i: int,
    x: int,
    chain: nat,
    best: (nat, nat),
    h: int,
)
    requires
        -1 <= x < i,
        x >= 0 ==> lz::hash_at(input, x) == h && x + 4 <= input.len(),
    ensures
        ({
            let (len, off) = lz::longest(input, i, x, chain, best);
            (len, off) != best ==> len > best.0 && i - off <= x && forall|c: int|
                i - off < c <= x && c + 4 <= input.len() && #[trigger] lz::hash_at(input, c) == h
                    ==> lz::common(input, i, c) < len
        }),
    decreases chain,
{
    if x >= 0 && chain > 0 {
        let y = lz::latest(input, x, h);
        lemma_latest_bound(input, x, h);
        let near = lz::common(input, i, x);
        let next = if near > best.0 {
            (near, (i - x) as nat)
        } else {
            best
        };
        lemma_longest_nearest(input, i, y, (chain - 1) as nat, next, h);
        let (len, off) = lz::longest(input, i, x, chain, best);
        assert((len, off) == lz::longest(input, i, y, (chain - 1) as nat, next));
        if (len, off) != best {
            assert forall|c: int|
                i - off < c <= x && c + 4 <= input.len() && #[trigger] lz::hash_at(input, c)
                    == h implies lz::common(input, i, c) < len by {
                if c < x {
                    if c >= 0 {
                        lemma_latest(input, x, h, c);
                    }
                }
            }
        }
    }
}

/// No nearer position repeats as many bytes as the match that is taken.
pub proof fn lemma_nearest_match(input: Seq<u8>, i: int, c: int)
    requires
        0 <= c < i <= input.len(),
        lz::match_at(input, i).0 >= 4,
        c > i - lz::match_at(input, i).1,
    ensures
        !repeats(input, i, c, lz::match_at(input, i).0 as int),
{
    lemma_match_repeats(input, i);
    let (len, off) = lz::match_at(input, i);
    if repeats(input, i, c, len as int) {
        reveal(lz::match_at);
        let h = lz::hash_at(input, i);
        lemma_same_key(input, i, c, len as int);
        lemma_latest(input, i, h, c);
        lemma_longest_nearest(input, i, lz::latest(input, i, h), lz::MAX_CHAIN as nat, (0, 0), h);
        lemma_common(input, i, c, len as int);
    }
}

/// How many bytes a token stands for.
pub open spec fn span_of(t: Token) -> int {
    match t {
        Token::Lit(_) => 1,
        Token::Match { off, len } => len as int,
    }
}

/// What is written at a position: a near repeat of four bytes or more becomes a match at
/// least as long, and a byte stands for itself only where no four bytes repeat nearby.
/// The next token begins where this one ends.
pub proof fn lemma_tokens(input: Seq<u8>, i: int)
    requires
        0 <= i < input.len() <= usize::MAX,
    ensures
        ({
            let ts = lz::tokens_from(input, i);
            let t = ts[0];
            &&& ts.len() > 0
            &&& 1 <= span_of(t) <= input.len() - i
            &&& ts.drop_first() == lz::tokens_from(input, i + span_of(t))
            &&& forall|c: int, l: int|
                0 <= c < i <= c + 64 && 4 <= l <= input.len() - i && #[trigger] repeats(
                    input,
                    i,
                    c,
                    l,
                ) ==> t is Match && span_of(t) >= l
            &&& t matches Token::Lit(b) ==> b == input[i]
            &&& t matches Token::Match { off, len } ==> len >= 4 && 1 <= off <= i && repeats(
                input,
                i,
                i - off,
                len as int,
            )
        }),
{
    lemma_match_repeats(input, i);
    let ts = lz::tokens_from(input, i);
    let (len, off) = lz::match_at(input, i);
    assert(ts.drop_first() =~= lz::tokens_from(input, i + span_of(ts[0])));
    assert forall|c: int, l: int|
        0 <= c < i <= c + 64 && 4 <= l <= input.len() - i && #[trigger] repeats(
            input,
            i,
            c,
            l,
        ) implies ts[0] is Match && span_of(ts[0]) >= l by {
        lemma_near_repeat_found(input, i, c, l);
    }
}

/// Bytes that are all alike are one literal and one match: the form takes the varint of
/// their number, three bytes and the varint of what the match is longer than four.
pub proof fn lemma_alike_bytes(input: Seq<u8>, b: u8)
    requires
        5 <= input.len() <= usize::MAX,
        forall|i: int| 0 <= i < input.len() ==> #[trigger] input[i] == b,
    ensures
        lz::lz_image(input).len() == bitmaps::septets(input.len()) + 3 + bitmaps::septets(
            (input.len() - 5) as nat,
        ),
{
    let n = input.len();
    let ts = lz::tokens_from(input, 0);
    lemma_tokens(input, 0);
    assert(span_of(ts[0]) == 1 && ts[0] is Lit);
    lemma_tokens(input, 1);
    assert(repeats(input, 1, 0, n - 1));
    let us = lz::tokens_from(input, 1);
    assert(us[0] is Match && span_of(us[0]) == n - 1);
    assert(us[0]->off == 1);
    assert(lz::tokens_from(input, n as int) =~= Seq::empty());
    assert(us.len() == 1) by {
        assert(us.drop_first().len() == 0);
    }
    assert(ts.len() == 2) by {
        assert(ts.drop_first().len() == 1);
    }
    assert(ts[1] == us[0]) by {
        assert(ts.drop_first()[0] == ts[1]);
    }
    reveal_with_fuel(lz::run_bytes, 3);
    reveal_with_fuel(lz::group_bytes, 2);
    bitmaps::lemma_septets(n);
    bitmaps::lemma_septets(1);
    bitmaps::lemma_septets((n - 5) as nat);
}

} // verus!
