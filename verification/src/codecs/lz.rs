//! Byte-level LZ77 over a block's little-endian bytes. Targets blocks where
//! whole values or byte runs recur; the caller entropy-codes the token stream.
//!
//! Framing: `varint(length)`, then groups of a control byte with eight flags
//! (most significant first) and their tokens. A set flag is a match
//! `(varint offset, varint length - 4)`, a clear flag a literal byte. A match
//! may overlap the bytes it produces (offset below length).

use vstd::prelude::*;
use vstd::arithmetic::power2::*;
use crate::bitio;
use crate::bytes;
use crate::bytes::read_le;
use crate::error;
use crate::error::Error;
use crate::lane::Lane;
use crate::varint;

verus! {

/// Shortest match worth a token.
pub const MIN_MATCH: usize = 4;

/// Longest chain of candidates followed for one position.
pub const MAX_CHAIN: usize = 64;

/// Entries of the match finder's hash table.
pub const HASH_SIZE: usize = 131072;

/// `out` extended by `len` bytes copied from `off` bytes back, the copy running
/// into its own output when `off < len`.
pub open spec fn copied(out: Seq<u8>, off: nat, len: nat) -> Seq<u8> {
    out + Seq::new(len, |j: int| out[out.len() - off + j % off as int])
}

/// The flag that `left` more flags of `ctrl` start with.
pub open spec fn flag(ctrl: u8, left: nat) -> bool {
    bitio::bits_of(ctrl as nat, 8)[8 - left]
}

/// Run tokens from `s` until `n` bytes are out; `left` flags of the control byte
/// `ctrl` are still unused.
pub open spec fn lz_tokens(s: Seq<u8>, n: nat, out: Seq<u8>, ctrl: u8, left: nat) -> Result<
    Seq<u8>,
    Error,
>
    decreases
        n - out.len(),
        (if left == 0 {
            9nat
        } else {
            left
        }),
{
    if out.len() >= n {
        Ok(out)
    } else if left == 0 {
        if s.len() == 0 {
            Err(Error::Truncated)
        } else {
            lz_tokens(s.drop_first(), n, out, s[0], 8)
        }
    } else if flag(ctrl, left) {
        match varint::varint_parse(s) {
            Err(e) => Err(e),
            Ok((off, s1)) => match varint::varint_parse(s1) {
                Err(e) => Err(e),
                Ok((extra, s2)) => {
                    let len = (extra + MIN_MATCH) as nat;
                    if off == 0 || off > out.len() {
                        Err(Error::CorruptPayload("lz bad offset"))
                    } else if out.len() + len > n {
                        Err(Error::CorruptPayload("lz match overruns output"))
                    } else {
                        lz_tokens(s2, n, copied(out, off as nat, len), ctrl, (left - 1) as nat)
                    }
                },
            },
        }
    } else if s.len() == 0 {
        Err(Error::Truncated)
    } else {
        lz_tokens(s.drop_first(), n, out.push(s[0]), ctrl, (left - 1) as nat)
    }
}

/// The bytes coded by `stream`, which must be `expected` of them.
pub open spec fn lz_decoded(stream: Seq<u8>, expected: nat) -> Result<Seq<u8>, Error> {
    match varint::varint_parse(stream) {
        Err(e) => Err(e),
        Ok((n, rest)) => if n != expected {
            Err(Error::CorruptPayload("lz length mismatch"))
        } else {
            lz_tokens(rest, n as nat, Seq::empty(), 0, 0)
        },
    }
}

proof fn lemma_tokens_len(s: Seq<u8>, n: nat, out: Seq<u8>, ctrl: u8, left: nat)
    requires
        out.len() <= n,
    ensures
        lz_tokens(s, n, out, ctrl, left) matches Ok(r) ==> r.len() == n,
    decreases
        n - out.len(),
        (if left == 0 {
            9nat
        } else {
            left
        }),
{
    if out.len() < n {
        if left == 0 {
            if s.len() > 0 {
                lemma_tokens_len(s.drop_first(), n, out, s[0], 8);
            }
        } else if flag(ctrl, left) {
            if let Ok((off, s1)) = varint::varint_parse(s) {
                if let Ok((extra, s2)) = varint::varint_parse(s1) {
                    let len = (extra + MIN_MATCH) as nat;
                    if off != 0 && off <= out.len() && out.len() + len <= n {
                        lemma_tokens_len(
                            s2,
                            n,
                            copied(out, off as nat, len),
                            ctrl,
                            (left - 1) as nat,
                        );
                    }
                }
            }
        } else if s.len() > 0 {
            lemma_tokens_len(s.drop_first(), n, out.push(s[0]), ctrl, (left - 1) as nat);
        }
    }
}

/// A stream that decodes gives as many bytes as were asked for.
pub proof fn lemma_lz_decoded_len(stream: Seq<u8>, expected: nat)
    ensures
        lz_decoded(stream, expected) matches Ok(r) ==> r.len() == expected,
{
    if let Ok((n, rest)) = varint::varint_parse(stream) {
        lemma_tokens_len(rest, n as nat, Seq::empty(), 0, 0);
    }
}

/// One step of the token stream.
#[derive(Clone, Copy)]
pub enum Token {
    Lit(u8),
    Match { off: usize, len: usize },
}

spec fn applied(out: Seq<u8>, t: Token) -> Seq<u8> {
    match t {
        Token::Lit(b) => out.push(b),
        Token::Match { off, len } => copied(out, off as nat, len as nat),
    }
}

#[verifier::opaque]
spec fn expanded(ts: Seq<Token>) -> Seq<u8>
    decreases ts.len(),
{
    if ts.len() == 0 {
        Seq::empty()
    } else {
        applied(expanded(ts.drop_last()), ts.last())
    }
}

/// A token that makes sense after `at` bytes.
spec fn token_ok(t: Token, at: nat) -> bool {
    match t {
        Token::Lit(_) => true,
        Token::Match { off, len } => 1 <= off <= at && len >= MIN_MATCH,
    }
}

spec fn tokens_ok(ts: Seq<Token>) -> bool {
    forall|k: int| 0 <= k < ts.len() ==> token_ok(#[trigger] ts[k], expanded(ts.take(k)).len())
}

/// The bytes of a token.
pub open spec fn token_bytes(t: Token) -> Seq<u8> {
    match t {
        Token::Lit(b) => seq![b],
        Token::Match { off, len } => varint::varint_bytes(off as nat) + varint::varint_bytes(
            (len - MIN_MATCH) as nat,
        ),
    }
}

/// The bytes of tokens `a..b`.
pub open spec fn run_bytes(ts: Seq<Token>, a: int, b: int) -> Seq<u8>
    decreases b - a,
{
    if a >= b {
        Seq::empty()
    } else {
        token_bytes(ts[a]) + run_bytes(ts, a + 1, b)
    }
}

/// Where the group that starts at token `a` ends.
pub open spec fn group_end(ts: Seq<Token>, a: int) -> int {
    if a + 8 <= ts.len() {
        a + 8
    } else {
        ts.len() as int
    }
}

/// The flags of the group that starts at token `a`: which tokens are matches.
pub open spec fn group_flags(ts: Seq<Token>, a: int) -> Seq<bool> {
    Seq::new(8, |k: int| a + k < ts.len() && ts[a + k] is Match)
}

/// The control byte of the group that starts at token `a`.
pub open spec fn group_ctrl(ts: Seq<Token>, a: int) -> u8 {
    bitio::bits_value(group_flags(ts, a)) as u8
}

/// The groups from token `a` on.
pub open spec fn group_bytes(ts: Seq<Token>, a: int) -> Seq<u8>
    decreases ts.len() - a,
{
    if a < 0 || a >= ts.len() {
        Seq::empty()
    } else {
        seq![group_ctrl(ts, a)] + run_bytes(ts, a, group_end(ts, a)) + group_bytes(
            ts,
            group_end(ts, a),
        )
    }
}

proof fn lemma_expanded_step(ts: Seq<Token>, k: int)
    requires
        0 <= k < ts.len(),
    ensures
        expanded(ts.take(k + 1)) == applied(expanded(ts.take(k)), ts[k]),
{
    reveal(expanded);
    assert(ts.take(k + 1).drop_last() =~= ts.take(k));
}

proof fn lemma_expanded_grows(ts: Seq<Token>, a: int, b: int)
    requires
        0 <= a <= b <= ts.len(),
        tokens_ok(ts),
    ensures
        expanded(ts.take(a)).len() + (b - a) <= expanded(ts.take(b)).len(),
    decreases b - a,
{
    if a < b {
        lemma_expanded_grows(ts, a, b - 1);
        lemma_expanded_step(ts, b - 1);
        assert(token_ok(ts[b - 1], expanded(ts.take(b - 1)).len()));
    }
}

proof fn lemma_flag(ts: Seq<Token>, a: int, k: int)
    requires
        0 <= a,
        0 <= k < 8,
    ensures
        flag(group_ctrl(ts, a), (8 - k) as nat) == group_flags(ts, a)[k],
{
    let f = group_flags(ts, a);
    bitio::lemma_value_roundtrip(f);
    lemma2_to64();
    assert(bitio::bits_value(f) < 256);
    assert(8 - (8 - k) as nat == k);
}

/// Running one token.
proof fn lemma_token(out: Seq<u8>, t: Token, n: nat, after: Seq<u8>, ctrl: u8, left: nat)
    requires
        token_ok(t, out.len()),
        out.len() < n,
        applied(out, t).len() <= n,
        left > 0,
        flag(ctrl, left) == (t is Match),
    ensures
        lz_tokens(token_bytes(t) + after, n, out, ctrl, left) == lz_tokens(
            after,
            n,
            applied(out, t),
            ctrl,
            (left - 1) as nat,
        ),
{
    let s = token_bytes(t) + after;
    match t {
        Token::Lit(b) => {
            assert(s.drop_first() =~= after);
        },
        Token::Match { off, len } => {
            let s1 = varint::varint_bytes((len - MIN_MATCH) as nat) + after;
            assert(s =~= varint::varint_bytes(off as nat) + s1);
            varint::lemma_varint_roundtrip(off as u64, s1);
            varint::lemma_varint_roundtrip((len - MIN_MATCH) as u64, after);
        },
    }
}

/// Running the tokens of a group from its `k`-th on.
proof fn lemma_group(ts: Seq<Token>, a: int, k: int, n: nat, rest: Seq<u8>)
    requires
        0 <= a,
        0 <= k <= 8,
        a + k <= group_end(ts, a),
        a < ts.len(),
        tokens_ok(ts),
        n == expanded(ts).len(),
        n <= usize::MAX,
    ensures
        ({
            let e = group_end(ts, a);
            lz_tokens(
                run_bytes(ts, a + k, e) + rest,
                n,
                expanded(ts.take(a + k)),
                group_ctrl(ts, a),
                (8 - k) as nat,
            ) == lz_tokens(
                rest,
                n,
                expanded(ts.take(e)),
                group_ctrl(ts, a),
                (8 - (e - a)) as nat,
            )
        }),
    decreases 8 - k,
{
    let e = group_end(ts, a);
    let at = a + k;
    if at >= e {
        assert(run_bytes(ts, at, e) + rest =~= rest);
    } else {
        lemma_group(ts, a, k + 1, n, rest);
        lemma_expanded_grows(ts, at, ts.len() as int);
        assert(ts.take(ts.len() as int) =~= ts);
        lemma_flag(ts, a, k);
        let t = ts[at];
        let out = expanded(ts.take(at));
        lemma_expanded_step(ts, at);
        assert(token_ok(t, out.len()));
        lemma_expanded_grows(ts, at + 1, ts.len() as int);
        let after = run_bytes(ts, at + 1, e) + rest;
        assert(run_bytes(ts, at, e) + rest =~= token_bytes(t) + after);
        assert(group_flags(ts, a)[k] == (t is Match));
        lemma_token(out, t, n, after, group_ctrl(ts, a), (8 - k) as nat);
    }
}

/// Running all groups from token `a` on gives what the tokens expand to.
proof fn lemma_groups(ts: Seq<Token>, a: int, n: nat, ctrl: u8)
    requires
        0 <= a <= ts.len(),
        tokens_ok(ts),
        n == expanded(ts).len(),
        n <= usize::MAX,
    ensures
        lz_tokens(group_bytes(ts, a), n, expanded(ts.take(a)), ctrl, 0) == Ok::<_, Error>(
            expanded(ts),
        ),
    decreases ts.len() - a,
{
    assert(ts.take(ts.len() as int) =~= ts);
    if a < ts.len() {
        let e = group_end(ts, a);
        let s = group_bytes(ts, a);
        let rest = group_bytes(ts, e);
        assert(s.drop_first() =~= run_bytes(ts, a, e) + rest);
        lemma_expanded_grows(ts, a, ts.len() as int);
        lemma_group(ts, a, 0, n, rest);
        lemma_groups(ts, e, n, group_ctrl(ts, a));
        if e < a + 8 {
            assert(e == ts.len());
        }
    }
}

/// A token takes at most three bytes for every two it expands to.
proof fn lemma_run_len(ts: Seq<Token>, a: int, b: int)
    requires
        0 <= a <= b <= ts.len(),
        tokens_ok(ts),
        expanded(ts).len() < 0x20_0000,
    ensures
        2 * run_bytes(ts, a, b).len() <= 3 * (expanded(ts.take(b)).len() - expanded(
            ts.take(a),
        ).len()),
    decreases b - a,
{
    if a < b {
        lemma_run_len(ts, a + 1, b);
        lemma_expanded_step(ts, a);
        lemma_expanded_grows(ts, a + 1, ts.len() as int);
        assert(ts.take(ts.len() as int) =~= ts);
        let at = expanded(ts.take(a));
        assert(token_ok(ts[a], at.len()));
        if let Token::Match { off, len } = ts[a] {
            assert(expanded(ts.take(a + 1)).len() == at.len() + len);
            varint::lemma_varint_short(off as nat);
            varint::lemma_varint_short((len - MIN_MATCH) as nat);
        }
    }
}

/// The groups from token `a` on take less than two bytes for every byte they
/// expand to.
proof fn lemma_groups_len(ts: Seq<Token>, a: int)
    requires
        0 <= a <= ts.len(),
        tokens_ok(ts),
        expanded(ts).len() < 0x20_0000,
    ensures
        8 * group_bytes(ts, a).len() <= 13 * (expanded(ts).len() - expanded(ts.take(a)).len()) + 8,
    decreases ts.len() - a,
{
    assert(ts.take(ts.len() as int) =~= ts);
    if a < ts.len() {
        let e = group_end(ts, a);
        lemma_run_len(ts, a, e);
        lemma_expanded_grows(ts, a, e);
        lemma_groups_len(ts, e);
    }
}

/// Bytes that repeat at distance `off` are a copy from `off` back.
proof fn lemma_repeat(input: Seq<u8>, i: int, off: int, len: int, l: int)
    requires
        1 <= off <= i,
        0 <= l < len,
        i + len <= input.len(),
        forall|k: int| 0 <= k < len ==> #[trigger] input[i + k] == input[i - off + k],
    ensures
        input[i + l] == input[i - off + l % off],
    decreases l,
{
    if l < off {
        vstd::arithmetic::div_mod::lemma_small_mod(l as nat, off as nat);
    } else {
        lemma_repeat(input, i, off, len, l - off);
        assert(input[i + l] == input[i - off + l]);
        assert(i - off + l == i + (l - off));
        vstd::arithmetic::div_mod::lemma_mod_sub_multiples_vanish(l, off);
    }
}

proof fn lemma_copy_matches(input: Seq<u8>, i: int, off: int, len: int)
    requires
        1 <= off <= i,
        0 <= len,
        i + len <= input.len(),
        forall|k: int| 0 <= k < len ==> #[trigger] input[i + k] == input[i - off + k],
    ensures
        copied(input.take(i), off as nat, len as nat) == input.take(i + len),
{
    let c = copied(input.take(i), off as nat, len as nat);
    assert forall|p: int| 0 <= p < i + len implies c[p] == input.take(i + len)[p] by {
        if p >= i {
            lemma_repeat(input, i, off, len, p - i);
            vstd::arithmetic::div_mod::lemma_mod_bound(p - i, off);
        }
    }
    assert(c =~= input.take(i + len));
}

/// The hash of the four bytes at `i`.
pub open spec fn hash_at(input: Seq<u8>, i: int) -> int {
    ((bytes::le_value(input.subrange(i, i + 4)) * 2654435761) % 0x1_0000_0000) as int / 32768
}

/// The latest position before `i` whose next four bytes have hash `h`, -1 for none.
pub open spec fn latest(input: Seq<u8>, i: int, h: int) -> int
    decreases i,
{
    if i <= 0 {
        -1
    } else if i + 3 <= input.len() && hash_at(input, i - 1) == h {
        i - 1
    } else {
        latest(input, i - 1, h)
    }
}

/// How many bytes from `i` on equal those from `c` on.
pub open spec fn common(input: Seq<u8>, i: int, c: int) -> nat
    decreases input.len() - i,
{
    if i >= input.len() || input[i] != input[c] {
        0
    } else {
        1 + common(input, i + 1, c + 1)
    }
}

/// The longest match for position `i`, as length and offset, given the best so far:
/// `c` and the up to `chain - 1` positions of the same hash before it are tried,
/// latest first, and an earlier one must be longer.
pub open spec fn longest(input: Seq<u8>, i: int, c: int, chain: nat, best: (nat, nat)) -> (
    nat,
    nat,
)
    decreases chain,
{
    if c < 0 || chain == 0 {
        best
    } else {
        let len = common(input, i, c);
        longest(
            input,
            i,
            latest(input, c, hash_at(input, c)),
            (chain - 1) as nat,
            if len > best.0 {
                (len, (i - c) as nat)
            } else {
                best
            },
        )
    }
}

/// The match that is taken at position `i`.
#[verifier::opaque]
pub open spec fn match_at(input: Seq<u8>, i: int) -> (nat, nat) {
    if i + MIN_MATCH > input.len() {
        (0, 0)
    } else {
        longest(input, i, latest(input, i, hash_at(input, i)), MAX_CHAIN as nat, (0, 0))
    }
}

/// The tokens of `input` from `i` on: the match at each position if it is long
/// enough, else a literal.
pub open spec fn tokens_from(input: Seq<u8>, i: int) -> Seq<Token>
    decreases
        (if i < input.len() {
            input.len() - i
        } else {
            0
        }),
{
    if i < 0 || i >= input.len() {
        Seq::empty()
    } else {
        let (len, off) = match_at(input, i);
        if len >= MIN_MATCH {
            seq![Token::Match { off: off as usize, len: len as usize }] + tokens_from(
                input,
                i + len,
            )
        } else {
            seq![Token::Lit(input[i])] + tokens_from(input, i + 1)
        }
    }
}

/// The compressed form of `input`.
pub open spec fn lz_image(input: Seq<u8>) -> Seq<u8> {
    varint::varint_bytes(input.len()) + group_bytes(tokens_from(input, 0), 0)
}

proof fn lemma_latest(input: Seq<u8>, i: int, h: int)
    ensures
        -1 <= latest(input, i, h),
        i >= 0 ==> latest(input, i, h) < i || latest(input, i, h) == -1,
        latest(input, i, h) >= 0 ==> latest(input, i, h) + 4 <= input.len() && hash_at(
            input,
            latest(input, i, h),
        ) == h,
    decreases i,
{
    if i > 0 {
        lemma_latest(input, i - 1, h);
    }
}

/// Bytes known to be equal count in full.
proof fn lemma_common(input: Seq<u8>, i: int, c: int, l: int)
    requires
        0 <= c < i,
        0 <= l <= input.len() - i,
        forall|k: int| 0 <= k < l ==> #[trigger] input[i + k] == input[c + k],
    ensures
        common(input, i, c) == l + common(input, i + l, c + l),
        common(input, i, c) <= input.len() - i,
    decreases l,
{
    if l > 0 {
        assert(input[i + 0] == input[c + 0]);
        assert forall|k: int| 0 <= k < l - 1 implies #[trigger] input[i + 1 + k] == input[c + 1
            + k] by {
            assert(input[i + (k + 1)] == input[c + (k + 1)]);
        }
        lemma_common(input, i + 1, c + 1, l - 1);
    } else {
        lemma_common_bound(input, i, c);
    }
}

proof fn lemma_common_bound(input: Seq<u8>, i: int, c: int)
    requires
        i <= input.len(),
    ensures
        common(input, i, c) <= input.len() - i,
    decreases input.len() - i,
{
    if i < input.len() && input[i] == input[c] {
        lemma_common_bound(input, i + 1, c + 1);
    }
}

/// A longer match would agree at every place that a shorter one does.
proof fn lemma_common_stops(input: Seq<u8>, i: int, c: int, l: int)
    requires
        0 <= c < i,
        0 <= l < input.len() - i,
        input[i + l] != input[c + l],
    ensures
        common(input, i, c) <= l,
    decreases l,
{
    if l > 0 && input[i] == input[c] {
        lemma_common_stops(input, i + 1, c + 1, l - 1);
    }
}

/// Nothing beats a match that reaches the end.
proof fn lemma_longest_full(input: Seq<u8>, i: int, c: int, chain: nat, best: (nat, nat))
    requires
        0 <= i <= input.len(),
        best.0 == input.len() - i,
    ensures
        longest(input, i, c, chain, best) == best,
    decreases chain,
{
    if c >= 0 && chain > 0 {
        lemma_common_bound(input, i, c);
        lemma_longest_full(
            input,
            i,
            latest(input, c, hash_at(input, c)),
            (chain - 1) as nat,
            best,
        );
    }
}

/// The match finder: the latest position of each hash and, for each position,
/// the one before it with the same hash, both plus one (zero for none).
struct Finder {
    head: Vec<usize>,
    prev: Vec<usize>,
}

impl Finder {
    /// The positions before `i` are entered: each head is the latest of its hash,
    /// and each position leads to the latest of its hash before it.
    spec fn wf(&self, input: Seq<u8>, i: nat) -> bool {
        &&& self.head.len() == HASH_SIZE
        &&& self.prev.len() == input.len()
        &&& forall|h: int|
            0 <= h < HASH_SIZE ==> #[trigger] self.head@[h] == latest(input, i as int, h) + 1
        &&& forall|j: int|
            0 <= j < i && j + 4 <= input.len() ==> #[trigger] self.prev@[j] == latest(
                input,
                j,
                hash_at(input, j),
            ) + 1
    }

    fn new(Ghost(input): Ghost<Seq<u8>>, n: usize) -> (f: Self)
        requires
            n == input.len(),
        ensures
            f.wf(input, 0),
    {
        Finder { head: vec![0; HASH_SIZE], prev: vec![0; n] }
    }

    fn insert(&mut self, input: &[u8], i: usize)
        requires
            i < input.len(),
            old(self).wf(input@, i as nat),
        ensures
            final(self).wf(input@, i as nat + 1),
    {
        if MIN_MATCH <= input.len() - i {
            let h = hash4(input, i);
            self.prev[i] = self.head[h];
            self.head[h] = i + 1;
        }
    }

    /// The longest match for position `i` along its chain, as length and offset.
    fn find(&self, input: &[u8], i: usize) -> (r: (usize, usize))
        requires
            i < input.len(),
            self.wf(input@, i as nat),
        ensures
            (r.0 as nat, r.1 as nat) == match_at(input@, i as int),
            r.0 > 0 ==> {
                &&& 1 <= r.1 <= i
                &&& r.0 <= input.len() - i
                &&& forall|k: int| 0 <= k < r.0 ==> #[trigger] input@[i + k] == input@[i - r.1 + k]
            },
    {
        reveal(match_at);
        let n = input.len();
        let mut best_len: usize = 0;
        let mut best_off: usize = 0;
        if n - i < MIN_MATCH {
            return (0, 0);
        }
        let max_len = n - i;
        let mut cand: usize = self.head[hash4(input, i)];
        let mut chain: usize = MAX_CHAIN;
        let ghost found = match_at(input@, i as int);
        proof {
            lemma_latest(input@, i as int, hash_at(input@, i as int));
        }
        while cand > 0 && chain > 0 && best_len < max_len
            invariant
                i < n,
                n == input.len(),
                self.wf(input@, i as nat),
                max_len == n - i,
                cand <= i,
                cand > 0 ==> cand + 3 <= n,
                best_len <= max_len,
                found == longest(
                    input@,
                    i as int,
                    cand - 1,
                    chain as nat,
                    (best_len as nat, best_off as nat),
                ),
                best_len > 0 ==> {
                    &&& 1 <= best_off <= i
                    &&& forall|k: int|
                        0 <= k < best_len ==> #[trigger] input@[i + k] == input@[i - best_off + k]
                },
            decreases chain,
        {
            let c = cand - 1;
            let ghost len = common(input@, i as int, c as int);
            // A candidate can only beat the current best if the byte at its end
            // matches: one comparison skips most full scans.
            if best_len == 0 || input[c + best_len] == input[i + best_len] {
                let mut l: usize = 0;
                while l < max_len && input[c + l] == input[i + l]
                    invariant
                        c < i < n,
                        n == input.len(),
                        max_len == n - i,
                        l <= max_len,
                        forall|k: int| 0 <= k < l ==> #[trigger] input@[i + k] == input@[c + k],
                    decreases max_len - l,
                {
                    l = l + 1;
                }
                proof {
                    lemma_common(input@, i as int, c as int, l as int);
                    assert(len == l);
                }
                if l > best_len {
                    best_len = l;
                    best_off = i - c;
                }
            } else {
                proof {
                    lemma_common_stops(input@, i as int, c as int, best_len as int);
                }
            }
            proof {
                lemma_latest(input@, c as int, hash_at(input@, c as int));
            }
            cand = self.prev[c];
            chain = chain - 1;
        }
        proof {
            if best_len == max_len {
                lemma_longest_full(
                    input@,
                    i as int,
                    cand - 1,
                    chain as nat,
                    (best_len as nat, best_off as nat),
                );
            }
        }
        (best_len, best_off)
    }
}

/// Hash of the four bytes at `i`.
fn hash4(input: &[u8], i: usize) -> (h: usize)
    requires
        i + 4 <= input.len(),
    ensures
        h < HASH_SIZE,
        h == hash_at(input@, i as int),
{
    let v: u64 = read_le(input, i, 4);
    proof {
        bytes::lemma_pow256_values();
    }
    (((v * 2654435761) % 0x1_0000_0000) / 32768) as usize
}

/// Split `input` into tokens.
fn tokenize(input: &[u8]) -> (tokens: Vec<Token>)
    ensures
        tokens@ == tokens_from(input@, 0),
        tokens_ok(tokens@),
        expanded(tokens@) == input@,
{
    let n = input.len();
    let mut tokens: Vec<Token> = Vec::new();
    let mut finder = Finder::new(Ghost(input@), n);
    let mut i: usize = 0;
    proof {
        assert(tokens@ + tokens_from(input@, 0) =~= tokens_from(input@, 0));
        reveal(expanded);
        assert(expanded(tokens@) =~= input@.take(0));
    }
    while i < n
        invariant
            i <= n,
            n == input.len(),
            finder.wf(input@, i as nat),
            tokens@ + tokens_from(input@, i as int) == tokens_from(input@, 0),
            tokens_ok(tokens@),
            expanded(tokens@) == input@.take(i as int),
        decreases n - i,
    {
        let (len, off) = finder.find(input, i);
        let ghost before = tokens@;
        let ghost at = i as int;
        if len >= MIN_MATCH {
            tokens.push(Token::Match { off, len });
            proof {
                lemma_copy_matches(input@, i as int, off as int, len as int);
            }
            let ghost from = i;
            let end = i + len;
            while i < end
                invariant
                    from <= i <= end <= n,
                    n == input.len(),
                    finder.wf(input@, i as nat),
                decreases end - i,
            {
                finder.insert(input, i);
                i = i + 1;
            }
        } else {
            tokens.push(Token::Lit(input[i]));
            finder.insert(input, i);
            i = i + 1;
            assert(input@.take(i as int) =~= input@.take(i - 1).push(input@[i - 1]));
        }
        proof {
            assert(tokens_from(input@, at) =~= seq![tokens@.last()] + tokens_from(input@, i as int));
            assert(tokens@ + tokens_from(input@, i as int) =~= before + tokens_from(input@, at));
            assert(tokens@.take(before.len() as int) =~= before);
            assert(tokens@.take(tokens@.len() as int) =~= tokens@);
            lemma_expanded_step(tokens@, before.len() as int);
            assert forall|k: int| 0 <= k < tokens@.len() implies token_ok(
                #[trigger] tokens@[k],
                expanded(tokens@.take(k)).len(),
            ) by {
                assert(tokens@.take(k) =~= before.take(k));
                if k < before.len() {
                    assert(token_ok(before[k], expanded(before.take(k)).len()));
                } else {
                    assert(before.take(k) =~= before);
                }
            }
        }
    }
    proof {
        assert(input@.take(n as int) =~= input@);
        assert(tokens@ + Seq::<Token>::empty() =~= tokens@);
    }
    tokens
}

/// The control byte of the group that starts at token `a`.
fn control_byte(tokens: &Vec<Token>, a: usize) -> (ctrl: u8)
    requires
        a < tokens.len(),
    ensures
        ctrl == group_ctrl(tokens@, a as int),
{
    let mut ctrl: u32 = 0;
    let mut k: usize = 0;
    let ghost f = group_flags(tokens@, a as int);
    proof {
        assert(f.take(0) =~= Seq::empty());
        lemma2_to64();
    }
    while k < 8
        invariant
            k <= 8,
            a < tokens.len(),
            f == group_flags(tokens@, a as int),
            ctrl == bitio::bits_value(f.take(k as int)),
            ctrl < pow2(k as nat),
        decreases 8 - k,
    {
        let set: bool = if k < tokens.len() - a {
            match tokens[a + k] {
                Token::Match { .. } => true,
                Token::Lit(_) => false,
            }
        } else {
            false
        };
        proof {
            assert(f.take(k + 1).drop_last() =~= f.take(k as int));
            assert(f.take(k + 1).last() == f[k as int]);
            lemma2_to64();
            lemma_pow2_adds(k as nat, 1);
            if k < 7 {
                lemma_pow2_strictly_increases(k as nat + 1, 8);
            }
        }
        ctrl = 2 * ctrl + (if set {
            1
        } else {
            0
        });
        k = k + 1;
    }
    proof {
        assert(f.take(8) =~= f);
        lemma2_to64();
    }
    ctrl as u8
}

/// Compress `input`.
pub fn lz_compress(input: &[u8]) -> (out: Vec<u8>)
    ensures
        out@ == lz_image(input@),
        lz_decoded(out@, input.len() as nat) == Ok::<_, Error>(input@),
        input.len() < 0x20_0000 ==> out.len() <= 2 * input.len() + 20,
{
    let tokens = tokenize(input);
    let mut out: Vec<u8> = Vec::new();
    varint::write_u64(&mut out, input.len() as u64);
    let ghost head = out@;
    let mut a: usize = 0;
    assert(out@ + group_bytes(tokens@, 0) =~= head + group_bytes(tokens@, 0));
    while a < tokens.len()
        invariant
            a <= tokens.len(),
            tokens_ok(tokens@),
            out@ + group_bytes(tokens@, a as int) == head + group_bytes(tokens@, 0),
        decreases tokens.len() - a,
    {
        let end: usize = if tokens.len() - a >= 8 {
            a + 8
        } else {
            tokens.len()
        };
        let ghost before = out@;
        let ghost tail = group_bytes(tokens@, end as int);
        out.push(control_byte(&tokens, a));
        let mut k: usize = a;
        let ghost from = out@;
        while k < end
            invariant
                a <= k <= end <= tokens.len(),
                tokens_ok(tokens@),
                out@ + run_bytes(tokens@, k as int, end as int) == from + run_bytes(
                    tokens@,
                    a as int,
                    end as int,
                ),
            decreases end - k,
        {
            let ghost now = out@;
            assert(token_ok(tokens@[k as int], expanded(tokens@.take(k as int)).len()));
            match tokens[k] {
                Token::Lit(b) => out.push(b),
                Token::Match { off, len } => {
                    varint::write_u64(&mut out, off as u64);
                    varint::write_u64(&mut out, (len - MIN_MATCH) as u64);
                },
            }
            k = k + 1;
            assert(out@ + run_bytes(tokens@, k as int, end as int) =~= now + run_bytes(
                tokens@,
                k - 1,
                end as int,
            ));
        }
        proof {
            assert(out@ + Seq::<u8>::empty() =~= out@);
            assert(out@ + tail =~= before + group_bytes(tokens@, a as int));
        }
        a = end;
    }
    proof {
        assert(out@ + Seq::<u8>::empty() =~= out@);
        varint::lemma_varint_roundtrip(input.len() as u64, group_bytes(tokens@, 0));
        lemma_groups(tokens@, 0, input.len() as nat, 0);
        varint::lemma_varint_len(input.len() as u64);
        if input.len() < 0x20_0000 {
            lemma_groups_len(tokens@, 0);
        }
        reveal(expanded);
        assert(expanded(tokens@.take(0)) =~= Seq::empty());
    }
    out
}

/// Inverse of [`lz_compress`] for a stream of `expected` bytes.
pub fn lz_decompress(stream: &[u8], expected: usize) -> (r: Result<Vec<u8>, Error>)
    ensures
        error::viewed(r) == lz_decoded(stream@, expected as nat),
{
    let mut pos: usize = 0;
    assert(stream@.skip(0) =~= stream@);
    let n: u64 = match varint::read_u64(stream, &mut pos) {
        Ok(v) => v,
        Err(e) => return Err(e),
    };
    if n != expected as u64 {
        return Err(Error::CorruptPayload("lz length mismatch"));
    }
    let mut out: Vec<u8> = Vec::new();
    let mut ctrl: u8 = 0;
    let mut left: u32 = 0;
    let ghost whole = lz_decoded(stream@, expected as nat);
    while out.len() < expected
        invariant
            pos <= stream.len(),
            left <= 8,
            whole == lz_decoded(stream@, expected as nat),
            out.len() <= expected,
            whole == lz_tokens(
                stream@.skip(pos as int),
                expected as nat,
                out@,
                ctrl,
                left as nat,
            ),
        decreases
                expected - out.len(),
                (if left == 0 {
                    9
                } else {
                    left
                }),
    {
        if left == 0 {
            if pos >= stream.len() {
                return Err(Error::Truncated);
            }
            ctrl = stream[pos];
            assert(stream@.skip(pos as int).drop_first() =~= stream@.skip(pos + 1));
            pos = pos + 1;
            left = 8;
        } else {
            let ghost out0 = out@;
            let ghost left0 = left as nat;
            left = left - 1;
            proof {
                bitio::lemma_bits_index(ctrl as nat, 8, 7 - left);
                vstd::bits::lemma_u32_pow2_no_overflow(left as nat);
                vstd::bits::lemma_u32_shl_is_mul(1, left);
            }
            let scale: u32 = 1u32 << left;
            if (ctrl as u32 / scale) % 2 == 1 {
                let off: u64 = match varint::read_u64(stream, &mut pos) {
                    Ok(v) => v,
                    Err(e) => return Err(e),
                };
                let extra: u64 = match varint::read_u64(stream, &mut pos) {
                    Ok(v) => v,
                    Err(e) => return Err(e),
                };
                if off == 0 || off > out.len() as u64 {
                    return Err(Error::CorruptPayload("lz bad offset"));
                }
                let room: u64 = (expected - out.len()) as u64;
                if room < 4 || extra > room - 4 {
                    return Err(Error::CorruptPayload("lz match overruns output"));
                }
                let start: usize = out.len() - off as usize;
                let len: usize = extra as usize + MIN_MATCH;
                let mut j: usize = 0;
                assert(out@ =~= copied(out0, off as nat, 0));
                while j < len
                    invariant
                        j <= len,
                        1 <= off <= out0.len(),
                        start == out0.len() - off,
                        out@ == copied(out0, off as nat, j as nat),
                        out0.len() + len <= usize::MAX,
                    decreases len - j,
                {
                    let b = out[start + j];
                    proof {
                        if j >= off {
                            let k = j - off;
                            vstd::arithmetic::div_mod::lemma_mod_sub_multiples_vanish(
                                j as int,
                                off as int,
                            );
                        } else {
                            vstd::arithmetic::div_mod::lemma_small_mod(j as nat, off as nat);
                        }
                    }
                    out.push(b);
                    j = j + 1;
                    assert(out@ =~= copied(out0, off as nat, j as nat));
                }
            } else {
                if pos >= stream.len() {
                    return Err(Error::Truncated);
                }
                let b = stream[pos];
                assert(stream@.skip(pos as int).drop_first() =~= stream@.skip(pos + 1));
                out.push(b);
                pos = pos + 1;
            }
        }
    }
    Ok(out)
}

/// The words coded by `stream`, which must be `n` of them.
pub open spec fn lz_words(lane: Lane, stream: Seq<u8>, n: nat) -> Result<Seq<u64>, Error> {
    match lz_decoded(stream, n * lane.bytes() as nat) {
        Err(e) => Err(e),
        Ok(b) => Ok(lane.words_of(b)),
    }
}

/// Compress the byte image of a block.
pub fn encode(lane: Lane, vals: &[u64]) -> (out: Vec<u8>)
    requires
        lane.fits_all(vals@),
    ensures
        out@ == lz_image(lane.words_bytes(vals@)),
        lz_words(lane, out@, vals@.len()) == Ok::<_, Error>(vals@),
        vals.len() * lane.bytes() < 0x20_0000 ==> out.len() <= 2 * vals.len() * lane.bytes() + 20,
{
    let image = lane.le_image(vals);
    proof {
        crate::lane::lemma_words_roundtrip(lane, vals@);
        crate::lane::lemma_words_bytes_len(lane, vals@);
    }
    lz_compress(&image)
}

/// Inverse of [`encode`].
pub fn decode(lane: Lane, stream: &[u8], n: usize) -> (r: Result<Vec<u64>, Error>)
    requires
        n * lane.bytes() <= usize::MAX,
    ensures
        error::viewed(r) == lz_words(lane, stream@, n as nat),
        r matches Ok(v) ==> lane.fits_all(v@) && v.len() == n,
{
    match lz_decompress(stream, n * lane.bytes()) {
        Ok(image) => {
            proof {
                lemma_lz_decoded_len(stream@, (n * lane.bytes()) as nat);
                crate::lane::lemma_words_of_len(lane, image@, n as nat);
            }
            Ok(lane.from_le_image(&image))
        },
        Err(e) => Err(e),
    }
}

} // verus!
