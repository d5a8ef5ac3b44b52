//! Diagnostics: how many blocks each mode won. For tuning and observability
//! only; no codec reads them.

use vstd::prelude::*;

verus! {

/// Win counts by mode identifier.
pub struct ModeWins {
    pub counts: [u64; 64],
}

/// `counts` with one more win for mode `id`.
pub open spec fn with_win(counts: Seq<u64>, id: u8) -> Seq<u64> {
    let slot = id as int % 64;
    counts.update(
        slot,
        if counts[slot] == u64::MAX {
            0
        } else {
            (counts[slot] + 1) as u64
        },
    )
}

/// `counts` with one more win for each mode of `ids`, in order.
pub open spec fn with_wins(counts: Seq<u64>, ids: Seq<u8>) -> Seq<u64>
    decreases ids.len(),
{
    if ids.len() == 0 {
        counts
    } else {
        with_win(with_wins(counts, ids.drop_last()), ids.last())
    }
}

/// Counting the wins of two lists is counting those of both.
pub proof fn lemma_with_wins_concat(counts: Seq<u64>, a: Seq<u8>, b: Seq<u8>)
    ensures
        with_wins(with_wins(counts, a), b) == with_wins(counts, a + b),
    decreases b.len(),
{
    if b.len() == 0 {
        assert(a + b =~= a);
    } else {
        lemma_with_wins_concat(counts, a, b.drop_last());
        assert((a + b).drop_last() =~= a + b.drop_last());
    }
}

impl ModeWins {
    /// No wins yet.
    pub fn new() -> (w: Self)
        ensures
            w.counts@ == Seq::new(64, |i: int| 0u64),
    {
        let w = ModeWins { counts: [0u64; 64] };
        assert(w.counts@ =~= Seq::new(64, |i: int| 0u64));
        w
    }

    /// Record a win; a count wraps around to zero.
    pub fn record_win(&mut self, id: u8)
        ensures
            final(self).counts@ == with_win(old(self).counts@, id),
    {
        let slot: usize = (id % 64) as usize;
        let now: u64 = self.counts[slot];
        self.counts[slot] = if now == u64::MAX {
            0
        } else {
            now + 1
        };
        assert(self.counts@ =~= with_win(old(self).counts@, id));
    }

    /// The counts as they stand.
    pub fn snapshot(&self) -> (counts: [u64; 64])
        ensures
            counts@ == self.counts@,
    {
        self.counts
    }

    /// Forget all wins.
    pub fn reset(&mut self)
        ensures
            final(self).counts@ == Seq::new(64, |i: int| 0u64),
    {
        self.counts = [0u64; 64];
        assert(self.counts@ =~= Seq::new(64, |i: int| 0u64));
    }
}

/// Win counts since the last reset, by mode identifier.
pub fn mode_win_counts(wins: &ModeWins) -> (counts: [u64; 64])
    ensures
        counts@ == wins.counts@,
{
    wins.snapshot()
}

/// Set all win counts to zero.
pub fn reset_mode_win_counts(wins: &mut ModeWins)
    ensures
        final(wins).counts@ == Seq::new(64, |i: int| 0u64),
{
    wins.reset();
}

} // verus!
