//! Encoder configuration: speed/ratio levels, mode selection and block sizing.

use vstd::prelude::*;
use crate::format::max_block_values;

verus! {

/// How the encoder picks a mode for each block.
#[derive(Clone, Copy, Debug, PartialEq, Eq, Structural)]
pub enum Selection {
    /// Encode every applicable mode in full and keep the best. The default.
    Full,
    /// Estimate each mode's size on a small stratified sample of the block, then
    /// encode only the winner in full.
    Sample,
}

/// Speed/ratio trade-off. A level sets the codec pool (which codecs may compete
/// for a block) and the default decode bias: how much size the encoder may give
/// up for a cheaper-to-decode codec. Within that allowance candidates are ranked
/// by `size * (1000 + lambda * cost)`, where `cost` is the candidate's decode
/// cost in nanoseconds per value.
#[derive(Clone, Copy, Debug, PartialEq, Eq, Structural)]
pub enum Level {
    /// RAW/CONST/STRIDE plus the FoR/delta bit-packers only.
    Fastest,
    /// Full non-entropy competition.
    Fast,
    /// Adds the rANS coder on the vectorizable modes and the pco backend.
    Balanced,
    /// Adds the sequential predictors and the range coder.
    High,
    /// Everything `High` has, plus the LZ-over-residual cascade. The default.
    Max,
}

impl Level {
    /// Weight on decode cost in the selection score; `0` disables the penalty.
    #[verifier::allow_in_spec]
    pub fn lambda(self) -> (r: u64)
        returns
            (match self {
                Level::Max | Level::High => 0u64,
                Level::Balanced | Level::Fast => 10u64,
                Level::Fastest => 20u64,
            }),
    {
        match self {
            Level::Max | Level::High => 0,
            Level::Balanced | Level::Fast => 10,
            Level::Fastest => 20,
        }
    }

    /// The level's default decode bias: the largest size increase, in percent
    /// over the smallest candidate, the encoder may accept for a
    /// cheaper-to-decode codec. `u32::MAX` means unbounded.
    #[verifier::allow_in_spec]
    pub fn decode_bias(self) -> (r: u32)
        returns
            (match self {
                Level::Max | Level::High => 0u32,
                Level::Balanced => 10u32,
                Level::Fast => 25u32,
                Level::Fastest => u32::MAX,
            }),
    {
        match self {
            Level::Max | Level::High => 0,
            Level::Balanced => 10,
            Level::Fast => 25,
            Level::Fastest => u32::MAX,
        }
    }

    /// Whether the LZ-over-residual cascade may run.
    #[verifier::allow_in_spec]
    pub fn allows_lz_cascade(self) -> (r: bool)
        returns
            self is Max,
    {
        match self {
            Level::Max => true,
            _ => false,
        }
    }

    /// Whether the entropy coders may compete.
    #[verifier::allow_in_spec]
    pub fn allows_entropy(self) -> (r: bool)
        returns
            self is Balanced || self is High || self is Max,
    {
        match self {
            Level::Balanced | Level::High | Level::Max => true,
            _ => false,
        }
    }

    /// Whether the sequential predictors may compete.
    #[verifier::allow_in_spec]
    pub fn allows_predictors(self) -> (r: bool)
        returns
            self is High || self is Max,
    {
        match self {
            Level::High | Level::Max => true,
            _ => false,
        }
    }

    /// Whether only the cheapest codecs run.
    #[verifier::allow_in_spec]
    pub fn reduced_pool(self) -> (r: bool)
        returns
            self is Fastest,
    {
        match self {
            Level::Fastest => true,
            _ => false,
        }
    }

    /// Whether the pco backend may compete.
    #[verifier::allow_in_spec]
    pub fn allows_pco(self) -> (r: bool)
        returns
            self is Balanced || self is High || self is Max,
    {
        match self {
            Level::Balanced | Level::High | Level::Max => true,
            _ => false,
        }
    }

    /// Whether block planning uses full-size blocks unconditionally.
    #[verifier::allow_in_spec]
    pub fn full_blocks(self) -> (r: bool)
        returns
            self is Balanced || self is High || self is Max,
    {
        match self {
            Level::Balanced | Level::High | Level::Max => true,
            _ => false,
        }
    }

    /// pco search level (`0..=12`).
    #[verifier::allow_in_spec]
    pub fn pco_level(self) -> (r: usize)
        returns
            (match self {
                Level::Max => 12usize,
                _ => 8usize,
            }),
    {
        match self {
            Level::Max => 12,
            _ => 8,
        }
    }

    /// Position on the ladder, `Fastest` lowest.
    pub open spec fn rank(self) -> int {
        match self {
            Level::Fastest => 0,
            Level::Fast => 1,
            Level::Balanced => 2,
            Level::High => 3,
            Level::Max => 4,
        }
    }
}

/// The levels form a ladder: a higher level allows every codec tier that a lower
/// one allows, and never accepts a larger decode bias.
pub proof fn lemma_level_ladder(lo: Level, hi: Level)
    requires
        lo.rank() <= hi.rank(),
    ensures
        lo.allows_entropy() ==> hi.allows_entropy(),
        lo.allows_predictors() ==> hi.allows_predictors(),
        lo.allows_lz_cascade() ==> hi.allows_lz_cascade(),
        lo.allows_pco() ==> hi.allows_pco(),
        lo.full_blocks() ==> hi.full_blocks(),
        hi.reduced_pool() ==> lo.reduced_pool(),
        hi.decode_bias() <= lo.decode_bias(),
        hi.lambda() <= lo.lambda(),
{
}

/// Encoder configuration.
#[derive(Clone, Copy, Debug)]
pub struct Config {
    /// log2 of the predictor table size, clamped to `[10, 16]`.
    pub predictor_log2: u8,
    /// Encoder worker threads; `None` leaves the choice to the caller's pool.
    pub threads: Option<usize>,
    /// Mode-selection strategy per block.
    pub selection: Selection,
    /// Speed/ratio trade-off.
    pub level: Level,
    /// Largest size increase, in percent over the smallest candidate, that the
    /// encoder may accept for a cheaper-to-decode block codec. `None` takes the
    /// level's default.
    pub decode_bias: Option<u32>,
    /// pco search level, `0..=12`. `None` takes the level's default.
    pub pco_level: Option<u8>,
    /// Fixed block size in values, or `None` for the adaptive default.
    pub block_size: Option<usize>,
}

impl Default for Config {
    fn default() -> (c: Self)
        ensures
            c.predictor_log2 == 16,
            c.threads == None::<usize>,
            c.selection == Selection::Full,
            c.level == Level::Max,
            c.decode_bias == None::<u32>,
            c.pco_level == None::<u8>,
            c.block_size == None::<usize>,
    {
        Config {
            predictor_log2: 16,
            threads: None,
            selection: Selection::Full,
            level: Level::Max,
            decode_bias: None,
            pco_level: None,
            block_size: None,
        }
    }
}

impl Config {
    /// The predictor table size clamped to `[10, 16]`.
    pub open spec fn spec_predictor_log2(&self) -> u8 {
        if self.predictor_log2 < 10 {
            10
        } else if self.predictor_log2 > 16 {
            16
        } else {
            self.predictor_log2
        }
    }

    /// The predictor table size clamped to `[10, 16]`.
    pub fn clamped_predictor_log2(&self) -> (r: u8)
        ensures
            r == self.spec_predictor_log2(),
            10 <= r <= 16,
    {
        if self.predictor_log2 < 10 {
            10
        } else if self.predictor_log2 > 16 {
            16
        } else {
            self.predictor_log2
        }
    }

    /// The decode bias in force.
    pub open spec fn spec_decode_bias(&self) -> u32 {
        match self.decode_bias {
            Some(b) => b,
            None => self.level.decode_bias(),
        }
    }

    /// The effective decode bias: the explicit setting or the level's default.
    pub fn effective_decode_bias(&self) -> (r: u32)
        ensures
            r == self.spec_decode_bias(),
    {
        match self.decode_bias {
            Some(b) => b,
            None => self.level.decode_bias(),
        }
    }

    /// The pco search level in force.
    pub open spec fn spec_pco_level(&self) -> usize {
        match self.pco_level {
            Some(l) => if l > 12 {
                12
            } else {
                l as usize
            },
            None => self.level.pco_level(),
        }
    }

    /// The effective pco level: the explicit setting (clamped to `0..=12`) or
    /// the level's default.
    pub fn effective_pco_level(&self) -> (r: usize)
        ensures
            r == self.spec_pco_level(),
            r <= 12,
    {
        match self.pco_level {
            Some(l) => if l > 12 {
                12
            } else {
                l as usize
            },
            None => self.level.pco_level(),
        }
    }

    /// The fixed block size in force for a lane of `lane_bytes` bytes per value.
    pub open spec fn spec_fixed_block_size(&self, lane_bytes: usize) -> Option<usize> {
        match self.block_size {
            Some(n) => Some(
                if n < 1 {
                    1
                } else if n > max_block_values(lane_bytes) {
                    max_block_values(lane_bytes)
                } else {
                    n
                },
            ),
            None => None,
        }
    }

    /// The configured fixed block size clamped to the valid range for a lane of
    /// `lane_bytes` bytes per value, or `None` for adaptive sizing.
    pub fn fixed_block_size(&self, lane_bytes: usize) -> (r: Option<usize>)
        requires
            lane_bytes == 4 || lane_bytes == 8,
        ensures
            r == self.spec_fixed_block_size(lane_bytes),
    {
        match self.block_size {
            Some(n) => {
                let most = max_block_values(lane_bytes);
                Some(
                    if n < 1 {
                        1
                    } else if n > most {
                        most
                    } else {
                        n
                    },
                )
            },
            None => None,
        }
    }
}

} // verus!
