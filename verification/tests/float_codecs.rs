use std::ops::{Add, Div, Mul, Neg, Sub};

use quoin::bench_internals;
use quoin::bitpack::BLOCK;
use quoin::codecs::alp::{self, Part, SubPlan, STAGE1_SAMPLES, SUB_SAMPLES};
use quoin::codecs::float_mult::{self, Trial, FM_SCALES};
use quoin::codecs::linear::{self, MAX_ORDER};
use quoin::codecs::pcodec;
use quoin::config::Level;
use quoin::decoder::{float_blocks, FloatBlock};
use quoin::encoder::{best_block_full, best_block_sampled};
use quoin::entropy::code_residuals;
use quoin::lane::Lane;
use quoin::sample::sample_positions;
use quoin::{
    compress, decompress, Config, DType, Error, FloatOffer, Mode, ModeWins, Selection,
};

/// The float view of a lane.
trait LaneFloat:
    Copy
    + PartialOrd
    + Add<Output = Self>
    + Sub<Output = Self>
    + Mul<Output = Self>
    + Div<Output = Self>
    + Neg<Output = Self>
{
    const LANE: Lane;
    const ZERO: Self;
    /// Adding and subtracting it rounds to an integer.
    const ALP_MAGIC: Self;
    /// Digits stay below it.
    const ALP_UPPER: Self;
    /// Multiples stay below it.
    const FM_LIMIT: Self;

    fn power(e: u8) -> Self;
    fn fraction(f: u8) -> Self;
    fn scale(i: u8) -> Self;
    fn from_word(w: u64) -> Self;
    fn to_word(self) -> u64;
    fn from_i64(i: i64) -> Self;
    fn to_i64(self) -> i64;
    fn to_f64(self) -> f64;
    fn abs(self) -> Self;
    fn round(self) -> Self;
    fn is_finite(self) -> bool;
}

const POWERS_F64: [f64; 19] = [
    1e0, 1e1, 1e2, 1e3, 1e4, 1e5, 1e6, 1e7, 1e8, 1e9, 1e10, 1e11, 1e12, 1e13, 1e14, 1e15, 1e16,
    1e17, 1e18,
];
const FRACTIONS_F64: [f64; 19] = [
    1e0, 1e-1, 1e-2, 1e-3, 1e-4, 1e-5, 1e-6, 1e-7, 1e-8, 1e-9, 1e-10, 1e-11, 1e-12, 1e-13, 1e-14,
    1e-15, 1e-16, 1e-17, 1e-18,
];
const POWERS_F32: [f32; 11] = [1e0, 1e1, 1e2, 1e3, 1e4, 1e5, 1e6, 1e7, 1e8, 1e9, 1e10];
const FRACTIONS_F32: [f32; 11] = [
    1e0, 1e-1, 1e-2, 1e-3, 1e-4, 1e-5, 1e-6, 1e-7, 1e-8, 1e-9, 1e-10,
];
const SCALES_F64: [f64; 7] = [1e1, 1e2, 1e3, 1e4, 1e5, 1e6, 1e7];
const SCALES_F32: [f32; 7] = [1e1, 1e2, 1e3, 1e4, 1e5, 1e6, 1e7];

impl LaneFloat for f64 {
    const LANE: Lane = Lane::W64;
    const ZERO: f64 = 0.0;
    const ALP_MAGIC: f64 = 6_755_399_441_055_744.0;
    const ALP_UPPER: f64 = 9.223_372_036_854_776e18;
    const FM_LIMIT: f64 = 9.0e18;

    fn power(e: u8) -> f64 {
        POWERS_F64[e as usize]
    }
    fn fraction(f: u8) -> f64 {
        FRACTIONS_F64[f as usize]
    }
    fn scale(i: u8) -> f64 {
        SCALES_F64[i as usize]
    }
    fn from_word(w: u64) -> f64 {
        f64::from_bits(w)
    }
    fn to_word(self) -> u64 {
        self.to_bits()
    }
    fn from_i64(i: i64) -> f64 {
        i as f64
    }
    fn to_i64(self) -> i64 {
        self as i64
    }
    fn to_f64(self) -> f64 {
        self
    }
    fn abs(self) -> f64 {
        f64::abs(self)
    }
    fn round(self) -> f64 {
        f64::round(self)
    }
    fn is_finite(self) -> bool {
        f64::is_finite(self)
    }
}

impl LaneFloat for f32 {
    const LANE: Lane = Lane::W32;
    const ZERO: f32 = 0.0;
    const ALP_MAGIC: f32 = 12_582_912.0;
    const ALP_UPPER: f32 = 4_194_304.0;
    const FM_LIMIT: f32 = 2_147_483_648.0;

    fn power(e: u8) -> f32 {
        POWERS_F32[e as usize]
    }
    fn fraction(f: u8) -> f32 {
        FRACTIONS_F32[f as usize]
    }
    fn scale(i: u8) -> f32 {
        SCALES_F32[i as usize]
    }
    fn from_word(w: u64) -> f32 {
        f32::from_bits(w as u32)
    }
    fn to_word(self) -> u64 {
        self.to_bits() as u64
    }
    fn from_i64(i: i64) -> f32 {
        i as f32
    }
    fn to_i64(self) -> i64 {
        self as i64
    }
    fn to_f64(self) -> f64 {
        f64::from(self)
    }
    fn abs(self) -> f32 {
        f32::abs(self)
    }
    fn round(self) -> f32 {
        f32::round(self)
    }
    fn is_finite(self) -> bool {
        f32::is_finite(self)
    }
}

// ---------------------------------------------------------------------------
// ALP
// ---------------------------------------------------------------------------

/// The value that a digit stands for under a pair.
fn alp_value<F: LaneFloat>(digit: u64, e: u8, f: u8) -> F {
    F::from_i64(digit as i64) * F::power(f) * F::fraction(e)
}

/// The digit nearest to `v` under a pair, if it is in range.
fn alp_digit<F: LaneFloat>(v: F, e: u8, f: u8) -> Option<u64> {
    let t = v * F::power(e) * F::fraction(f);
    if !t.is_finite() || t >= F::ALP_UPPER || t <= -F::ALP_UPPER {
        return None;
    }
    Some((t + F::ALP_MAGIC - F::ALP_MAGIC).to_i64() as u64)
}

/// The digits of words under a pair, and the words that they evaluate to.
fn alp_digits<F: LaneFloat>(words: &[u64], e: u8, f: u8) -> (Vec<Option<u64>>, Vec<u64>) {
    words
        .iter()
        .map(|&w| {
            let digit = alp_digit(F::from_word(w), e, f);
            (digit, digit.map_or(0, |d| alp_value::<F>(d, e, f).to_word()))
        })
        .unzip()
}

fn sampled(words: &[u64], count: usize) -> Vec<u64> {
    sample_positions(words.len(), count)
        .iter()
        .map(|&i| words[i])
        .collect()
}

fn alp_costs<F: LaneFloat>(sample: &[u64], pairs: &[(u8, u8)]) -> Vec<(u128, usize)> {
    pairs
        .iter()
        .map(|&(e, f)| {
            let (digits, words) = alp_digits::<F>(sample, e, f);
            alp::pair_cost(F::LANE, &alp::keep(sample, &digits, &words))
        })
        .collect()
}

/// How to store a sub-block: under one of the block's candidates, else under
/// any pair, else verbatim.
fn alp_plan<F: LaneFloat>(sub: &[u64], cands: &[(u8, u8)], pairs: &[(u8, u8)]) -> SubPlan {
    let sample = sampled(sub, SUB_SAMPLES);
    let pick = |from: &[(u8, u8)]| {
        alp::pick_pair(&alp_costs::<F>(&sample, from), sample.len()).map(|i| from[i])
    };
    match pick(cands).or_else(|| pick(pairs)) {
        Some((e, f)) => {
            let (digits, words) = alp_digits::<F>(sub, e, f);
            SubPlan::Digits {
                e,
                f,
                digits,
                words,
            }
        }
        None => SubPlan::Verbatim,
    }
}

/// The ALP payload of a block, unless it is empty or not decimal.
fn alp_encode<F: LaneFloat>(vals: &[u64]) -> Option<Vec<u8>> {
    if vals.is_empty() {
        return None;
    }
    let pairs = alp::all_pairs(F::LANE);
    let sample = sampled(vals, STAGE1_SAMPLES);
    let costs = alp_costs::<F>(&sample, &pairs);
    let cands: Vec<(u8, u8)> = alp::top_pairs(&costs, sample.len())?
        .iter()
        .map(|&i| pairs[i])
        .collect();
    let plans: Vec<SubPlan> = vals
        .chunks(BLOCK)
        .map(|sub| alp_plan::<F>(sub, &cands, &pairs))
        .collect();
    alp::encode(F::LANE, vals, &plans)
}

/// The words of an ALP block.
fn alp_words<F: LaneFloat>(parts: &[Part]) -> Vec<u64> {
    let mut out = Vec::new();
    for part in parts {
        let evaluated: Vec<u64> = match part {
            Part::Verbatim(_) => Vec::new(),
            Part::Digits { e, f, digits, .. } => digits
                .iter()
                .map(|&d| alp_value::<F>(d, *e, *f).to_word())
                .collect(),
        };
        out.extend(alp::finish_part(part, &evaluated));
    }
    out
}

// ---------------------------------------------------------------------------
// FLOAT_MULT
// ---------------------------------------------------------------------------

/// The block under each scale that keeps its multiples in range.
fn scale_trials<F: LaneFloat>(vals: &[u64]) -> Vec<Trial> {
    (0..FM_SCALES)
        .filter_map(|scale| {
            let multiples = vals
                .iter()
                .map(|&w| {
                    let k = (F::from_word(w) * F::scale(scale)).round();
                    if k.is_finite() && k.abs() < F::FM_LIMIT {
                        Some(k.to_i64() as u64)
                    } else {
                        None
                    }
                })
                .collect::<Option<Vec<u64>>>()?;
            let words = float_mult_words::<F>(scale, &multiples);
            Some(Trial {
                scale,
                multiples,
                words,
            })
        })
        .collect()
}

/// The FLOAT_MULT payload of a block, if every value is an exact multiple.
fn float_mult_encode<F: LaneFloat>(
    vals: &[u64],
    entropy: bool,
    lambda: u64,
    allow_lz: bool,
) -> Option<Vec<u8>> {
    let trials = scale_trials::<F>(vals);
    float_mult::encode(F::LANE, vals, &trials, entropy, lambda, allow_lz)
}

/// The words of a FLOAT_MULT block.
fn float_mult_words<F: LaneFloat>(scale: u8, multiples: &[u64]) -> Vec<u64> {
    multiples
        .iter()
        .map(|&k| (F::from_i64(k as i64) / F::scale(scale)).to_word())
        .collect()
}

// ---------------------------------------------------------------------------
// Polynomial predictors
// ---------------------------------------------------------------------------

const ORDERS: usize = MAX_ORDER as usize;

/// Forward-difference extrapolation coefficients by order, most recent first.
const COEFFS: [&[i64]; 5] = [&[], &[1], &[2, -1], &[3, -3, 1], &[4, -6, 4, -1]];

/// The last few values, most recent first.
struct History<F> {
    recent: [F; ORDERS],
    seen: usize,
}

impl<F: LaneFloat> History<F> {
    fn new() -> Self {
        History {
            recent: [F::ZERO; ORDERS],
            seen: 0,
        }
    }

    fn push(&mut self, v: F) {
        self.recent.rotate_right(1);
        self.recent[0] = v;
        self.seen = (self.seen + 1).min(ORDERS);
    }

    fn predict(&self, order: u8) -> F {
        let mut pred = F::ZERO;
        for (&c, &v) in COEFFS[(order as usize).min(self.seen)]
            .iter()
            .zip(&self.recent)
        {
            pred = pred + F::from_i64(c) * v;
        }
        pred
    }
}

/// The order whose finite difference is least on a sample from the middle.
fn select_order<F: LaneFloat>(vals: &[u64]) -> u8 {
    let n = vals.len();
    if n < 8 {
        return 2;
    }
    let win = n.min(1024);
    let start = (n - win) / 2;
    let mut d: Vec<f64> = vals[start..start + win]
        .iter()
        .map(|&w| F::from_word(w).to_f64())
        .collect();
    let (mut best, mut best_mag) = (1, f64::INFINITY);
    for order in 1..=MAX_ORDER {
        d = d.windows(2).map(|p| p[1] - p[0]).collect();
        let mag = if d.is_empty() {
            f64::INFINITY
        } else {
            d.iter().map(|x| x.abs()).sum::<f64>() / d.len() as f64
        };
        if mag.is_finite() && mag < best_mag {
            best_mag = mag;
            best = order;
        }
    }
    best
}

/// The DELTA2 stream of a block.
fn delta2_stream<F: LaneFloat>(vals: &[u64], order: u8) -> Vec<u8> {
    let mut history = History::<F>::new();
    let preds: Vec<u64> = vals
        .iter()
        .map(|&w| {
            let pred = history.predict(order).to_word();
            history.push(F::from_word(w));
            pred
        })
        .collect();
    linear::encode(F::LANE, order, vals, &preds)
}

/// The words of a DELTA2 block.
fn delta2_words<F: LaneFloat>(order: u8, residuals: &[u64]) -> Vec<u64> {
    let mut history = History::<F>::new();
    residuals
        .iter()
        .map(|&r| {
            let w = r ^ history.predict(order).to_word();
            history.push(F::from_word(w));
            w
        })
        .collect()
}

/// The DELTA_DP stream of a block, if every subtraction can be undone exactly.
fn delta_dp_stream<F: LaneFloat>(vals: &[u64], order: u8) -> Option<Vec<u8>> {
    let mut history = History::<F>::new();
    let residuals: Vec<u64> = vals
        .iter()
        .map(|&w| {
            let v = F::from_word(w);
            let r = v - history.predict(order);
            history.push(v);
            r.to_word()
        })
        .collect();
    let words = delta_dp_words::<F>(order, &residuals);
    linear::dp_encode(F::LANE, order, vals, &residuals, &words)
}

/// The words of a DELTA_DP block.
fn delta_dp_words<F: LaneFloat>(order: u8, residuals: &[u64]) -> Vec<u64> {
    let mut history = History::<F>::new();
    residuals
        .iter()
        .map(|&r| {
            let v = history.predict(order) + F::from_word(r);
            history.push(v);
            v.to_word()
        })
        .collect()
}

// ---------------------------------------------------------------------------
// Tests
// ---------------------------------------------------------------------------

fn words(vals: &[u32]) -> Vec<u64> {
    vals.iter().map(|&v| v as u64).collect()
}

fn alp_roundtrip<F: LaneFloat>(vals: &[u64]) -> Option<usize> {
    let enc = alp_encode::<F>(vals)?;
    let parts = alp::parse(F::LANE, &enc, vals.len()).unwrap();
    assert_eq!(alp_words::<F>(&parts), vals);
    Some(enc.len())
}

#[test]
fn decimal_with_exceptions() {
    let mut v: Vec<u64> = (0..5000)
        .map(|i| (100.0_f64 + (i % 700) as f64 / 100.0).to_bits())
        .collect();
    v[10] = f64::NAN.to_bits();
    v[2000] = 1e300_f64.to_bits();
    v[4999] = f64::INFINITY.to_bits();
    alp_roundtrip::<f64>(&v);

    alp_roundtrip::<f64>(
        &(0..3000)
            .map(|i| ((i % 100) as f64 * 0.25).to_bits())
            .collect::<Vec<_>>(),
    );
    alp_roundtrip::<f64>(&[]);
    alp_roundtrip::<f64>(&[1.25_f64.to_bits()]);
    alp_roundtrip::<f64>(&vec![0.0f64.to_bits(); 2000]);
}

#[test]
fn f32_decimals_encode_natively() {
    let mut v: Vec<u32> = (0..5000)
        .map(|i| (100.0_f32 + (i % 700) as f32 / 100.0).to_bits())
        .collect();
    v[10] = f32::NAN.to_bits();
    v[11] = 0x7F80_0001;
    v[12] = (-0.0f32).to_bits();
    v[2000] = 3e38f32.to_bits();
    v[4999] = f32::INFINITY.to_bits();
    let size = alp_roundtrip::<f32>(&words(&v)).expect("f32 decimals should ALP-encode");
    assert!(
        size < v.len() * 2,
        "cent prices pack under 2 B/value: {size}"
    );

    let xy: Vec<u32> = (0..4096)
        .map(|i| ((i as f32) * 0.3 + 1234.5).to_bits())
        .collect();
    let size = alp_roundtrip::<f32>(&words(&xy)).expect("one-decimal f32 should ALP-encode");
    assert!(size < xy.len() * 4);
    alp_roundtrip::<f32>(&[]);
    alp_roundtrip::<f32>(&[1.25_f32.to_bits() as u64]);
    alp_roundtrip::<f32>(&vec![0.0f32.to_bits() as u64; 2000]);
}

#[test]
fn alp_non_decimal_bails() {
    let mut s = 1u64;
    let noise: Vec<u32> = (0..2048)
        .map(|_| {
            s = s.wrapping_mul(6364136223846793005).wrapping_add(1);
            (f32::from_bits((s >> 40) as u32 & 0x3FFF_FFFF)).to_bits()
        })
        .collect();
    assert!(alp_encode::<f32>(&words(&noise)).is_none());
}

#[test]
fn smooth_digits_take_the_delta_stream() {
    let v: Vec<u64> = (0..4096)
        .map(|i| (1000.0 + i as f64 * 0.01).to_bits())
        .collect();
    let size = alp_roundtrip::<f64>(&v).expect("ramp should ALP-encode");
    assert!(
        size < v.len() / 2,
        "delta digits pack under 0.5 B/value: {size}"
    );
    let v32: Vec<u32> = (0..4096)
        .map(|i| (100.0 + i as f32 * 0.5).to_bits())
        .collect();
    let size = alp_roundtrip::<f32>(&words(&v32)).expect("f32 ramp should ALP-encode");
    assert!(
        size < v32.len() * 3 / 4,
        "f32 delta digits pack small: {size}"
    );
    let mut w = v.clone();
    w[2000] = 987_654_321.0f64.to_bits();
    let size_w = alp_roundtrip::<f64>(&w).expect("ramp with outlier");
    assert!(
        size_w < size + 64,
        "outlier digit is an exception: {size_w} vs {size}"
    );
}

#[test]
fn wide_digits_use_the_u64_kernel() {
    let v: Vec<u64> = (0..3000u64)
        .map(|i| ((i.wrapping_mul(2_654_435_761) & ((1 << 40) - 1)) as f64 * 0.01).to_bits())
        .collect();
    let size = alp_roundtrip::<f64>(&v).expect("wide decimals should ALP-encode");
    assert!(
        size < v.len() * 6,
        "wide digits pack under 6 B/value: {size}"
    );
}

#[test]
fn mixed_block_falls_back_per_subblock() {
    let mut s = 7u64;
    let mut v: Vec<u64> = (0..6000)
        .map(|i| (1000.0 + (i % 900) as f64 * 0.01).to_bits())
        .collect();
    for x in v[2048..3072].iter_mut() {
        s = s.wrapping_mul(6364136223846793005).wrapping_add(1);
        *x = f64::from_bits(0x3FF0_0000_0000_0000 | (s >> 12)).to_bits();
    }
    let size = alp_roundtrip::<f64>(&v).expect("mixed block should still ALP-encode");
    assert!(
        size < 5 * 1024 * 3 + 1024 * 8 + 64,
        "mixed block size {size}"
    );
    let enc = alp_encode::<f64>(&v).unwrap();
    assert!(alp::parse(Lane::W64, &enc[..enc.len() - 100], v.len()).is_err());
}

#[test]
fn alp_pairs_and_costs() {
    let pairs = alp::all_pairs(Lane::W32);
    assert_eq!(pairs.len(), 66);
    assert_eq!(&pairs[..3], &[(0, 0), (1, 0), (1, 1)]);
    assert_eq!(alp::all_pairs(Lane::W64).len(), 190);
    // Digits 3 and 10 differ by 7, three bits each; one exception of 80 bits.
    assert_eq!(
        alp::pair_cost(Lane::W64, &[Some(3), Some(10), None]),
        (3 * 3 + 80, 1)
    );
    assert_eq!(alp::pair_cost(Lane::W64, &[None, None]), (128 + 160, 2));
    assert_eq!(alp::pick_pair(&[(5, 0), (4, 0), (4, 0)], 3), Some(1));
    assert_eq!(alp::pick_pair(&[(5, 2)], 3), None);
    assert_eq!(
        alp::top_pairs(&[(9, 0), (1, 0), (5, 0), (5, 0), (2, 0), (7, 0)], 4),
        Some(vec![1, 4, 2, 3, 5])
    );
    let plans = [SubPlan::Digits {
        e: 2,
        f: 0,
        digits: vec![Some(125), None, Some(250)],
        words: vec![1.25f64.to_bits(), 0, 2.5f64.to_bits()],
    }];
    let vals = [
        1.25f64.to_bits(),
        f64::NAN.to_bits(),
        2.500_000_1f64.to_bits(),
    ];
    let enc = bench_internals::alp_encode(&vals, &plans).unwrap();
    let parts = alp::parse(Lane::W64, &enc, 3).unwrap();
    assert_eq!(alp_words::<f64>(&parts), vals);
    match &parts[0] {
        Part::Digits { exceptions, .. } => {
            assert_eq!(*exceptions, vec![(1, vals[1]), (2, vals[2])]);
        }
        Part::Verbatim(_) => panic!("stored verbatim"),
    }
    for n in [0, 1, 2, 4, 1024] {
        assert!(matches!(
            alp::parse(Lane::W64, &enc, n),
            Err(Error::CorruptPayload("alp length mismatch"))
        ));
    }
    assert_eq!(
        alp::keep(&[7, 8], &[Some(1), Some(2)], &[7, 9]),
        vec![Some(1), None]
    );
    assert!(bench_internals::alp_encode(&[], &[]).is_none());
}

fn fm_decode<F: LaneFloat>(payload: &[u8], n: usize) -> Result<Vec<u64>, Error> {
    let (scale, multiples) = float_mult::parse(F::LANE, payload, n)?;
    Ok(float_mult_words::<F>(scale, &multiples))
}

fn fm_roundtrip(vals: &[f64], entropy: bool) {
    let lane: Vec<u64> = vals.iter().map(|v| v.to_bits()).collect();
    let payload =
        float_mult_encode::<f64>(&lane, entropy, 0, true).expect("decimal data must encode");
    let back = fm_decode::<f64>(&payload, lane.len()).unwrap();
    assert_eq!(back, lane);
}

fn fm_roundtrip32(vals: &[f32], entropy: bool) -> usize {
    let lane: Vec<u64> = vals.iter().map(|v| v.to_bits() as u64).collect();
    let payload =
        float_mult_encode::<f32>(&lane, entropy, 0, true).expect("decimal f32 data must encode");
    let back = fm_decode::<f32>(&payload, lane.len()).unwrap();
    assert_eq!(back, lane);
    payload.len()
}

#[test]
fn both_paths_roundtrip() {
    let scattered: Vec<f64> = (0..2000)
        .map(|i| ((i * 7) % 100_000) as f64 / 100.0)
        .collect();
    let smooth: Vec<f64> = (0..2000).map(|i| 1000.0 + i as f64 / 1000.0).collect();
    for data in [&scattered, &smooth] {
        fm_roundtrip(data, false);
        fm_roundtrip(data, true);
    }
    fm_roundtrip(&[-12.34, 0.0, 56.78, -0.01, 99.99], false);
    fm_roundtrip(&[-12.34, 0.0, 56.78, -0.01, 99.99], true);
}

#[test]
fn f32_paths_roundtrip() {
    let scattered: Vec<f32> = (0..2000)
        .map(|i| ((i * 7) % 100_000) as f32 / 100.0)
        .collect();
    let smooth: Vec<f32> = (0..2000).map(|i| 1000.0 + i as f32 / 100.0).collect();
    for data in [&scattered, &smooth] {
        let bp = fm_roundtrip32(data, false);
        assert!(bp < data.len() * 4, "f32 decimals pack under 4 B/value");
        fm_roundtrip32(data, true);
    }
    fm_roundtrip32(&[-12.34, 0.0, 56.78, -0.01, 99.99], false);
    fm_roundtrip32(&[-12.34, 0.0, 56.78, -0.01, 99.99], true);
    let huge: Vec<u64> = vec![3.0e8f32.to_bits() as u64; 4];
    assert!(float_mult_encode::<f32>(&huge, false, 0, false).is_none());
}

#[test]
fn float_mult_non_decimal_bails() {
    let pi = [
        std::f64::consts::PI.to_bits(),
        std::f64::consts::E.to_bits(),
    ];
    assert!(float_mult_encode::<f64>(&pi, true, 0, true).is_none());
    let pi32 = [
        std::f32::consts::PI.to_bits() as u64,
        std::f32::consts::E.to_bits() as u64,
    ];
    if let Some(p) = float_mult_encode::<f32>(&pi32, true, 0, true) {
        assert_eq!(fm_decode::<f32>(&p, 2).unwrap(), pi32);
    }
    let big = [
        (std::f32::consts::PI * 1e8).to_bits() as u64,
        5.0e8f32.to_bits() as u64,
    ];
    assert!(float_mult_encode::<f32>(&big, true, 0, true).is_none());
    let zero = [(-0.0f32).to_bits() as u64, 1.5f32.to_bits() as u64];
    assert!(float_mult_encode::<f32>(&zero, false, 0, false).is_none());
}

#[test]
fn float_mult_refuses_what_does_not_fit() {
    assert!(float_mult::store(Lane::W64, FM_SCALES, &[1], false, 0, false).is_none());
    assert!(float_mult::store(Lane::W32, 0, &[1 << 40], false, 0, false).is_none());
    assert!(float_mult::store(Lane::W64, 0, &[], false, 0, false).is_none());
    assert_eq!(
        float_mult::parse(Lane::W64, &[0, 9], 1).err(),
        Some(Error::CorruptPayload("float_mult scale index"))
    );
    assert_eq!(
        float_mult::parse(Lane::W64, &[5, 0], 1).err(),
        Some(Error::CorruptPayload("float_mult tag"))
    );
}

fn delta2_decode<F: LaneFloat>(payload: &[u8], n: usize) -> Result<Vec<u64>, Error> {
    let (order, residuals) = linear::parse_xor_stream(F::LANE, payload, n)?;
    Ok(delta2_words::<F>(order, &residuals))
}

fn delta_dp_decode<F: LaneFloat>(payload: &[u8], n: usize) -> Result<Vec<u64>, Error> {
    let (order, residuals) = linear::parse_dp_stream(F::LANE, payload, n)?;
    Ok(delta_dp_words::<F>(order, &residuals))
}

#[test]
fn float_delta_roundtrips_all_orders() {
    let vals: Vec<u64> = (0..1000).map(|i| ((i as f64) * 0.5).to_bits()).collect();
    for order in 1..=MAX_ORDER {
        let enc = delta2_stream::<f64>(&vals, order);
        assert_eq!(
            delta2_decode::<f64>(&enc, vals.len()).unwrap(),
            vals,
            "xor order {order}"
        );
        if let Some(dp) = delta_dp_stream::<f64>(&vals, order) {
            assert_eq!(
                delta_dp_decode::<f64>(&dp, vals.len()).unwrap(),
                vals,
                "dp order {order}"
            );
        }
    }
}

#[test]
fn f32_lane_predicts_in_f32() {
    let vals: Vec<u32> = (0..2000)
        .map(|i| ((i * i) as f32 * 0.5).to_bits())
        .collect();
    let vals = words(&vals);
    for order in 1..=MAX_ORDER {
        let enc = delta2_stream::<f32>(&vals, order);
        assert_eq!(
            delta2_decode::<f32>(&enc, vals.len()).unwrap(),
            vals,
            "xor order {order}"
        );
        if let Some(dp) = delta_dp_stream::<f32>(&vals, order) {
            assert_eq!(
                delta_dp_decode::<f32>(&dp, vals.len()).unwrap(),
                vals,
                "dp order {order}"
            );
            if order == 3 {
                assert!(
                    dp.len() < vals.len() + 16,
                    "exact cubic residuals are ~1 byte"
                );
            }
        }
    }
    let edge: Vec<u64> = [0.0f32, -0.0, f32::from_bits(1), -1.5, 3e-39, 1e30, -1e-30]
        .iter()
        .map(|f| f.to_bits() as u64)
        .collect();
    for order in 1..=MAX_ORDER {
        assert_eq!(
            delta2_decode::<f32>(&delta2_stream::<f32>(&edge, order), edge.len()).unwrap(),
            edge
        );
        if let Some(dp) = delta_dp_stream::<f32>(&edge, order) {
            assert_eq!(delta_dp_decode::<f32>(&dp, edge.len()).unwrap(), edge);
        }
    }
}

#[test]
fn select_order_prefers_high_on_smooth_low_on_noise() {
    let smooth: Vec<u64> = (0..2000)
        .map(|i| ((i as f64 * 0.002).sin() * 100.0 + i as f64 * 0.01).to_bits())
        .collect();
    assert!(
        select_order::<f64>(&smooth) >= 3,
        "smooth signal should pick a high order"
    );
    let smooth32: Vec<u32> = (0..2000)
        .map(|i| ((i as f32 * 0.002).sin() * 100.0 + i as f32 * 0.01).to_bits())
        .collect();
    assert!(
        select_order::<f32>(&words(&smooth32)) >= 2,
        "smooth f32 signal picks a high order"
    );
    let mut s = 1u64;
    let noise: Vec<u64> = (0..2000)
        .map(|_| {
            s = s.wrapping_mul(6364136223846793005).wrapping_add(1);
            f64::from_bits(s >> 2).to_bits()
        })
        .collect();
    assert!(
        select_order::<f64>(&noise) <= 2,
        "noise should not pick a high order"
    );
}

#[test]
fn linear_streams_refuse_bad_orders() {
    assert_eq!(
        linear::parse_xor_stream(Lane::W64, &[], 0).err(),
        Some(Error::Truncated)
    );
    assert_eq!(
        linear::parse_xor_stream(Lane::W64, &[5, 0], 1).err(),
        Some(Error::CorruptPayload("delta2 order"))
    );
    assert_eq!(
        linear::parse_dp_stream(Lane::W64, &[0, 0], 1).err(),
        Some(Error::CorruptPayload("delta_dp order"))
    );
    assert_eq!(
        linear::parse_xor_stream(Lane::W64, &[1, 0, 0], 1).err(),
        Some(Error::CorruptPayload("delta2 trailing bytes"))
    );
}

fn pco_f64(vals: &[u64]) -> Vec<u8> {
    let nums: Vec<f64> = vals.iter().map(|&w| f64::from_bits(w)).collect();
    let config = pco::ChunkConfig::default().with_compression_level(8);
    pco::standalone::simple_compress(&nums, &config).unwrap()
}

fn pco_f32(vals: &[u64]) -> Vec<u8> {
    let nums: Vec<f32> = vals.iter().map(|&w| f32::from_bits(w as u32)).collect();
    let config = pco::ChunkConfig::default().with_compression_level(8);
    pco::standalone::simple_compress(&nums, &config).unwrap()
}

fn pco_roundtrip(lane: Lane, block: &[u64], dtype: DType) {
    let enc = pcodec::encode(lane, block, dtype, 8).expect("pco should encode");
    let dec = pcodec::decode(lane, &enc, block.len(), dtype).expect("pco should decode");
    assert_eq!(dec, block, "lane roundtrip for {dtype:?}");
}

#[test]
fn roundtrips_all_lanes() {
    let f64s: Vec<u64> = (0..1000)
        .map(|i| (i as f64 * 0.5).to_bits())
        .chain([f64::NAN.to_bits(), 0.0_f64.to_bits(), (-0.0_f64).to_bits()])
        .collect();
    let back: Vec<u64> = pco::standalone::simple_decompress::<f64>(&pco_f64(&f64s))
        .unwrap()
        .iter()
        .map(|v| v.to_bits())
        .collect();
    assert_eq!(back, f64s);
    let i64s: Vec<u64> = (-500i64..500).map(|i| i as u64).collect();
    pco_roundtrip(Lane::W64, &i64s, DType::I64);
    let u64s: Vec<u64> = (0..1000u64).map(|i| i.wrapping_mul(7)).collect();
    pco_roundtrip(Lane::W64, &u64s, DType::U64);

    let f32s: Vec<u32> = (0..1000)
        .map(|i| (i as f32 * 1.25).to_bits())
        .chain([0x7F80_0001, 0xFFC0_1234, 0x8000_0000, 1, 0x7F7F_FFFF])
        .collect();
    let f32s = words(&f32s);
    let back: Vec<u64> = pco::standalone::simple_decompress::<f32>(&pco_f32(&f32s))
        .unwrap()
        .iter()
        .map(|v| v.to_bits() as u64)
        .collect();
    assert_eq!(back, f32s);
    let i32s: Vec<u32> = (-500i32..500).map(|i| i as u32).collect();
    pco_roundtrip(Lane::W32, &words(&i32s), DType::I32);
    let u32s: Vec<u32> = (0..1000u32).map(|i| i.wrapping_mul(7)).collect();
    pco_roundtrip(Lane::W32, &words(&u32s), DType::U32);
}

fn evaluate(block: &FloatBlock) -> Vec<u64> {
    match block {
        FloatBlock::Delta2 { order, words } => delta2_words::<f64>(*order, words),
        FloatBlock::DeltaDp { order, words } => delta_dp_words::<f64>(*order, words),
        FloatBlock::FloatMult { scale, multiples } => float_mult_words::<f64>(*scale, multiples),
        FloatBlock::Alp { parts } => alp_words::<f64>(parts),
        FloatBlock::Pco { bytes } => pco::standalone::simple_decompress::<f64>(bytes)
            .unwrap()
            .iter()
            .map(|v| v.to_bits())
            .collect(),
    }
}

/// Compress with one offer, check that it won, and read the column back.
fn offered_roundtrip(vals: &[u64], mode: Mode, payload: Vec<u8>) {
    let mut wins = ModeWins::new();
    let offers = vec![vec![FloatOffer {
        mode,
        payload,
        estimate: 0,
    }]];
    let out = compress(vals, Config::default(), &offers, &mut wins);
    assert_eq!(wins.counts[mode.id() as usize], 1, "{mode:?} should win");
    let floats: Vec<Vec<u64>> = float_blocks(&out).unwrap().iter().map(evaluate).collect();
    assert_eq!(floats.len(), 1);
    assert_eq!(decompress(&out, &floats).unwrap(), vals);
    assert!(decompress(&out, &[]).is_err());
}

#[test]
fn offered_float_blocks_win_and_roundtrip() {
    let mut s = 3u64;
    let mut next = move || {
        s = s.wrapping_mul(6364136223846793005).wrapping_add(1);
        s >> 33
    };
    let prices: Vec<u64> = (0..5000)
        .map(|_| ((next() % 100_000) as f64 / 100.0).to_bits())
        .collect();
    let fm = float_mult_encode::<f64>(&prices, true, 0, true).unwrap();
    offered_roundtrip(&prices, Mode::FloatMult, fm);
    let mut patched = prices.clone();
    patched[77] = f64::NAN.to_bits();
    let alp = alp_encode::<f64>(&patched).unwrap();
    offered_roundtrip(&patched, Mode::Alp, alp);
    let wave: Vec<u64> = (0..4000)
        .map(|i| ((i as f64 * 0.001).sin() * 1000.0).to_bits())
        .collect();
    let stream = delta2_stream::<f64>(&wave, select_order::<f64>(&wave));
    offered_roundtrip(&wave, Mode::Delta2, code_residuals(&stream, 0, true));
    offered_roundtrip(&prices, Mode::Pco, pco_f64(&prices));
}

#[test]
fn unreadable_offers_are_ignored() {
    let vals: Vec<u64> = (0..500).map(|i| (i as f64).sqrt().to_bits()).collect();
    let mut wins = ModeWins::new();
    let offers = vec![vec![FloatOffer {
        mode: Mode::Alp,
        payload: vec![1, 2, 3],
        estimate: 0,
    }]];
    let out = compress(&vals, Config::default(), &offers, &mut wins);
    assert_eq!(wins.counts[Mode::Alp.id() as usize], 0);
    assert_eq!(decompress(&out, &[]).unwrap(), vals);
}

#[test]
fn the_first_exact_scale_is_taken() {
    let vals = [1.5f64.to_bits(), 2.25f64.to_bits()];
    let trials = scale_trials::<f64>(&vals);
    assert_eq!(trials.len(), 7);
    // Tenths lose 2.25; hundredths give both values back.
    assert_eq!(float_mult::exact_scale(&vals, &trials), Some(1));
    assert_eq!(float_mult::exact_scale(&vals, &trials[2..]), Some(0));
    assert_eq!(float_mult::exact_scale(&vals, &trials[..1]), None);
    let out = float_mult::encode(Lane::W64, &vals, &trials, false, 0, false).unwrap();
    assert_eq!(
        float_mult::parse(Lane::W64, &out, 2).unwrap(),
        (1, vec![150, 225])
    );
    assert!(float_mult::encode(Lane::W64, &vals, &trials[..1], false, 0, false).is_none());
    assert!(float_mult::encode(Lane::W64, &[], &scale_trials::<f64>(&[]), false, 0, false).is_none());
    let short = [Trial {
        scale: 0,
        multiples: vec![1],
        words: vals.to_vec(),
    }];
    assert_eq!(float_mult::exact_scale(&vals, &short), None);
}

#[test]
fn delta_dp_is_stored_only_if_it_gives_the_block_back() {
    let vals = [1.0f64.to_bits(), 3.0f64.to_bits()];
    let residuals = [1.0f64.to_bits(), 2.0f64.to_bits()];
    let stream = linear::dp_encode(Lane::W64, 1, &vals, &residuals, &vals).unwrap();
    assert_eq!(stream, linear::dp_stream(Lane::W64, 1, &residuals));
    assert_eq!(delta_dp_decode::<f64>(&stream, 2).unwrap(), vals);
    let off = [vals[0], vals[1] ^ 1];
    assert!(linear::dp_encode(Lane::W64, 1, &vals, &residuals, &off).is_none());
    assert!(linear::dp_encode(Lane::W64, 1, &vals, &residuals[..1], &vals).is_none());
    assert!(linear::dp_encode(Lane::W64, 1, &[], &[], &[]).is_none());
    // 1e17 - 0.1 rounds the tenth away, so adding it back misses the value.
    let rough = [0.1f64.to_bits(), 1e17f64.to_bits(), 0.3f64.to_bits()];
    assert!(delta_dp_stream::<f64>(&rough, 1).is_none());
}

#[test]
fn float_predictors_compete_only_where_the_first_shrank_the_block() {
    let mut s = 11u64;
    let vals: Vec<u64> = (0..600)
        .map(|_| {
            s = s.wrapping_mul(6364136223846793005).wrapping_add(1);
            (s >> 12) | 0x3FF0_0000_0000_0000
        })
        .collect();
    let offer = |mode, stream: Vec<u8>| FloatOffer {
        mode,
        payload: code_residuals(&stream, 0, true),
        estimate: 0,
    };
    // All payloads are tiny, but the residuals of `far` take ten bytes each.
    let low: Vec<u64> = (0..600).map(|i| i % 5).collect();
    let near = linear::xor_stream(Lane::W64, 1, &low);
    let far = linear::xor_stream(Lane::W64, 1, &[u64::MAX; 600]);
    let exact = linear::dp_stream(Lane::W64, 1, &[0; 600]);
    assert!(near.len() * 20 < 600 * 8 * 19 && far.len() > 600 * 8);
    let cfg = Config {
        level: Level::Max,
        ..Config::default()
    };
    let won = |offers: &[FloatOffer]| best_block_full(DType::F64, &vals, 12, &cfg, offers, None).mode;
    assert_eq!(won(&[offer(Mode::Delta2, near.clone())]), Mode::Delta2);
    assert_eq!(
        won(&[offer(Mode::Delta2, near.clone()), offer(Mode::DeltaDp, exact.clone())]),
        Mode::DeltaDp
    );
    let alone = won(&[]);
    assert_eq!(won(&[offer(Mode::Delta2, far.clone())]), alone);
    assert_eq!(won(&[offer(Mode::DeltaDp, exact.clone())]), alone);
    assert_eq!(
        won(&[offer(Mode::Delta2, far.clone()), offer(Mode::DeltaDp, exact)]),
        alone
    );
    // A sample knows no such rule.
    let cfg = Config {
        selection: Selection::Sample,
        ..cfg
    };
    let c = best_block_sampled(DType::F64, &vals, 12, &cfg, &[offer(Mode::Delta2, far)], None);
    assert_eq!(c.mode, Mode::Delta2);
    let mut wild = vals.clone();
    wild[5] = f64::INFINITY.to_bits();
    let c = best_block_full(DType::F64, &wild, 12, &cfg, &[offer(Mode::Delta2, near)], None);
    assert_ne!(c.mode, Mode::Delta2);
}

#[test]
fn delta2_stores_values_against_their_predictions() {
    let out = linear::encode(Lane::W64, 2, &[5, 6, 300], &[0, 5, 6]);
    assert_eq!(out, linear::xor_stream(Lane::W64, 2, &[5, 3, 298]));
    assert_eq!(out, vec![2, 5, 3, 0xAA, 2]);
    assert_eq!(linear::encode(Lane::W32, 1, &[], &[]), vec![1]);
}
