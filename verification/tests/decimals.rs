use quoin::codecs::linear;
use quoin::decimal::{
    add_limbs, compress128, compress256, decompress128, decompress256, from_limbs,
    is_decimal_stream, limb_sections, lt_signed, sub_limbs, to_limbs,
};
use quoin::decoder::{count_float_frames, float_blocks, FloatBlock};
use quoin::encoder::frame_bytes;
use quoin::entropy::code_residuals;
use quoin::format::Header;
use quoin::lane::Lane;
use quoin::{decompress_column, Column, Config, DType, Error, Mode, ModeWins};

fn rt(values: &[i128], scale: i8, precision: u8) -> usize {
    let mut wins = ModeWins::new();
    let packed = compress128(
        values,
        scale,
        precision,
        None,
        &Config::default(),
        &mut wins,
    );
    assert!(is_decimal_stream(&packed));
    let dec = decompress128(&packed, &[]).unwrap();
    assert_eq!(dec.values, values);
    assert_eq!(dec.scale, scale);
    assert_eq!(dec.precision, precision);
    packed.len()
}

#[test]
fn small_decimals_compress() {
    let vals: Vec<i128> = (0..4096).map(|i| 100_000 + (i % 500) as i128).collect();
    let size = rt(&vals, 2, 18);
    assert!(
        size < vals.len() * 4,
        "clustered decimals should compress: {size}"
    );
}

#[test]
fn mixed_sign_and_vmin_shift() {
    let vals: Vec<i128> = (0..2000).map(|i| (i as i128 - 1000) * 7).collect();
    rt(&vals, 4, 20);
}

#[test]
fn wide_128bit_spread_is_lossless() {
    let vals: Vec<i128> = (0..1000)
        .map(|i| ((i as i128) << 90) | ((i as i128) * 0x1_0000_0001))
        .collect();
    rt(&vals, 0, 38);
    rt(&[i128::MIN, 0, i128::MAX, -1, 1], 0, 38);
}

#[test]
fn nullable_roundtrip() {
    let logical: Vec<i128> = (0..500).map(|i| 50_000 - (i % 300) as i128).collect();
    let mut bm = vec![0u8; logical.len().div_ceil(8)];
    let mut expect = logical.clone();
    for (i, e) in expect.iter_mut().enumerate() {
        if i % 3 == 0 {
            *e = 0;
        } else {
            bm[i >> 3] |= 1 << (i & 7);
        }
    }
    let mut wins = ModeWins::new();
    let packed = compress128(&logical, 2, 18, Some(&bm), &Config::default(), &mut wins);
    let dec = decompress128(&packed, &[]).unwrap();
    assert_eq!(dec.values, expect);
    assert!(dec.validity.is_some());
}

#[test]
fn empty_and_single() {
    rt(&[], 0, 10);
    rt(&[42], 3, 12);
    rt(&[-123_456_789_012_345_678i128], 6, 30);
}

fn b256(v: i128) -> [u8; 32] {
    let mut b = [if v < 0 { 0xFF } else { 0x00 }; 32];
    b[0..16].copy_from_slice(&v.to_le_bytes());
    b
}

fn rt256(values: &[[u8; 32]], scale: i8, precision: u8) -> usize {
    let mut wins = ModeWins::new();
    let packed = compress256(
        values,
        scale,
        precision,
        None,
        &Config::default(),
        &mut wins,
    );
    assert!(is_decimal_stream(&packed));
    let dec = decompress256(&packed, &[]).unwrap();
    assert_eq!(dec.values, values);
    assert_eq!((dec.scale, dec.precision), (scale, precision));
    packed.len()
}

#[test]
fn decimal256_small_and_signed() {
    let vals: Vec<[u8; 32]> = (0..4096)
        .map(|i| b256(1_000_000 + (i % 500) as i128))
        .collect();
    let size = rt256(&vals, 2, 40);
    assert!(
        size < vals.len() * 8,
        "clustered dec256 should compress: {size}"
    );
    let mixed: Vec<[u8; 32]> = (0..2000).map(|i| b256((i as i128 - 1000) * 7)).collect();
    rt256(&mixed, 4, 50);
}

#[test]
fn decimal256_full_width_lossless() {
    let mut vals = Vec::new();
    for i in 0..500u64 {
        let mut b = [0u8; 32];
        b[24..32].copy_from_slice(&i.to_le_bytes());
        b[0..8].copy_from_slice(&(i.wrapping_mul(0x9E37_79B9)).to_le_bytes());
        vals.push(b);
    }
    rt256(&vals, 0, 70);
    let max = [0xFFu8; 32];
    let mut imax = [0xFFu8; 32];
    imax[31] = 0x7F;
    let mut imin = [0x00u8; 32];
    imin[31] = 0x80;
    let neg1 = max;
    rt256(&[imin, [0u8; 32], imax, neg1, b256(1)], 0, 76);
}

#[test]
fn decimal256_nullable() {
    let logical: Vec<[u8; 32]> = (0..500).map(|i| b256(50_000 - (i % 300) as i128)).collect();
    let mut bm = vec![0u8; logical.len().div_ceil(8)];
    let mut expect = logical.clone();
    for (i, e) in expect.iter_mut().enumerate() {
        if i % 4 == 0 {
            *e = [0u8; 32];
        } else {
            bm[i >> 3] |= 1 << (i & 7);
        }
    }
    let mut wins = ModeWins::new();
    let packed = compress256(&logical, 2, 40, Some(&bm), &Config::default(), &mut wins);
    let dec = decompress256(&packed, &[]).unwrap();
    assert_eq!(dec.values, expect);
    assert!(dec.validity.is_some());
}

#[test]
fn decimal256_arithmetic_helpers() {
    for &(a, b) in &[(5i128, 3i128), (-5, 3), (3, -5), (-7, -2), (0, 0)] {
        let (la, lb) = (to_limbs(&b256(a)), to_limbs(&b256(b)));
        assert_eq!(lt_signed(&la, &lb), a < b, "lt {a} {b}");
        assert_eq!(from_limbs(&add_limbs(&la, &lb)), b256(a + b));
        assert_eq!(from_limbs(&sub_limbs(&la, &lb)), b256(a - b));
    }
}

#[test]
fn container_holds_the_minimum() {
    let mut wins = ModeWins::new();
    let packed = compress128(&[5, -3, 9], 2, 10, None, &Config::default(), &mut wins);
    assert_eq!(&packed[..4], b"FCR1");
    assert_eq!(packed[16], 2);
    assert_eq!(packed[17], 10);
    assert_eq!(packed[18], 2);
    assert_eq!(&packed[19..35], &(-3i128).to_le_bytes());
    let total: u64 = wins.counts.iter().sum();
    assert_eq!(total, 2);
}

#[test]
fn container_refusals() {
    let mut wins = ModeWins::new();
    let packed = compress128(&[1, 2, 3], 0, 9, None, &Config::default(), &mut wins);
    assert_eq!(decompress256(&packed, &[]).err(), Some(Error::DTypeMismatch));
    assert_eq!(decompress128(&packed[..10], &[]).err(), Some(Error::Truncated));
    let mut bad = packed.clone();
    bad[0] ^= 1;
    assert_eq!(decompress128(&bad, &[]).err(), Some(Error::BadMagic));
    let mut bad = packed.clone();
    bad[4] = 9;
    assert_eq!(decompress128(&bad, &[]).err(), Some(Error::UnsupportedVersion(9)));
    let mut bad = packed.clone();
    bad[5] = 0;
    assert_eq!(
        decompress128(&bad, &[]).err(),
        Some(Error::CorruptPayload("not a decimal container"))
    );
    let mut bad = packed.clone();
    bad[7] = 200;
    assert_eq!(decompress128(&bad, &[]).err(), Some(Error::UnsupportedDType(200)));
    let mut bad = packed.clone();
    bad[18] = 0;
    assert_eq!(
        decompress128(&bad, &[]).err(),
        Some(Error::CorruptPayload("decimal limb count"))
    );
    let wide = compress256(&[[1u8; 32]], 0, 9, None, &Config::default(), &mut wins);
    let mut bad = wide.clone();
    bad[7] = packed[7];
    assert_eq!(
        decompress128(&bad, &[]).err(),
        Some(Error::CorruptPayload("decimal128 limb count"))
    );
    let mut bad = packed.clone();
    bad[7] = wide[7];
    assert_eq!(
        decompress256(&bad, &[]).err(),
        Some(Error::CorruptPayload("decimal256 limb count"))
    );
}

/// A stream of binary64 values in one DELTA2 frame, whose values repeat.
fn delta2_limb(word: u64, n: usize) -> Vec<u8> {
    let mut residuals = vec![0u64; n];
    residuals[0] = word;
    let stream = linear::xor_stream(Lane::W64, 1, &residuals);
    let mut out = Vec::new();
    Header {
        predictor_log2: 12,
        dtype: DType::F64,
        has_validity: false,
        has_shared_dict: false,
        n_values: n as u64,
    }
    .write(&mut out);
    frame_bytes(Mode::Delta2, n, &code_residuals(&stream, 0, false), &mut out);
    out
}

#[test]
fn limbs_in_float_streams_are_read() {
    let mut wins = ModeWins::new();
    let packed = compress128(&[7, 9, 8], 1, 9, None, &Config::default(), &mut wins);
    let sections = limb_sections(&packed);
    assert_eq!(sections.len(), 2);
    assert_eq!(sections[1].1, packed.len());
    for &(start, end) in &sections {
        assert_eq!(count_float_frames(&packed[start..end]), 0);
    }
    assert_eq!(limb_sections(&packed[..packed.len() - 1]).len(), 1);
    assert!(limb_sections(&packed[..20]).is_empty());
    assert!(limb_sections(&[]).is_empty());

    // The low limb holds the offsets 0, 2, 1 from 7; the high limb becomes a stream of
    // floats, 1.0 throughout.
    let one = 1.0f64.to_bits();
    let limb = delta2_limb(one, 3);
    let mut mixed = packed[..sections[0].1].to_vec();
    mixed.push(limb.len() as u8);
    mixed.extend_from_slice(&limb);
    let (start, end) = limb_sections(&mixed)[1];
    assert_eq!(&mixed[start..end], &limb[..]);
    assert_eq!(count_float_frames(&limb), 1);
    match &float_blocks(&limb).unwrap()[0] {
        FloatBlock::Delta2 { order, words } => {
            assert_eq!((*order, words.clone()), (1, vec![one, 0, 0]));
        }
        _ => panic!("not a DELTA2 block"),
    }
    let floats = [vec![one; 3]];
    let high = (one as i128) << 64;
    let dec = decompress128(&mixed, &floats).unwrap();
    assert_eq!(dec.values, vec![high + 7, high + 9, high + 8]);
    match decompress_column(&mixed, &floats).unwrap().values {
        Column::Decimal128 { values, .. } => assert_eq!(values, dec.values),
        _ => panic!("not a decimal column"),
    }
    assert_eq!(
        decompress128(&mixed, &[]).err(),
        Some(Error::CorruptPayload("float block"))
    );

    // Each limb takes the words of its own frames.
    let limb0 = delta2_limb(2.0f64.to_bits(), 3);
    let mut both = packed[..19 + 16].to_vec();
    for l in [&limb0, &limb] {
        both.push(l.len() as u8);
        both.extend_from_slice(l);
    }
    let two = 2.0f64.to_bits();
    let dec = decompress128(&both, &[vec![two; 3], vec![one; 3]]).unwrap();
    assert_eq!(dec.values, vec![high + two as i128 + 7; 3]);
}
