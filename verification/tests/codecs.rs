use quoin::bitpack::BLOCK;
use quoin::codecs::{
    alp_rd, const_block, delta_bitpack, dict, for_bitpack, linear, lz, pcodec, pred, pred_rc, raw,
    rle, stride, transpose, xorz,
};
use quoin::bench_internals;
use quoin::lane::Lane;
use quoin::{DType, Error};

fn words(vals: &[u32]) -> Vec<u64> {
    vals.iter().map(|&v| v as u64).collect()
}

fn rd_roundtrip(lane: Lane, vals: &[u64]) -> Option<usize> {
    let raw = alp_rd::encode(lane, vals, false, 0, false)?;
    assert_eq!(alp_rd::decode(lane, &raw, vals.len()).unwrap(), vals);
    let bal = alp_rd::encode(lane, vals, true, 2, false)?;
    assert_eq!(alp_rd::decode(lane, &bal, vals.len()).unwrap(), vals);
    let max = alp_rd::encode(lane, vals, true, 0, true)?;
    assert_eq!(alp_rd::decode(lane, &max, vals.len()).unwrap(), vals);
    Some(raw.len())
}

#[test]
fn real_double_like_packs() {
    let mut s = 0x1234_5678u64;
    let base = 40.0_f64.to_bits() & 0xFFFF_0000_0000_0000;
    let vals: Vec<u64> = (0..8192)
        .map(|_| {
            s = s.wrapping_mul(6364136223846793005).wrapping_add(1);
            base | (s >> 20)
        })
        .collect();
    let size = rd_roundtrip(Lane::W64, &vals).expect("should encode");
    assert!(
        size < vals.len() * 8,
        "ALP-RD must beat raw 8 B/value, got {}",
        size as f64 / vals.len() as f64
    );
}

#[test]
fn real_float_like_packs() {
    let mut s = 0x1234_5678u64;
    let base = 40.0_f32.to_bits() & 0xFFF0_0000;
    let vals: Vec<u32> = (0..8192)
        .map(|_| {
            s = s.wrapping_mul(6364136223846793005).wrapping_add(1);
            base | ((s >> 40) as u32 & 0x000F_FFFF)
        })
        .collect();
    let size = rd_roundtrip(Lane::W32, &words(&vals)).expect("should encode");
    assert!(
        size < vals.len() * 3,
        "f32 ALP-RD must beat 3 B/value, got {}",
        size as f64 / vals.len() as f64
    );
    let mut v = vals.clone();
    v[0] = 0x7F80_0001;
    v[1] = 0x8000_0000;
    v[2] = 0xFFC0_1234;
    let _ = rd_roundtrip(Lane::W32, &words(&v));
}

#[test]
fn exact_roundtrip_edges() {
    let mut v: Vec<u64> = (0..2000).map(|i| 0x4045_0000_0000_0000 | i).collect();
    v.push(0xDEAD_BEEF_CAFE_1234);
    v.push(0x0000_0000_0000_0001);
    let _ = rd_roundtrip(Lane::W64, &v);
    let mut v32: Vec<u32> = (0..2000).map(|i| 0x4245_0000 | i).collect();
    v32.push(0xDEAD_BEEF);
    v32.push(1);
    let v32 = words(&v32);
    let _ = rd_roundtrip(Lane::W32, &v32);
    let enc = alp_rd::encode(Lane::W32, &v32, false, 0, false).unwrap();
    let mut bad = enc.clone();
    bad[0] = 40;
    assert!(alp_rd::decode(Lane::W32, &bad, v32.len()).is_err());
}

#[test]
fn rd_streams_rejoin() {
    let v: Vec<u64> = (0..2000u64).map(|i| 0x4045_0000_0000_0000 | i).collect();
    let (codes, rights) = bench_internals::alp_rd_streams(&v).unwrap();
    assert_eq!(codes.len(), v.len());
    assert_eq!(rights.len(), v.len());
    assert!(bench_internals::alp_rd_streams(&[]).is_none());
}

#[test]
fn monotonic_roundtrip() {
    let mut s = 1u64;
    let mut t = 1_700_000_000_000u64;
    let vals: Vec<u64> = (0..5000)
        .map(|_| {
            s = s.wrapping_mul(6364136223846793005).wrapping_add(1);
            t = t.wrapping_add(1000 + (s >> 40) % 100);
            t
        })
        .collect();
    let enc = delta_bitpack::encode(Lane::W64, &vals);
    assert!(
        enc.len() < vals.len() * 8 / 4,
        "monotonic ids should pack small"
    );
    assert_eq!(
        delta_bitpack::decode(Lane::W64, &enc, vals.len()).unwrap(),
        vals
    );
    let none = delta_bitpack::encode(Lane::W64, &[]);
    assert_eq!(
        delta_bitpack::decode(Lane::W64, &none, 0).unwrap(),
        Vec::<u64>::new()
    );
    let one = [12345u64];
    let enc = delta_bitpack::encode(Lane::W64, &one);
    assert_eq!(delta_bitpack::decode(Lane::W64, &enc, 1).unwrap(), one);
}

#[test]
fn lane32_roundtrip() {
    let vals: Vec<u32> = (0..5000i32)
        .map(|i| (i * 2 - 300 + (i % 7)) as u32)
        .chain([u32::MAX, 0, 5])
        .collect();
    let vals = words(&vals);
    let enc = delta_bitpack::encode(Lane::W32, &vals);
    assert!(
        enc.len() < vals.len(),
        "smooth i32 deltas pack under 1 B/value"
    );
    assert_eq!(
        delta_bitpack::decode(Lane::W32, &enc, vals.len()).unwrap(),
        vals
    );
    let none = delta_bitpack::encode(Lane::W32, &[]);
    assert_eq!(
        delta_bitpack::decode(Lane::W32, &none, 0).unwrap(),
        Vec::<u64>::new()
    );
    let enc = delta_bitpack::encode(Lane::W32, &[7]);
    assert_eq!(delta_bitpack::decode(Lane::W32, &enc, 1).unwrap(), [7]);
}

fn dict_roundtrip(lane: Lane, vals: &[u64]) -> Option<usize> {
    for (entropy, lambda) in [(false, 0u64), (true, 0u64), (true, 4u64)] {
        let enc = dict::encode(lane, vals, entropy, lambda, true)?;
        assert_eq!(dict::decode(lane, &enc, vals.len()).unwrap(), vals);
    }
    Some(dict::encode(lane, vals, true, 0, true)?.len())
}

#[test]
fn low_cardinality_packs() {
    let mut s = 1u64;
    let vals: Vec<u64> = (0..16384)
        .map(|_| {
            s = s.wrapping_mul(6364136223846793005).wrapping_add(1);
            1_000_000_000u64 + (s >> 60)
        })
        .collect();
    let size = dict_roundtrip(Lane::W64, &vals).expect("should encode");
    assert!(
        size < vals.len(),
        "16-distinct column should pack to <1 B/value, got {}",
        size as f64 / vals.len() as f64
    );
    let vals32: Vec<u32> = vals
        .iter()
        .map(|&v| ((v % 16) as f32 * 0.125).to_bits())
        .collect();
    let size32 = dict_roundtrip(Lane::W32, &words(&vals32)).expect("should encode");
    assert!(size32 < vals32.len());
}

#[test]
fn high_cardinality_bails() {
    let vals: Vec<u64> = (0..10000u64).collect();
    assert!(dict::encode(Lane::W64, &vals, true, 0, true).is_none());
    let vals32: Vec<u32> = (0..10000u32).collect();
    assert!(dict::encode(Lane::W32, &words(&vals32), true, 0, true).is_none());
}

#[test]
fn entropy_cascade_beats_bitpack_on_skew() {
    let mut s = 1u64;
    let vals: Vec<u64> = (0..16384)
        .map(|_| {
            s = s.wrapping_mul(6364136223846793005).wrapping_add(1);
            if s & 0xF == 0 {
                100 + (s >> 60)
            } else {
                42
            }
        })
        .collect();
    let bp = dict::encode(Lane::W64, &vals, false, 0, false).unwrap().len();
    let ent = dict::encode(Lane::W64, &vals, true, 0, true).unwrap().len();
    assert!(
        ent < bp,
        "entropy cascade ({ent}) should beat bitpack ({bp})"
    );
}

#[test]
fn dict_value_compression_helps() {
    let sorted: Vec<u64> = (0..20000)
        .map(|i| (1000.0_f64 + i as f64 * 0.01).to_bits())
        .collect();
    let (tag, blob) = dict::encode_values(Lane::W64, &sorted, true, 0, true);
    assert_ne!(
        tag,
        dict::VAL_RAW,
        "sorted decimals should delta/transpose-compress"
    );
    assert!(
        blob.len() < sorted.len() * 8,
        "value compression should beat raw: {} vs {}",
        blob.len(),
        sorted.len() * 8
    );
    assert_eq!(
        dict::decode_values(Lane::W64, tag, &blob, sorted.len()).unwrap(),
        sorted
    );

    let mut s = 1u64;
    let vals: Vec<u64> = (0..80000)
        .map(|_| {
            s = s.wrapping_mul(6364136223846793005).wrapping_add(1);
            sorted[(s >> 49) as usize % sorted.len()]
        })
        .collect();
    let enc = dict::encode(Lane::W64, &vals, true, 0, true).unwrap();
    assert_eq!(dict::decode(Lane::W64, &enc, vals.len()).unwrap(), vals);

    let sorted32: Vec<u32> = (0..20000)
        .map(|i| (1000.0_f32 + i as f32 * 0.01).to_bits())
        .collect();
    let sorted32 = words(&sorted32);
    let (tag, blob) = dict::encode_values(Lane::W32, &sorted32, true, 0, true);
    assert!(blob.len() < sorted32.len() * 4);
    assert_eq!(
        dict::decode_values(Lane::W32, tag, &blob, sorted32.len()).unwrap(),
        sorted32
    );
}

#[test]
fn mid_cardinality_two_planes() {
    let mut s = 1u64;
    let vals: Vec<u64> = (0..40000)
        .map(|_| {
            s = s.wrapping_mul(6364136223846793005).wrapping_add(1);
            500_000_000u64 + (s >> 53) % 2000
        })
        .collect();
    dict_roundtrip(Lane::W64, &vals);
    let vals32: Vec<u32> = vals.iter().map(|&v| v as u32).collect();
    dict_roundtrip(Lane::W32, &words(&vals32));
}

#[test]
fn dict_edges() {
    assert!(dict::encode(Lane::W64, &[], true, 0, true).is_none());
    dict_roundtrip(Lane::W64, &vec![7u64; 1000]);
    dict_roundtrip(Lane::W32, &vec![7u64; 1000]);
}

#[test]
fn shared_roundtrip_across_blocks() {
    let mut s = 1u64;
    let table: Vec<u64> = (0..3000)
        .map(|_| {
            s = s.wrapping_mul(6364136223846793005).wrapping_add(1);
            s
        })
        .collect();
    let vals: Vec<u64> = (0..40000)
        .map(|i| {
            s = s.wrapping_mul(6364136223846793005).wrapping_add(1);
            table[((s >> 40) as usize + i) % table.len()]
        })
        .collect();
    let vals32: Vec<u64> = vals.iter().map(|&v| v >> 32).collect();

    for (entropy, lambda) in [(true, 0u64), (true, 2u64), (false, 0u64)] {
        let sd = dict::build_shared(Lane::W64, &vals, entropy, lambda, false).expect("should build");
        let decoded_table =
            dict::decode_shared_preamble(Lane::W64, &sd.preamble, vals.len()).expect("preamble");
        assert_eq!(decoded_table.len(), sd.card);
        for block in vals.chunks(4096) {
            let payload =
                dict::encode_shared(Lane::W64, block, &sd, entropy, lambda, false).unwrap();
            let out =
                dict::decode_shared(Lane::W64, &payload, block.len(), &decoded_table).unwrap();
            assert_eq!(out, block);
        }
        let sd =
            dict::build_shared(Lane::W32, &vals32, entropy, lambda, false).expect("should build");
        let decoded_table =
            dict::decode_shared_preamble(Lane::W32, &sd.preamble, vals32.len()).expect("preamble");
        for block in vals32.chunks(4096) {
            let payload =
                dict::encode_shared(Lane::W32, block, &sd, entropy, lambda, false).unwrap();
            let out =
                dict::decode_shared(Lane::W32, &payload, block.len(), &decoded_table).unwrap();
            assert_eq!(out, block);
        }
    }
}

#[test]
fn shared_bails_on_high_cardinality() {
    let vals: Vec<u64> = (0..10000u64).map(|i| i.wrapping_mul(0x9E3779B9)).collect();
    assert!(dict::build_shared(Lane::W64, &vals, true, 0, false).is_none());
}

#[test]
fn shared_decode_rejects_out_of_range_code() {
    let vals = vec![1u64, 2, 3, 1, 2, 3, 1, 2];
    let sd = dict::build_shared(Lane::W64, &vals, false, 0, false).unwrap();
    let payload = dict::encode_shared(Lane::W64, &vals, &sd, false, 0, false).unwrap();
    let short_table = vec![1u64];
    assert!(dict::decode_shared(Lane::W64, &payload, vals.len(), &short_table).is_err());
}

fn for_roundtrip(vals: &[u64]) -> usize {
    let enc = for_bitpack::encode(Lane::W64, vals, false);
    let dec = for_bitpack::decode(Lane::W64, &enc, vals.len()).unwrap();
    assert_eq!(dec, vals);
    enc.len()
}

fn for_roundtrip_signed(vals: &[i64]) -> usize {
    let lane: Vec<u64> = vals.iter().map(|&v| v as u64).collect();
    let enc = for_bitpack::encode(Lane::W64, &lane, true);
    let dec = for_bitpack::decode(Lane::W64, &enc, lane.len()).unwrap();
    let got: Vec<i64> = dec.iter().map(|&w| w as i64).collect();
    assert_eq!(got, vals);
    enc.len()
}

fn for_roundtrip32(vals: &[u32], signed: bool) -> usize {
    let vals = words(vals);
    let enc = for_bitpack::encode(Lane::W32, &vals, signed);
    assert_eq!(
        for_bitpack::decode(Lane::W32, &enc, vals.len()).unwrap(),
        vals
    );
    enc.len()
}

#[test]
fn signed_mixed_sign_packs() {
    let vals: Vec<i64> = (0..4096).map(|i| (i % 200) as i64 - 100).collect();
    let size = for_roundtrip_signed(&vals);
    assert!(
        size < vals.len() * 2,
        "mixed-sign column should pack to <2 B/value, got {}",
        size as f64 / vals.len() as f64
    );
    for_roundtrip_signed(&[]);
    for_roundtrip_signed(&[-1, 0, 1]);
    for_roundtrip_signed(&[i64::MIN, 0, i64::MAX]);
    for_roundtrip_signed(&(-5000..5000i64).collect::<Vec<_>>());
}

#[test]
fn integer_column_shapes() {
    let narrow: Vec<u64> = (0..5000u64).map(|i| 1_000_000 + (i % 250)).collect();
    let size = for_roundtrip(&narrow);
    assert!(
        size < narrow.len() * 8 / 3,
        "narrow column should pack small"
    );
    for_roundtrip(&[]);
    for_roundtrip(&[42]);
    for_roundtrip(&vec![7u64; 3000]);
    for_roundtrip(&(0..3000u64).collect::<Vec<_>>());
    let mut s = 1u64;
    let wide: Vec<u64> = (0..3000)
        .map(|_| {
            s = s.wrapping_mul(6364136223846793005).wrapping_add(1);
            s
        })
        .collect();
    for_roundtrip(&wide);
}

#[test]
fn wide_bounded_range_packs() {
    let base = 1u64 << 50;
    let vals: Vec<u64> = (0..4096u64)
        .map(|i| base + (i.wrapping_mul(2_500_003) & ((1 << 40) - 1)))
        .collect();
    let size = for_roundtrip(&vals);
    assert!(
        size < vals.len() * 6,
        "wide-but-bounded column should pack under 6 B/value, got {} B/value",
        size as f64 / vals.len() as f64
    );
}

#[test]
fn lane32_shapes() {
    for_roundtrip32(&[], false);
    for_roundtrip32(&[42], false);
    for_roundtrip32(&[0, u32::MAX], false);
    for_roundtrip32(&vec![7u32; 3000], false);
    let mut s = 1u32;
    let noise: Vec<u32> = (0..3000)
        .map(|_| {
            s = s.wrapping_mul(1664525).wrapping_add(1013904223);
            s
        })
        .collect();
    let size = for_roundtrip32(&noise, false);
    let padded = noise.len().div_ceil(BLOCK) * (32 * 32 * 4 + 5) + 2;
    assert!(size <= padded, "u32 noise packs at ~4 B: {size} > {padded}");
    let signed: Vec<u32> = (0..4096i32).map(|i| ((i % 200) - 100) as u32).collect();
    let size = for_roundtrip32(&signed, true);
    assert!(size < signed.len() * 2, "mixed-sign i32 packs <2 B/value");
    for_roundtrip32(&[i32::MIN as u32, 0, i32::MAX as u32], true);
    for_roundtrip32(&[u32::MAX, 0, 1], true);
    let mut enc = for_bitpack::encode(Lane::W32, &[1, 2, 3], false);
    enc[1] = 40;
    assert!(for_bitpack::decode(Lane::W32, &enc, 3).is_err());
}

#[test]
fn idelta2_roundtrips() {
    let vals: Vec<u64> = (0..1000u64)
        .map(|i| i.wrapping_mul(3).wrapping_sub(7))
        .collect();
    let enc = linear::idelta2_encode(Lane::W64, &vals);
    assert_eq!(
        linear::idelta2_decode(Lane::W64, &enc, vals.len()).unwrap(),
        vals
    );
    let vals32: Vec<u32> = (0..1000u32)
        .map(|i| i.wrapping_mul(3).wrapping_sub(7))
        .collect();
    let vals32 = words(&vals32);
    let enc = linear::idelta2_encode(Lane::W32, &vals32);
    assert!(
        enc.len() <= vals32.len() + 8,
        "constant 2nd difference → 1 byte/value"
    );
    assert_eq!(
        linear::idelta2_decode(Lane::W32, &enc, vals32.len()).unwrap(),
        vals32
    );
}

#[test]
fn roundtrip_repetitive() {
    let vals: Vec<u64> = (0..50_000u64)
        .map(|i| (i & 15) as f64)
        .map(f64::to_bits)
        .collect();
    let enc = lz::encode(Lane::W64, &vals);
    assert!(
        enc.len() < vals.len() * 8 / 4,
        "repetitive data should shrink a lot"
    );
    assert_eq!(lz::decode(Lane::W64, &enc, vals.len()).unwrap(), vals);
}

#[test]
fn roundtrip_random_and_edges() {
    let mut s = 1u64;
    let vals: Vec<u64> = (0..5000)
        .map(|_| {
            s = s.wrapping_mul(6364136223846793005).wrapping_add(1);
            s
        })
        .collect();
    let lane = Lane::W64;
    assert_eq!(
        lz::decode(lane, &lz::encode(lane, &vals), vals.len()).unwrap(),
        vals
    );
    assert_eq!(
        lz::decode(lane, &lz::encode(lane, &[]), 0).unwrap(),
        Vec::<u64>::new()
    );
    assert_eq!(
        lz::decode(lane, &lz::encode(lane, &[42]), 1).unwrap(),
        vec![42]
    );
}

#[test]
fn empty_block_bails() {
    assert!(pcodec::compress64(&[], DType::F64, 8).is_none());
    assert!(pcodec::compress32(&[], DType::F32, 8).is_none());
    assert!(pcodec::compress32(&[1, 2], DType::F64, 8).is_none());
}

#[test]
fn pco_payload_is_of_its_type() {
    let vals: Vec<u64> = (0..1000u64).map(|i| i * i).collect();
    let enc = pcodec::compress64(&vals, DType::U64, 8).unwrap();
    assert!(enc.len() < vals.len() * 8);
    assert_eq!(
        pcodec::decompress64(&enc, vals.len(), DType::U64).unwrap(),
        vals
    );
    let corrupt = Err(Error::CorruptPayload("pco decode"));
    assert_eq!(pcodec::decompress64(&enc, 999, DType::U64), corrupt);
    assert_eq!(pcodec::decompress64(&enc[..5], 1000, DType::U64), corrupt);
    assert_eq!(pcodec::decompress64(&enc, 1000, DType::I32), corrupt);
}

#[test]
fn both_lanes_roundtrip() {
    let v64: Vec<u64> = (0..3000)
        .map(|i| ((i % 50) as f64 * 0.5).to_bits())
        .collect();
    let fcm = pred::encode(Lane::W64, &v64, 12);
    assert_eq!(
        pred::decode(Lane::W64, &fcm, v64.len(), 12).unwrap(),
        v64
    );
    let dfcm = pred::dfcm_encode(Lane::W64, &v64, 12);
    assert_eq!(
        pred::dfcm_decode(Lane::W64, &dfcm, v64.len(), 12).unwrap(),
        v64
    );
    let v32: Vec<u32> = (0..3000)
        .map(|i| ((i % 50) as f32 * 0.5).to_bits())
        .collect();
    let v32 = words(&v32);
    let fcm = pred::encode(Lane::W32, &v32, 12);
    assert!(fcm.len() < v32.len() * 2, "repeats predict well");
    assert_eq!(
        pred::decode(Lane::W32, &fcm, v32.len(), 12).unwrap(),
        v32
    );
    let dfcm = pred::dfcm_encode(Lane::W32, &v32, 12);
    assert_eq!(
        pred::dfcm_decode(Lane::W32, &dfcm, v32.len(), 12).unwrap(),
        v32
    );
    let none = pred::encode(Lane::W32, &[], 10);
    assert_eq!(
        pred::decode(Lane::W32, &none, 0, 10).unwrap(),
        Vec::<u64>::new()
    );
    assert_eq!(
        bench_internals::fcm_encode(&v64, 12),
        pred::encode(Lane::W64, &v64, 12)
    );
    assert_eq!(
        bench_internals::dfcm_encode(&v64, 12),
        pred::dfcm_encode(Lane::W64, &v64, 12)
    );
}

#[test]
fn range_coded_residuals_roundtrip() {
    let vals: Vec<u64> = (0..2000u64).map(|i| i % 9).collect();
    let residuals = pred::encode(Lane::W64, &vals, 10);
    let coded = pred_rc::encode_from_residuals(&residuals);
    assert_eq!(
        pred_rc::decode(Lane::W64, &coded, vals.len(), 10).unwrap(),
        vals
    );
}

#[test]
fn both_widths() {
    let v64 = [1u64, u64::MAX, 0x0102_0304_0506_0708];
    let e = raw::encode(Lane::W64, &v64);
    assert_eq!(e.len(), 24);
    assert_eq!(&e[16..24], &0x0102_0304_0506_0708u64.to_le_bytes());
    assert_eq!(raw::decode(Lane::W64, &e, 3).unwrap(), v64);
    let v32 = [1u64, u32::MAX as u64, 0x0102_0304];
    let e = raw::encode(Lane::W32, &v32);
    assert_eq!(e.len(), 12);
    assert_eq!(&e[8..12], &0x0102_0304u32.to_le_bytes());
    assert_eq!(raw::decode(Lane::W32, &e, 3).unwrap(), v32);
    assert!(raw::decode(Lane::W32, &e, 2).is_err());
}

fn rle_roundtrip(vals: &[u64]) -> Option<usize> {
    let enc = rle::encode(Lane::W64, vals)?;
    assert_eq!(rle::decode(Lane::W64, &enc, vals.len()).unwrap(), vals);
    Some(enc.len())
}

#[test]
fn long_runs_pack() {
    let mut vals = Vec::new();
    for r in 0..50u64 {
        vals.extend(std::iter::repeat_n(1_000_000 + r * 7, 200));
    }
    let size = rle_roundtrip(&vals).expect("should encode");
    assert!(size < vals.len(), "long runs should pack tiny, got {size}");
}

#[test]
fn no_runs_bails() {
    let vals: Vec<u64> = (0..10000u64).collect();
    assert!(rle::encode(Lane::W64, &vals).is_none());
}

#[test]
fn rle_edges() {
    assert!(rle::encode(Lane::W64, &[]).is_none());
    rle_roundtrip(&vec![3u64; 5000]);
    rle_roundtrip(&[1, 1, 2, 2, 2, 3]);
}

#[test]
fn planes_per_lane_width() {
    let v32: Vec<u64> = (0..100).map(|i| 0x0102_0300 | i).collect();
    let soa = transpose::encode(Lane::W32, &v32);
    assert_eq!(soa.len(), 400);
    assert!(soa[100..200].iter().all(|&b| b == 0x03));
    assert!(soa[300..400].iter().all(|&b| b == 0x01));
    assert_eq!(transpose::decode(Lane::W32, &soa, 100).unwrap(), v32);
    assert!(transpose::decode(Lane::W32, &soa, 99).is_err());

    let v64: Vec<u64> = (0..100).map(|i| 0x0102_0304_0506_0700 | i).collect();
    let soa = transpose::encode(Lane::W64, &v64);
    assert_eq!(soa.len(), 800);
    assert_eq!(transpose::decode(Lane::W64, &soa, 100).unwrap(), v64);
}

#[test]
fn const_stride_xorz() {
    let lane = Lane::W64;
    let same = vec![9u64; 40];
    let enc = const_block::encode(lane, &same).unwrap();
    assert_eq!(enc, 9u64.to_le_bytes());
    assert_eq!(const_block::decode(lane, &enc, 40).unwrap(), same);
    assert!(const_block::encode(lane, &[1, 2]).is_none());
    let steps: Vec<u64> = (0..50u64).map(|i| 100u64.wrapping_sub(i * 7)).collect();
    let enc = stride::encode(lane, &steps).unwrap();
    assert_eq!(stride::decode(lane, &enc, 50).unwrap(), steps);
    assert!(stride::encode(lane, &[1, 2, 4]).is_none());
    let vals = [5u64, 5, 7, 6, u64::MAX];
    let enc = xorz::encode(lane, &vals);
    assert_eq!(&enc[..4], &[5, 0, 2, 1]);
    assert_eq!(xorz::decode(lane, &enc, 5).unwrap(), vals);
}

#[test]
fn packing_kernels() {
    let vals: Vec<u64> = (0..3000u64).map(|i| 500 + i * 3).collect();
    let enc = bench_internals::for_bitpack_encode(&vals);
    assert_eq!(
        bench_internals::for_bitpack_decode(&enc, 3000),
        Ok(vals.clone())
    );
    let enc = bench_internals::delta_bitpack_encode(&vals);
    assert_eq!(bench_internals::delta_bitpack_decode(&enc, 3000), Ok(vals));
}

#[test]
fn pco_takes_every_integer_block_at_its_levels() {
    let ramp: Vec<u64> = (0..1000u64).map(|i| 7 + 3 * i).collect();
    let noise: Vec<u64> = (0..1000u64)
        .map(|i| i.wrapping_mul(0x9E37_79B9_7F4A_7C15) >> 33)
        .collect();
    let periodic: Vec<u64> = (0..3000u64).map(|i| (i % 97) * 1_000_003 % 65_521).collect();
    let blocks: [&[u64]; 5] = [&[5], &[0, 0xFFFF_FFFF], &ramp, &noise, &periodic];
    for dtype in [DType::U64, DType::I64, DType::U32, DType::I32] {
        let lane = dtype.lane();
        for block in blocks {
            for level in 0..=pcodec::PCO_MAX_LEVEL {
                let enc = pcodec::encode(lane, block, dtype, level).unwrap();
                assert_eq!(pcodec::decode(lane, &enc, block.len(), dtype).unwrap(), block);
            }
            assert!(pcodec::encode(lane, block, dtype, pcodec::PCO_MAX_LEVEL + 1).is_none());
        }
        assert!(pcodec::encode(lane, &[], dtype, 8).is_none());
    }
    assert!(pcodec::compress64(&[1, 2, 3], DType::U32, 8).is_none());
    assert!(pcodec::compress32(&[1, 2, 3], DType::U64, 8).is_none());
}
