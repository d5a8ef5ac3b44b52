use quoin::bench_internals;
use quoin::entropy::tans::TABLE_SIZE;
use quoin::entropy::{
    code_residuals, decode_residuals, rans, rc, tans, TAG_LZ, TAG_RANS, TAG_RC,
};
use quoin::Error;

fn lcg(s: &mut u64) -> u64 {
    *s = s
        .wrapping_mul(6364136223846793005)
        .wrapping_add(1442695040888963407);
    *s
}

#[test]
fn lz_cascade_triggers_and_roundtrips() {
    let block: Vec<u8> = (0..1024u32)
        .map(|i| (i.wrapping_mul(2_654_435_761) >> 16) as u8)
        .collect();
    let mut data = Vec::new();
    for _ in 0..50 {
        data.extend_from_slice(&block);
    }
    let coded = code_residuals(&data, 0, true);
    assert_eq!(
        coded[0], TAG_LZ,
        "long-range repeats should use the LZ cascade"
    );
    assert!(coded.len() < data.len() / 4, "cascade should compress hard");
    assert_eq!(decode_residuals(&coded, data.len()).unwrap(), data);

    let mut s = 0x1234_5678u64;
    let noise: Vec<u8> = (0..4000).map(|_| (lcg(&mut s) >> 33) as u8).collect();
    let c2 = code_residuals(&noise, 0, true);
    assert_ne!(c2[0], TAG_LZ);
    assert_eq!(decode_residuals(&c2, noise.len()).unwrap(), noise);

    let c3 = code_residuals(&data, 1, false);
    assert_ne!(c3[0], TAG_LZ, "cascade is Max-only");
    assert_eq!(decode_residuals(&c3, data.len()).unwrap(), data);
}

#[test]
fn residual_coder_obeys_the_cutoff() {
    let data: Vec<u8> = (0..3000u32).map(|i| (i * 7 % 16) as u8).collect();
    assert_eq!(code_residuals(&data, 10, false)[0], TAG_RANS);
    assert_eq!(code_residuals(&data, 0, false)[0], TAG_RC);
    assert_eq!(decode_residuals(&[], 10), Err(Error::Truncated));
    assert!(decode_residuals(&[77, 1, 2], 10).is_err());
}

fn rans_roundtrip(data: &[u8]) {
    match rans::compress_bytes(data) {
        Some(enc) => {
            let dec = rans::decompress_bytes(&enc, data.len()).unwrap();
            assert_eq!(dec, data, "rANS round-trip mismatch (len {})", data.len());
        }
        None => assert!(data.is_empty()),
    }
}

#[test]
fn roundtrips() {
    rans_roundtrip(&[]);
    rans_roundtrip(&[0]);
    rans_roundtrip(&[42; 1000]);
    rans_roundtrip(&[1, 2, 3, 4, 5]);
    let mut s = 1u64;
    let skewed: Vec<u8> = (0..20000)
        .map(|_| {
            s = s.wrapping_mul(6364136223846793005).wrapping_add(1);
            ((s >> 60) as u8) & if s & 0xF == 0 { 0xFF } else { 0x07 }
        })
        .collect();
    rans_roundtrip(&skewed);
    let allsyms: Vec<u8> = (0..256 * 40).map(|i| (i % 256) as u8).collect();
    rans_roundtrip(&allsyms);
    let mut s = 0x9E37_79B9u64;
    let noise: Vec<u8> = (0..30000)
        .map(|_| {
            s = s.wrapping_mul(6364136223846793005).wrapping_add(1);
            (s >> 56) as u8
        })
        .collect();
    rans_roundtrip(&noise);
}

#[test]
fn compresses_skewed() {
    let mut data = vec![0u8; 9000];
    data.extend((0..1000).map(|i| (i % 255 + 1) as u8));
    let enc = rans::compress_bytes(&data).unwrap();
    assert!(
        enc.len() < data.len() / 2,
        "skewed should compress, got {}",
        enc.len()
    );
    assert_eq!(rans::decompress_bytes(&enc, data.len()).unwrap(), data);
    assert_eq!(bench_internals::rans_compress(&data), Some(enc.clone()));
    assert_eq!(bench_internals::rans_decompress(&enc, data.len()), Ok(data));
}

#[test]
fn roundtrip_random_bytes() {
    let mut s = 1u64;
    let data: Vec<u8> = (0..50_000).map(|_| (lcg(&mut s) >> 33) as u8).collect();
    let packed = rc::compress_bytes(&data);
    let restored = rc::decompress_bytes(&packed, data.len()).unwrap();
    assert_eq!(restored, data);
}

#[test]
fn roundtrip_skewed_bytes() {
    let mut s = 7u64;
    let data: Vec<u8> = (0..50_000)
        .map(|_| {
            if lcg(&mut s).is_multiple_of(16) {
                (lcg(&mut s) >> 40) as u8
            } else {
                0
            }
        })
        .collect();
    let packed = rc::compress_bytes(&data);
    assert!(packed.len() < data.len(), "skewed data should shrink");
    let restored = rc::decompress_bytes(&packed, data.len()).unwrap();
    assert_eq!(restored, data);
    assert_eq!(bench_internals::rc_compress(&data), packed);
    assert_eq!(bench_internals::rc_decompress(&packed, data.len()), Ok(data));
}

#[test]
fn empty() {
    let packed = rc::compress_bytes(&[]);
    assert_eq!(rc::decompress_bytes(&packed, 0).unwrap(), Vec::<u8>::new());
}

/// The rounded frequency of each symbol that occurs, in symbol order.
fn rounded(data: &[u8]) -> Vec<u16> {
    let mut counts = [0u32; 256];
    for &b in data {
        counts[b as usize] += 1;
    }
    let which: Vec<usize> = (0..256).filter(|&s| counts[s] > 0).collect();
    let total = data.len();
    let mult = if total > 0 {
        TABLE_SIZE as f32 / total as f32
    } else {
        0.0
    };
    let desired: Vec<f32> = which
        .iter()
        .map(|&s| (counts[s] as f32 * mult - 1.0).max(0.0))
        .collect();
    let total_desired: f32 = desired.iter().sum();
    let surplus = if total_desired > 0.0 {
        (TABLE_SIZE as f32 - which.len() as f32) / total_desired
    } else {
        0.0
    };
    desired
        .iter()
        .map(|d| ((1.0 + d * surplus + 0.5) as u16).max(1))
        .collect()
}

fn tans_check(data: &[u8]) {
    match tans::compress_bytes(data, &rounded(data)) {
        Some(packed) => {
            let restored = tans::decompress_bytes(&packed, data.len()).unwrap();
            assert_eq!(
                restored,
                data,
                "tans round-trip mismatch (len {})",
                data.len()
            );
        }
        None => {}
    }
}

#[test]
fn roundtrip_skewed() {
    let mut s = 1u64;
    let data: Vec<u8> = (0..40_000)
        .map(|_| {
            if lcg(&mut s).is_multiple_of(8) {
                (lcg(&mut s) >> 50) as u8
            } else {
                0
            }
        })
        .collect();
    let packed = tans::compress_bytes(&data, &rounded(&data)).expect("skewed compresses");
    assert!(packed.len() < data.len());
    assert_eq!(tans::decompress_bytes(&packed, data.len()).unwrap(), data);
    assert_eq!(
        bench_internals::tans_compress(&data, &rounded(&data)),
        Some(packed.clone())
    );
    assert_eq!(
        bench_internals::tans_decompress(&packed, data.len()),
        Ok(data)
    );
}

#[test]
fn roundtrip_uniform_and_single() {
    let mut s = 99u64;
    tans_check(
        &(0..40_000)
            .map(|_| (lcg(&mut s) >> 40) as u8)
            .collect::<Vec<_>>(),
    );
    tans_check(&vec![7u8; 5000]);
    tans_check(&[42u8]);
    tans_check(&[]);
}

#[test]
fn coders_refuse_long_outputs() {
    let data = vec![3u8; 100];
    let packed = rc::compress_bytes(&data);
    assert!(rc::decompress_bytes(&packed, 99).is_err());
    let packed = rans::compress_bytes(&data).unwrap();
    assert!(rans::decompress_bytes(&packed, 99).is_err());
    assert!(rans::decompress_bytes(&packed[..packed.len() / 2], 100).is_err());
}
