use quoin::bench_internals;
use quoin::bitio::{BitReader, BitWriter};
use quoin::bitpack::{pack, pack64, unpack, unpack64, BLOCK};
use quoin::format::{max_block_values, Header, LEGACY_VERSION, MAX_BLOCK_VALUES, VERSION};
use quoin::hash::{best_hash, crc32c_u64_sw, HASH_SEED};
use quoin::lane::Lane;
use quoin::transform::{byte_transpose, byte_untranspose};
use quoin::validity::{canonical, compact, count_valid, decode, encode, from_bools, scatter, set_bit};
use quoin::varint::{read_u64, write_u64};
use quoin::{DType, Error};

const LANES: usize = 32;
const LANES64: usize = 16;

fn mask32(width: u32) -> u32 {
    if width == 32 {
        u32::MAX
    } else {
        (1u32 << width) - 1
    }
}

fn mask64(width: u32) -> u64 {
    if width == 64 {
        u64::MAX
    } else {
        (1u64 << width) - 1
    }
}

#[test]
fn roundtrip_varints() {
    let cases = [
        0u64,
        1,
        127,
        128,
        300,
        u32::MAX as u64,
        u64::MAX,
        0x0123_4567_89ab_cdef,
    ];
    let mut buf = Vec::new();
    for &c in &cases {
        write_u64(&mut buf, c);
    }
    let mut pos = 0;
    for &c in &cases {
        assert_eq!(read_u64(&buf, &mut pos).unwrap(), c);
    }
    assert_eq!(pos, buf.len());
}

#[test]
fn varint_bytes_are_leb128() {
    let mut buf = Vec::new();
    write_u64(&mut buf, 300);
    assert_eq!(buf, vec![0xAC, 0x02]);
    let mut pos = 0;
    assert_eq!(read_u64(&[0x80], &mut pos), Err(Error::Truncated));
}

#[test]
fn roundtrip_varied_widths() {
    let items: &[(u64, u32)] = &[
        (0, 1),
        (1, 1),
        (5, 3),
        (0, 0),
        (1023, 10),
        (255, 8),
        (0x1_2345, 17),
        (3, 2),
    ];
    let mut w = BitWriter::new();
    for &(v, b) in items {
        w.put(v, b);
    }
    let bytes = w.finish();
    let mut r = BitReader::new(&bytes);
    for &(v, b) in items {
        assert_eq!(r.get(b), v, "mismatch reading {b} bits");
    }
}

#[test]
fn long_stream() {
    let mut s = 12345u64;
    let mut vals = Vec::new();
    let mut w = BitWriter::new();
    for _ in 0..10_000 {
        s = s.wrapping_mul(6364136223846793005).wrapping_add(1);
        let bits = 1 + (s % 11) as u32;
        let mask = (1u64 << bits) - 1;
        let v = (s >> 20) & mask;
        vals.push((v, bits));
        w.put(v, bits);
    }
    let bytes = w.finish();
    let mut r = BitReader::new(&bytes);
    for (v, bits) in vals {
        assert_eq!(r.get(bits), v);
    }
}

#[test]
fn pack_unpack_all_widths() {
    let mut s = 0x1234_5678u32;
    let mut next = || {
        s = s.wrapping_mul(1664525).wrapping_add(1013904223);
        s
    };
    for width in 0..=32u32 {
        let mask = mask32(width);
        let mut values = [0u32; BLOCK];
        for v in values.iter_mut() {
            *v = next() & mask;
        }
        let mut packed = vec![0u32; LANES * width as usize];
        pack(&values, width, &mut packed);
        let mut out = [0u32; BLOCK];
        unpack(&packed, width, &mut out);
        assert_eq!(values, out, "round-trip failed at width {width}");
    }
}

#[test]
fn boundary_values() {
    for width in 1..=32u32 {
        let mask = mask32(width);
        for fill in [0u32, mask, 0xAAAA_AAAA & mask, 1] {
            let values = [fill; BLOCK];
            let mut packed = vec![0u32; LANES * width as usize];
            pack(&values, width, &mut packed);
            let mut out = [0u32; BLOCK];
            unpack(&packed, width, &mut out);
            assert_eq!(values, out, "width {width} fill {fill:#x}");
        }
    }
}

#[test]
fn pack_unpack64_all_widths() {
    let mut s = 0x1234_5678_9ABC_DEF0u64;
    let mut next = || {
        s = s
            .wrapping_mul(6364136223846793005)
            .wrapping_add(1442695040888963407);
        s
    };
    for width in 0..=64u32 {
        let mask = mask64(width);
        let mut values = [0u64; BLOCK];
        for v in values.iter_mut() {
            *v = next() & mask;
        }
        let mut packed = vec![0u64; LANES64 * width as usize];
        pack64(&values, width, &mut packed);
        let mut out = [0u64; BLOCK];
        unpack64(&packed, width, &mut out);
        assert_eq!(values, out, "u64 round-trip failed at width {width}");
    }
}

#[test]
fn boundary_values64() {
    for width in 1..=64u32 {
        let mask = mask64(width);
        for fill in [0u64, mask, 0xAAAA_AAAA_AAAA_AAAA & mask, 1] {
            let values = [fill; BLOCK];
            let mut packed = vec![0u64; LANES64 * width as usize];
            pack64(&values, width, &mut packed);
            let mut out = [0u64; BLOCK];
            unpack64(&packed, width, &mut out);
            assert_eq!(values, out, "u64 width {width} fill {fill:#x}");
        }
    }
}

#[test]
fn deterministic_and_spread() {
    let mask = (1u32 << 16) - 1;
    let a = best_hash(HASH_SEED, 1) & mask;
    let b = best_hash(HASH_SEED, 2) & mask;
    assert_ne!(a, b);
    assert_eq!(best_hash(HASH_SEED, 1), best_hash(HASH_SEED, 1));
}

#[test]
fn crc32c_known_values() {
    // A zero register stays zero on zero input; from an all-ones register, with
    // the final complement, eight zero bytes give the usual CRC32C.
    assert_eq!(crc32c_u64_sw(0, 0), 0);
    assert_eq!(crc32c_u64_sw(u32::MAX, 0) ^ u32::MAX, 0x8C28_B28A);
    let vals = [1u64, 2, 3];
    assert_eq!(
        bench_internals::hash_fold_best(&vals),
        bench_internals::hash_fold_sw(&vals)
    );
    let folded = vals.iter().fold(0u32, |c, &v| c ^ crc32c_u64_sw(HASH_SEED, v));
    assert_eq!(bench_internals::hash_fold_sw(&vals), folded);
}

#[test]
fn zigzag_roundtrips_both_lanes() {
    for &v in &[0u64, 1, 2, u64::MAX, u64::MAX - 1, 1u64 << 63, 12345] {
        assert_eq!(Lane::W64.unzigzag(Lane::W64.zigzag(v)), v);
    }
    for &v in &[0u32, 1, 2, u32::MAX, u32::MAX - 1, 1u32 << 31, 12345] {
        assert_eq!(Lane::W32.unzigzag(Lane::W32.zigzag(v as u64)), v as u64);
    }
    assert_eq!(Lane::W64.zigzag((-1i64) as u64), 1);
    assert_eq!(Lane::W32.zigzag((-1i32) as u32 as u64), 1);
    assert_eq!(Lane::W32.zigzag(3), 6);
}

#[test]
fn signed_views() {
    assert_eq!(Lane::W32.as_signed(-5i32 as u32 as u64), -5);
    assert_eq!(Lane::W32.from_signed(-5), -5i32 as u32 as u64);
    assert_eq!(Lane::W64.as_signed(-5i64 as u64), -5);
    assert_eq!(Lane::W32.as_signed(u32::MAX as u64), -1);
}

#[test]
fn exponent_fields() {
    let (narrow, wide) = (Lane::W32, Lane::W64);
    assert_eq!(narrow.exponent_field(1.0f32.to_bits() as u64), 127);
    assert_eq!(
        narrow.exponent_field(f32::INFINITY.to_bits() as u64),
        narrow.exp_all_ones()
    );
    assert_eq!(
        narrow.exponent_field(f32::NAN.to_bits() as u64),
        narrow.exp_all_ones()
    );
    assert_eq!(wide.exponent_field(1.0f64.to_bits()), 1023);
    assert_eq!(wide.exponent_field(f64::NAN.to_bits()), wide.exp_all_ones());
}

#[test]
fn try_from_u64_rejects_overflow() {
    assert!(Lane::W32.try_from_u64(1 << 32).is_err());
    assert_eq!(
        Lane::W32.try_from_u64(u32::MAX as u64).unwrap(),
        u32::MAX as u64
    );
}

#[test]
fn legacy_version_only_for_wide_lanes() {
    let mut h = Vec::new();
    Header {
        predictor_log2: 16,
        dtype: DType::F32,
        has_validity: false,
        has_shared_dict: false,
        n_values: 3,
    }
    .write(&mut h);
    assert_eq!(h[4], VERSION);
    assert!(Header::read(&h).is_ok());
    h[4] = LEGACY_VERSION;
    assert!(matches!(
        Header::read(&h),
        Err(Error::UnsupportedVersion(2))
    ));
    h[7] = DType::F64.wire_id();
    assert!(Header::read(&h).is_ok());
    h[4] = 1;
    assert!(matches!(
        Header::read(&h),
        Err(Error::UnsupportedVersion(1))
    ));
}

#[test]
fn block_budget_is_bytes() {
    assert_eq!(max_block_values(8), 128 * 1024);
    assert_eq!(max_block_values(4), 256 * 1024);
    assert_eq!(MAX_BLOCK_VALUES, max_block_values(8));
}

#[test]
fn transpose_roundtrips() {
    for w in [4usize, 8] {
        let n = 1000usize;
        let mut s = 0x9e3779b9u64;
        let aos: Vec<u8> = (0..n * w)
            .map(|_| {
                s = s.wrapping_mul(6364136223846793005).wrapping_add(1);
                (s >> 33) as u8
            })
            .collect();
        let mut soa = vec![0u8; n * w];
        byte_transpose(&aos, n, w, &mut soa);
        assert!(soa[..n].iter().enumerate().all(|(i, &b)| b == aos[i * w]));
        let mut back = vec![0u8; n * w];
        byte_untranspose(&soa, n, w, &mut back);
        assert_eq!(back, aos);
    }
}

fn validity_roundtrip(bits: &[bool]) {
    let n = bits.len();
    let mut bm = vec![0u8; n.div_ceil(8)];
    for (i, &b) in bits.iter().enumerate() {
        if b {
            set_bit(&mut bm, i);
        }
    }
    let enc = encode(&bm, n);
    let dec = decode(&enc, n).unwrap();
    assert_eq!(dec, bm, "validity round-trip n={n}");
    assert_eq!(count_valid(&bm, n), bits.iter().filter(|b| **b).count());
    assert_eq!(from_bools(bits), bm);
}

#[test]
fn shapes() {
    validity_roundtrip(&[]);
    validity_roundtrip(&[true]);
    validity_roundtrip(&[false]);
    validity_roundtrip(&vec![true; 1000]);
    validity_roundtrip(&vec![false; 1000]);
    let mut v = vec![true; 1000];
    for b in v.iter_mut().take(700).skip(500) {
        *b = false;
    }
    validity_roundtrip(&v);
    let mut s = 1u64;
    let scattered: Vec<bool> = (0..1000)
        .map(|_| {
            s = s.wrapping_mul(6364136223846793005).wrapping_add(1);
            s & 1 == 0
        })
        .collect();
    validity_roundtrip(&scattered);
    validity_roundtrip(&[true, false, true, true, false]);
}

#[test]
fn compact_scatter() {
    let lane = vec![10u64, 20, 30, 40, 50];
    let mut bm = vec![0u8];
    for i in [0, 2, 4] {
        set_bit(&mut bm, i);
    }
    let c = compact(&lane, &bm);
    assert_eq!(c, vec![10, 30, 50]);
    let s = scatter(&c, &bm, 5).unwrap();
    assert_eq!(s, vec![10, 0, 30, 0, 50]);
}

#[test]
fn validity_refusals() {
    assert_eq!(decode(&[], 3), Err(Error::Truncated));
    assert_eq!(decode(&[9], 3), Err(Error::CorruptPayload("validity tag")));
    assert_eq!(decode(&[0], 3), Err(Error::Truncated));
    assert_eq!(
        decode(&[1, 9], 3),
        Err(Error::CorruptPayload("validity run overruns"))
    );
    assert_eq!(canonical(&[0xFF], 3), vec![0x07]);
}

#[test]
fn bitpack_kernels_keep_low_bits() {
    let mut values = [0u32; 1024];
    for (i, v) in values.iter_mut().enumerate() {
        *v = i as u32;
    }
    let mut packed = vec![0u32; 32 * 4];
    bench_internals::bitpack(&values, 4, &mut packed);
    let mut out = [0u32; 1024];
    bench_internals::bitunpack(&packed, 4, &mut out);
    assert!(out.iter().enumerate().all(|(i, &v)| v == (i % 16) as u32));
    assert_eq!(bench_internals::BITPACK_BLOCK, 1024);
    let src: Vec<u8> = (0..24).collect();
    let mut dst = vec![0u8; 24];
    bench_internals::byte_transpose(&src, 3, &mut dst);
    assert_eq!(&dst[..6], &[0, 8, 16, 1, 9, 17]);
}
