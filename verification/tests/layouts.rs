use quoin::bench_internals;
use quoin::codecs::{delta_bitpack, dict, float_mult, for_bitpack, lz, patched, pcodec, rle};
use quoin::config::Level;
use quoin::encoder::{
    best_block_full, best_block_sampled, encode_block_full, encode_block_sampled,
};
use quoin::entropy::code_residuals;
use quoin::lane::Lane;
use quoin::{compress_column, ColumnRef, Config, DType, Mode, ModeWins, Selection};

fn le(v: u64) -> Vec<u8> {
    v.to_le_bytes().to_vec()
}

fn joined(parts: &[Vec<u8>]) -> Vec<u8> {
    parts.concat()
}

#[test]
fn lz_tokens_are_greedy_and_grouped() {
    // A literal, then one overlapping match over the rest.
    assert_eq!(lz::lz_compress(b"aaaaaaaa"), [8, 0b0100_0000, b'a', 1, 3]);
    // Too short to match: literals only, nine of them in two groups.
    assert_eq!(
        lz::lz_compress(b"abcdefghi"),
        [9, 0, b'a', b'b', b'c', b'd', b'e', b'f', b'g', b'h', 0, b'i']
    );
    // Of two places with the same four bytes the later is taken, unless the earlier
    // one matches further.
    assert_eq!(
        lz::lz_compress(b"wxyzAwxyzBwxyzA"),
        [15, 0b0000_0101, b'w', b'x', b'y', b'z', b'A', 5, 0, b'B', 10, 1]
    );
}

#[test]
fn range_coder_bytes_are_fixed() {
    assert_eq!(bench_internals::rc_compress(b""), [0, 0, 0, 0, 0, 0]);
    assert_eq!(bench_internals::rc_compress(b"a"), [1, 0, 96, 255, 252, 0]);
    assert_eq!(
        bench_internals::rc_compress(b"abab"),
        [4, 0, 97, 98, 93, 99, 60, 81, 128]
    );
}

#[test]
fn rans_bytes_are_fixed() {
    assert_eq!(bench_internals::rans_compress(b""), None);
    assert_eq!(
        bench_internals::rans_compress(b"aa").unwrap(),
        [2, 1, 97, 128, 32, 0, 0, 128, 0, 0, 0, 128, 0, 0, 0, 128, 0, 0, 0, 128, 0]
    );
    assert_eq!(
        bench_internals::rans_compress(b"aab").unwrap(),
        [3, 2, 97, 171, 21, 98, 213, 10, 171, 246, 191, 0, 171, 246, 191, 0, 86, 29, 128, 1, 0, 0, 128, 0]
    );
}

#[test]
fn residual_coder_follows_the_weight() {
    // Decode speed counts: rANS. Only size counts: the smaller coder.
    let fast = code_residuals(b"aa", 10, false);
    assert_eq!(fast[0], 2);
    assert_eq!(fast[1..], bench_internals::rans_compress(b"aa").unwrap());
    let small = code_residuals(b"aa", 0, false);
    assert_eq!(small[0], 0);
    assert_eq!(small[1..], bench_internals::rc_compress(b"aa"));
    // The cascade is tried on long residuals only where it is allowed.
    let long: Vec<u8> = (0..4096u32).map(|i| (i % 256) as u8).collect();
    assert_eq!(code_residuals(&long, 10, true)[0], 3);
    assert_eq!(code_residuals(&long, 10, false)[0], 2);
}

#[test]
fn frame_of_reference_layout() {
    // A constant sub-block needs no bits.
    assert_eq!(
        for_bitpack::encode(Lane::W64, &[5, 5, 5], false),
        joined(&[vec![3, 0], le(5)])
    );
    // Signed and unsigned order find different minima.
    let signed = for_bitpack::encode(Lane::W32, &[0xFFFF_FFFF, 1], true);
    assert_eq!(signed[..6], [2, 2, 0xFF, 0xFF, 0xFF, 0xFF]);
    assert_eq!(signed.len(), 6 + 256);
    // Value 0 stands in lane 0, value 1 in lane 1: offsets 0 and 2.
    assert_eq!(signed[6..14], [0, 0, 0, 0, 2, 0, 0, 0]);
    let unsigned = for_bitpack::encode(Lane::W32, &[0xFFFF_FFFF, 1], false);
    assert_eq!(unsigned[..6], [2, 32, 1, 0, 0, 0]);
}

#[test]
fn delta_layout() {
    assert_eq!(
        delta_bitpack::encode(Lane::W64, &[9, 9]),
        joined(&[le(9), vec![2, 0], le(0)])
    );
}

#[test]
fn run_length_layout() {
    assert_eq!(
        rle::encode(Lane::W64, &[7, 7, 7, 4, 4, 4]).unwrap(),
        joined(&[vec![2], le(7), le(4), vec![2, 0], le(3)])
    );
}

#[test]
fn dictionary_layout() {
    assert_eq!(
        dict::encode(Lane::W64, &[9, 9], false, 10, false).unwrap(),
        joined(&[vec![1, 0, 8], le(9), vec![0, 2, 0], le(0)])
    );
}

#[test]
fn patched_layout() {
    // One wide value among small ones is patched.
    let mut vals = vec![1u64; 20];
    vals[3] = 1 << 40;
    let out = patched::pack_residuals(&vals);
    assert_eq!(out[..3], [1, 1, 0]);
    assert_eq!(out.len(), 3 + 128 + 10);
    assert_eq!(out[131..], joined(&[vec![3, 0], le(1 << 40)]));
}

#[test]
fn float_mult_layout() {
    assert_eq!(
        float_mult::store(Lane::W64, 2, &[6, 6], false, 10, false).unwrap(),
        joined(&[vec![0, 2, 2, 0], le(6)])
    );
}

#[test]
fn stream_layout() {
    let cfg = Config {
        level: Level::Fast,
        predictor_log2: 12,
        ..Config::default()
    };
    let mut wins = ModeWins::new();
    let v = 0x0123_4567_89AB_CDEFi64;
    let out = compress_column(ColumnRef::I64(&[v, v, v]), None, cfg, &[], &mut wins);
    assert_eq!(
        out[4..],
        joined(&[
            vec![3, 0, 12, DType::I64.wire_id()],
            le(3),
            vec![Mode::Const.id(), 3, 0, 0, 0, 8, 0, 0, 0],
            le(v as u64),
        ])
    );
    assert_eq!(wins.snapshot()[Mode::Const.id() as usize], 1);
    // A null value: the validity section, here the bitmap as it is, stands before the frame.
    let out = compress_column(ColumnRef::I64(&[v, v, v]), Some(&[0b101]), cfg, &[], &mut wins);
    assert_eq!(out[5], 1);
    assert_eq!(out[16..19], [2, 0, 0b101]);
    assert_eq!(out[19..24], [Mode::Const.id(), 2, 0, 0, 0]);
}

#[test]
fn pco_competes_with_what_it_made() {
    let block: Vec<u64> = (0..4096u64)
        .map(|i| i.wrapping_mul(i).wrapping_mul(31) ^ (i.wrapping_mul(0x9E37_79B9) >> 24))
        .collect();
    for selection in [Selection::Full, Selection::Sample] {
        let cfg = Config {
            level: Level::Max,
            selection,
            ..Config::default()
        };
        let made = pcodec::encode(Lane::W64, &block, DType::U64, 12);
        assert!(made.is_some());
        let (without, with, whole) = match selection {
            Selection::Full => (
                best_block_full(DType::U64, &block, 12, &cfg, &[], None),
                best_block_full(DType::U64, &block, 12, &cfg, &[], made.clone()),
                encode_block_full(DType::U64, &block, 12, &cfg, &[]),
            ),
            Selection::Sample => (
                best_block_sampled(DType::U64, &block, 12, &cfg, &[], None),
                best_block_sampled(DType::U64, &block, 12, &cfg, &[], made.clone()),
                encode_block_sampled(DType::U64, &block, 12, &cfg, &[]),
            ),
        };
        assert!(without.mode != Mode::Pco);
        assert!(with.payload.len() <= without.payload.len());
        if with.mode == Mode::Pco {
            assert_eq!(Some(&with.payload), made.as_ref());
        }
        assert!(whole.mode == with.mode);
        assert_eq!(whole.payload, with.payload);
    }
}

#[test]
fn pco_refuses_a_level_it_does_not_have() {
    assert_eq!(pcodec::compress64(&[1, 2, 3], DType::U64, 13), None);
    assert_eq!(pcodec::compress32(&[1, 2, 3], DType::I32, 13), None);
    assert!(pcodec::compress64(&[1, 2, 3], DType::I64, 12).is_some());
    assert!(pcodec::compress32(&[1, 2, 3], DType::U32, 0).is_some());
}

#[test]
fn pco_works_at_the_configured_level() {
    let block: Vec<u64> = (0..4096u64)
        .map(|i| {
            let h = i.wrapping_mul(0x9E37_79B9_7F4A_7C15);
            (h >> 20) >> (h % 41)
        })
        .collect();
    let made: Vec<Vec<u8>> = [0, 12]
        .iter()
        .map(|&level| pcodec::encode(Lane::W64, &block, DType::U64, level).unwrap())
        .collect();
    assert!(made[0].len() > made[1].len());
    for (level, payload) in [(0u8, &made[0]), (12, &made[1]), (200, &made[1])] {
        for selection in [Selection::Full, Selection::Sample] {
            let cfg = Config {
                level: Level::Max,
                selection,
                pco_level: Some(level),
                ..Config::default()
            };
            let (whole, given) = match selection {
                Selection::Full => (
                    encode_block_full(DType::U64, &block, 12, &cfg, &[]),
                    best_block_full(DType::U64, &block, 12, &cfg, &[], Some(payload.clone())),
                ),
                Selection::Sample => (
                    encode_block_sampled(DType::U64, &block, 12, &cfg, &[]),
                    best_block_sampled(DType::U64, &block, 12, &cfg, &[], Some(payload.clone())),
                ),
            };
            assert!(whole.mode == given.mode);
            assert_eq!(whole.payload, given.payload);
            if level > 0 {
                assert!(whole.mode == Mode::Pco);
            }
        }
    }
}
