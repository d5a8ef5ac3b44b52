use quoin::bitpack::{pack, unpack};
use quoin::codecs::{const_block, delta_bitpack, dict, for_bitpack, stride, transpose, xorz};
use quoin::config::Level;
use quoin::encoder::{best_block_full, best_block_sampled};
use quoin::entropy::code_residuals;
use quoin::format::{LEGACY_VERSION, VERSION};
use quoin::lane::Lane;
use quoin::selection::{decode_weight, in_pool, is_predictor_mode, select};
use quoin::{
    compress_column, decompress_column, ColumnRef, Config, DType, Error, Mode, ModeWins,
};

const LADDER: [Level; 5] = [
    Level::Fastest,
    Level::Fast,
    Level::Balanced,
    Level::High,
    Level::Max,
];

const MODES: [Mode; 20] = [
    Mode::Pred,
    Mode::Const,
    Mode::Stride,
    Mode::Xorz,
    Mode::Raw,
    Mode::Lz,
    Mode::ByteTranspose,
    Mode::FloatMult,
    Mode::OrderedDelta,
    Mode::Delta2,
    Mode::Pred2,
    Mode::DeltaDp,
    Mode::PredRc,
    Mode::ForBitpack,
    Mode::Alp,
    Mode::DeltaBitpack,
    Mode::AlpRd,
    Mode::Dict,
    Mode::Rle,
    Mode::Pco,
];

#[test]
fn higher_levels_store_no_more() {
    let ramp: Vec<u64> = (0..3000u64).map(|i| 1_000_000 + 37 * i + i % 5).collect();
    let few: Vec<u64> = (0..3000u64).map(|i| (i * i % 7) << 40).collect();
    let mixed: Vec<u64> = (0..3000u64)
        .map(|i| i.wrapping_mul(0x9E37_79B9_7F4A_7C15) >> (i % 60))
        .collect();
    for block in [&ramp, &few, &mixed] {
        for dtype in [DType::U64, DType::F64] {
            let sizes: Vec<usize> = LADDER
                .iter()
                .map(|&level| {
                    let cfg = Config {
                        level,
                        ..Config::default()
                    };
                    best_block_full(dtype, block, 12, &cfg, &[], None).payload.len()
                })
                .collect();
            for lo in 0..LADDER.len() {
                for hi in lo.max(3)..LADDER.len() {
                    assert!(sizes[hi] <= sizes[lo], "{sizes:?}");
                }
            }
        }
    }
}

#[test]
fn legacy_streams_read_alike() {
    let mut wins = ModeWins::new();
    let wide = compress_column(
        ColumnRef::I64(&[3, 1, 4, 1, 5]),
        None,
        Config::default(),
        &[],
        &mut wins,
    );
    assert_eq!(wide[4], VERSION);
    let mut legacy = wide.clone();
    legacy[4] = LEGACY_VERSION;
    assert_eq!(
        decompress_column(&legacy, &[]).unwrap(),
        decompress_column(&wide, &[]).unwrap()
    );
    let decimals = ColumnRef::Decimal128 {
        values: &[-7, 12345678901234567890123, 0],
        scale: 2,
        precision: 30,
    };
    let container = compress_column(decimals, None, Config::default(), &[], &mut wins);
    let mut legacy = container.clone();
    legacy[4] = LEGACY_VERSION;
    assert_eq!(
        decompress_column(&legacy, &[]).unwrap(),
        decompress_column(&container, &[]).unwrap()
    );
    let mut narrow = compress_column(
        ColumnRef::I32(&[3, 1, 4]),
        None,
        Config::default(),
        &[],
        &mut wins,
    );
    narrow[4] = LEGACY_VERSION;
    assert_eq!(
        decompress_column(&narrow, &[]),
        Err(Error::UnsupportedVersion(LEGACY_VERSION))
    );
}

#[test]
fn unpacking_undoes_packing() {
    let mut values = [0u32; 1024];
    for (i, v) in values.iter_mut().enumerate() {
        *v = (i as u32 * 7919) % 2048;
    }
    let mut packed = vec![0u32; 32 * 11];
    pack(&values, 11, &mut packed);
    let mut back = [0u32; 1024];
    unpack(&packed, 11, &mut back);
    assert_eq!(back, values);
    // Row 0 of lane 0 is the low bits of the first word, row 1 follows it.
    assert_eq!(packed[0] % 2048, values[0]);
    assert_eq!((packed[0] >> 11) % 2048, values[32]);
}

#[test]
fn narrow_lanes_pack_narrow() {
    let out = for_bitpack::encode(Lane::W32, &[0, 0xFFFF_FFFF, 5], false);
    assert_eq!(out[1], 32);
    let out = for_bitpack::encode(Lane::W64, &[0, u64::MAX, 5], false);
    assert_eq!(out[1], 64);
}

#[test]
fn pools_of_the_low_levels() {
    for mode in MODES {
        for family in [DType::U64.family(), DType::F64.family()] {
            let cheap = matches!(
                mode,
                Mode::Raw | Mode::Const | Mode::Stride | Mode::ForBitpack | Mode::DeltaBitpack
            );
            assert_eq!(in_pool(mode, family, Level::Fastest), cheap);
            for level in [Level::Fastest, Level::Fast, Level::Balanced] {
                assert!(!(in_pool(mode, family, level) && is_predictor_mode(mode)));
            }
        }
    }
}

#[test]
fn a_slower_winner_is_smaller() {
    // At costs of 4 against 1, weighed at 10, the slower must be below 1010/1040 of the
    // faster: 972 of 1000 bytes is too much, 966 is not.
    assert_eq!(select(&[1000, 972], &[1, 4], 10, u32::MAX), 0);
    assert_eq!(select(&[1000, 966], &[1, 4], 10, u32::MAX), 1);
}

#[test]
fn a_level_bounds_decode_cost() {
    let ramp: Vec<u64> = (0..3000u64).map(|i| 1_000_000 + 37 * i + i % 5).collect();
    let few: Vec<u64> = (0..3000u64).map(|i| (i * i % 7) << 40).collect();
    let mixed: Vec<u64> = (0..3000u64)
        .map(|i| i.wrapping_mul(0x9E37_79B9_7F4A_7C15) >> (i % 60))
        .collect();
    let limits: [u64; 5] = [1, 7, 32, 200, 200];
    for block in [&ramp, &few, &mixed] {
        for dtype in [DType::U64, DType::F64] {
            for (level, limit) in LADDER.iter().zip(limits) {
                let cfg = Config {
                    level: *level,
                    ..Config::default()
                };
                let c = best_block_full(dtype, block, 12, &cfg, &[], None);
                assert!(decode_weight(Lane::W64, c.mode, &c.payload) <= limit);
            }
        }
    }
    let cfg = Config {
        level: Level::Fast,
        ..Config::default()
    };
    let c = best_block_full(DType::U64, &few, 12, &cfg, &[], None);
    assert_eq!(c.mode, Mode::Dict);
    assert_eq!(decode_weight(Lane::W64, c.mode, &c.payload), 7);
}

#[test]
fn narrow_chains_take_five_bytes_at_most() {
    let vals: Vec<u64> = (0..500u64)
        .map(|i| if i % 2 == 0 { 0 } else { 0xFFFF_FFFF })
        .collect();
    assert_eq!(xorz::encode(Lane::W32, &vals).len(), 1 + 5 * 499);
    let wide: Vec<u64> = (0..500u64).map(|i| if i % 2 == 0 { 0 } else { u64::MAX }).collect();
    assert_eq!(xorz::encode(Lane::W64, &wide).len(), 1 + 10 * 499);
}

#[test]
fn dictionaries_take_their_smallest_form() {
    let tables: [Vec<u64>; 3] = [
        (0..300u64).map(|i| 1_000 + 3 * i).collect(),
        (0..5u64).map(|i| i.wrapping_mul(0x1234_5678_9ABC_DEF1) >> 1).collect(),
        (0..400u64).map(|i| (i << 48) | 0x55).collect(),
    ];
    for sorted in tables {
        let mut sorted = sorted;
        sorted.sort_unstable();
        for lambda in [0, 10] {
            let (_, bytes) = dict::encode_values(Lane::W64, &sorted, true, lambda, true);
            let planes = transpose::encode(Lane::W64, &sorted);
            let coded = code_residuals(&planes, lambda, true);
            let delta = delta_bitpack::encode(Lane::W64, &sorted);
            let least = (8 * sorted.len()).min(delta.len()).min(coded.len());
            assert_eq!(bytes.len(), least);
        }
    }
}

#[test]
fn ties_go_to_the_first_considered() {
    let cfg = Config {
        level: Level::Fastest,
        ..Config::default()
    };
    let one = [5u64 << 40];
    assert_eq!(const_block::encode(Lane::W64, &one).unwrap().len(), 8);
    let two = [5u64 << 40, 9u64 << 50];
    assert_eq!(stride::encode(Lane::W64, &two).unwrap().len(), 16);
    for block in [&one[..], &two[..]] {
        let c = best_block_full(DType::U64, block, 12, &cfg, &[], None);
        assert_eq!((c.mode, c.payload.len()), (Mode::Raw, 8 * block.len()));
        let c = best_block_sampled(DType::U64, block, 12, &cfg, &[], None);
        assert_eq!((c.mode, c.payload.len()), (Mode::Raw, 8 * block.len()));
    }
}

fn stream(col: ColumnRef, bitmap: Option<&[u8]>, cfg: Config) -> Vec<u8> {
    compress_column(col, bitmap, cfg, &[], &mut ModeWins::new())
}

#[test]
fn null_slots_never_reach_the_stream() {
    let n = 5000usize;
    let bitmap: Vec<u8> = (0..n.div_ceil(8)).map(|i| (i * 37 % 251) as u8).collect();
    let valid = |i: usize| bitmap[i / 8] >> (i % 8) & 1 == 1;
    let a: Vec<u64> = (0..n).map(|i| 1000 + (i as u64 * 7) % 500).collect();
    let b: Vec<u64> = (0..n)
        .map(|i| if valid(i) { a[i] } else { u64::MAX - i as u64 })
        .collect();
    assert_ne!(a, b);
    for level in LADDER {
        let cfg = Config {
            level,
            ..Config::default()
        };
        assert_eq!(
            stream(ColumnRef::U64(&a), Some(&bitmap), cfg),
            stream(ColumnRef::U64(&b), Some(&bitmap), cfg)
        );
        assert_eq!(
            stream(ColumnRef::F64(&a), Some(&bitmap), cfg),
            stream(ColumnRef::F64(&b), Some(&bitmap), cfg)
        );
    }
    let x: Vec<i128> = a.iter().map(|&v| v as i128 - 700).collect();
    let y: Vec<i128> = (0..n).map(|i| if valid(i) { x[i] } else { i128::MIN }).collect();
    let decimal = |values| ColumnRef::Decimal128 {
        values,
        scale: 2,
        precision: 30,
    };
    assert_eq!(
        stream(decimal(&x), Some(&bitmap), Config::default()),
        stream(decimal(&y), Some(&bitmap), Config::default())
    );
}

#[test]
fn an_all_valid_bitmap_is_no_bitmap() {
    let vals: Vec<i64> = (0..1001).map(|i| i * i - 300).collect();
    let full = vec![0xFFu8; vals.len().div_ceil(8)];
    let mut holed = full.clone();
    holed[40] = 0xFB;
    let cfg = Config::default();
    let plain = stream(ColumnRef::I64(&vals), None, cfg);
    assert_eq!(stream(ColumnRef::I64(&vals), Some(&full), cfg), plain);
    assert_eq!(plain[5] & 1, 0);
    assert_eq!(stream(ColumnRef::I64(&vals), Some(&holed), cfg)[5] & 1, 1);
    let wide: Vec<[u8; 32]> = vals.iter().map(|&v| [v as u8; 32]).collect();
    let decimal = || ColumnRef::Decimal256 {
        values: &wide,
        scale: 0,
        precision: 70,
    };
    let plain = stream(decimal(), None, cfg);
    assert_eq!(stream(decimal(), Some(&full), cfg), plain);
    assert_eq!(plain[5] & 1, 0);
    assert_eq!(stream(decimal(), Some(&holed), cfg)[5] & 1, 1);
}
