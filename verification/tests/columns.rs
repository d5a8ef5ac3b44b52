use quoin::config::Level;
use quoin::features::plan_blocks;
use quoin::lane::Lane;
use quoin::native::{
    compress_bound, dtype_width, narrow, validity_out, widen, NativeColumn, DTYPE_BOOL, DTYPE_F64,
    DTYPE_I16, DTYPE_I8, DTYPE_U16, DTYPE_U32, DTYPE_U8,
};
use quoin::selection::{decode_weight, in_pool, select};
use quoin::{
    compress, compress_column, decompress, decompress_column, decompressed_len, mode_name,
    mode_win_counts, reset_mode_win_counts, Column, ColumnRef, Config, DType, DecodedColumn, Error,
    Mode, ModeWins, Selection, MAX_BLOCK_SIZE, VERSION,
};

fn config(level: Level, selection: Selection) -> Config {
    Config {
        level,
        selection,
        ..Config::default()
    }
}

const LEVELS: [Level; 5] = [
    Level::Fastest,
    Level::Fast,
    Level::Balanced,
    Level::High,
    Level::Max,
];

fn roundtrip(col: ColumnRef, bitmap: Option<&[u8]>, cfg: Config) -> DecodedColumn {
    let mut wins = ModeWins::new();
    let out = compress_column(col, bitmap, cfg, &[], &mut wins);
    decompress_column(&out, &[]).unwrap()
}

fn noise(n: usize) -> Vec<u64> {
    let mut s = 0x9E37_79B9_7F4A_7C15u64;
    (0..n)
        .map(|_| {
            s = s.wrapping_mul(6364136223846793005).wrapping_add(1);
            s ^ (s >> 29)
        })
        .collect()
}

#[test]
fn every_type_roundtrips_at_every_level() {
    let u64s: Vec<u64> = (0..3000u64).map(|i| i * i % 5003).collect();
    let i64s: Vec<i64> = u64s.iter().map(|&v| v as i64 - 2500).collect();
    let u32s: Vec<u32> = u64s.iter().map(|&v| v as u32).collect();
    let i32s: Vec<i32> = i64s.iter().map(|&v| v as i32).collect();
    let f64s: Vec<u64> = u64s.iter().map(|&v| (v as f64).sqrt().to_bits()).collect();
    let f32s: Vec<u32> = u32s.iter().map(|&v| (v as f32).sqrt().to_bits()).collect();
    for level in LEVELS {
        for selection in [Selection::Full, Selection::Sample] {
            let cfg = config(level, selection);
            let back = roundtrip(ColumnRef::U64(&u64s), None, cfg);
            assert_eq!(back.values, Column::U64(u64s.clone()));
            assert_eq!(back.validity, None);
            let back = roundtrip(ColumnRef::I64(&i64s), None, cfg);
            assert_eq!(back.values, Column::I64(i64s.clone()));
            let back = roundtrip(ColumnRef::U32(&u32s), None, cfg);
            assert_eq!(back.values, Column::U32(u32s.clone()));
            let back = roundtrip(ColumnRef::I32(&i32s), None, cfg);
            assert_eq!(back.values, Column::I32(i32s.clone()));
            let back = roundtrip(ColumnRef::F64(&f64s), None, cfg);
            assert_eq!(back.values, Column::F64(f64s.clone()));
            let back = roundtrip(ColumnRef::F32(&f32s), None, cfg);
            assert_eq!(back.values, Column::F32(f32s.clone()));
        }
    }
}

#[test]
fn shapes_of_data_roundtrip() {
    let shapes: Vec<Vec<u64>> = vec![
        vec![],
        vec![7],
        vec![7; 5000],
        (0..5000).collect(),
        (0..5000).map(|i| u64::MAX - i * 3).collect(),
        (0..5000).map(|i| i / 100).collect(),
        (0..5000).map(|i| (i * 37) % 11).collect(),
        noise(5000),
    ];
    for vals in &shapes {
        for level in LEVELS {
            let cfg = config(level, Selection::Full);
            let back = roundtrip(ColumnRef::U64(vals), None, cfg);
            assert_eq!(back.values, Column::U64(vals.clone()));
        }
    }
}

#[test]
fn special_floats_are_exact() {
    let vals = [
        f64::NAN.to_bits(),
        0x7FF0_0000_0000_0001,
        0.0f64.to_bits(),
        (-0.0f64).to_bits(),
        f64::INFINITY.to_bits(),
        1,
    ];
    let mut wins = ModeWins::new();
    let out = compress(&vals, Config::default(), &[], &mut wins);
    assert_eq!(decompress(&out, &[]).unwrap(), vals);
}

#[test]
fn nulls_come_back_as_zero() {
    let vals: Vec<i64> = (0..1000).map(|i| 500 - i).collect();
    let mut bm = vec![0u8; 125];
    let mut expect = vals.clone();
    for (i, e) in expect.iter_mut().enumerate() {
        if i % 5 == 0 {
            *e = 0;
        } else {
            bm[i / 8] |= 1 << (i % 8);
        }
    }
    let back = roundtrip(ColumnRef::I64(&vals), Some(&bm), Config::default());
    assert_eq!(back.values, Column::I64(expect));
    assert_eq!(back.validity, Some(bm));
    // A bitmap without nulls is not stored.
    let full = vec![0xFFu8; 125];
    let back = roundtrip(ColumnRef::I64(&vals), Some(&full), Config::default());
    assert_eq!(back.values, Column::I64(vals.clone()));
    assert_eq!(back.validity, None);
    // All null.
    let back = roundtrip(ColumnRef::I64(&vals), Some(&[0u8; 125]), Config::default());
    assert_eq!(back.values, Column::I64(vec![0; 1000]));
    assert_eq!(back.validity, Some(vec![0u8; 125]));
}

#[test]
fn decimal_columns_roundtrip() {
    let values: Vec<i128> = (0..300).map(|i| (i as i128 - 150) << 70).collect();
    let back = roundtrip(
        ColumnRef::Decimal128 {
            values: &values,
            scale: -3,
            precision: 38,
        },
        None,
        Config::default(),
    );
    assert_eq!(
        back.values,
        Column::Decimal128 {
            values,
            scale: -3,
            precision: 38
        }
    );
    let values = vec![[0x80u8; 32], [1u8; 32], [0xFFu8; 32]];
    let back = roundtrip(
        ColumnRef::Decimal256 {
            values: &values,
            scale: 5,
            precision: 76,
        },
        Some(&[0b101]),
        Config::default(),
    );
    assert_eq!(
        back.values,
        Column::Decimal256 {
            values: vec![[0x80u8; 32], [0u8; 32], [0xFFu8; 32]],
            scale: 5,
            precision: 76
        }
    );
    assert_eq!(back.validity, Some(vec![0b101]));
}

#[test]
fn header_tells_the_length() {
    let vals: Vec<u32> = (0..777).collect();
    let mut wins = ModeWins::new();
    let out = compress_column(ColumnRef::U32(&vals), None, Config::default(), &[], &mut wins);
    assert_eq!(decompressed_len(&out), Ok(777));
    assert_eq!(decompressed_len(&out[..15]), Err(Error::Truncated));
    let dec = compress_column(
        ColumnRef::Decimal128 {
            values: &[1],
            scale: 0,
            precision: 1,
        },
        None,
        Config::default(),
        &[],
        &mut wins,
    );
    assert_eq!(
        decompressed_len(&dec),
        Err(Error::CorruptPayload("unknown header flags"))
    );
}

#[test]
fn every_refusal() {
    let vals: Vec<u64> = (0..100).collect();
    let mut wins = ModeWins::new();
    let out = compress_column(ColumnRef::U64(&vals), None, Config::default(), &[], &mut wins);
    let refused = |edit: &dyn Fn(&mut Vec<u8>)| {
        let mut bad = out.clone();
        edit(&mut bad);
        decompress_column(&bad, &[]).unwrap_err()
    };
    assert_eq!(refused(&|b| b.truncate(7)), Error::Truncated);
    assert_eq!(refused(&|b| b.truncate(12)), Error::Truncated);
    assert_eq!(refused(&|b| b.truncate(20)), Error::Truncated);
    assert_eq!(refused(&|b| b[0] = b'x'), Error::BadMagic);
    assert_eq!(refused(&|b| b[4] = 7), Error::UnsupportedVersion(7));
    assert_eq!(
        refused(&|b| b[5] = 8),
        Error::CorruptPayload("unknown header flags")
    );
    assert_eq!(
        refused(&|b| b[6] = 17),
        Error::CorruptPayload("predictor_log2 out of range")
    );
    assert_eq!(refused(&|b| b[7] = 99), Error::UnsupportedDType(99));
    assert_eq!(
        refused(&|b| b[7] = DType::Decimal128.wire_id()),
        Error::CorruptPayload("decimal lane without container")
    );
    assert_eq!(refused(&|b| b[16] = 63), Error::UnknownMode(63));
    assert_eq!(
        refused(&|b| b[19] = 0x10),
        Error::CorruptPayload("block value count exceeds maximum")
    );
    assert_eq!(
        refused(&|b| b[8] = 50),
        Error::CorruptPayload("block overruns declared length")
    );
    assert_eq!(decompress(&out, &[]), Err(Error::DTypeMismatch));
}

#[test]
fn messages() {
    assert_eq!(Error::BadMagic.message(), "bad magic: not an quoin stream");
    assert_eq!(
        Error::UnsupportedVersion(205).message(),
        "unsupported format version 205"
    );
    assert_eq!(Error::Truncated.message(), "truncated stream");
    assert_eq!(Error::UnknownMode(0).message(), "unknown block mode 0");
    assert_eq!(
        Error::CorruptPayload("x y").message(),
        "corrupt payload: x y"
    );
    assert_eq!(
        Error::LengthMismatch {
            expected: 1200,
            got: 7
        }
        .message(),
        "length mismatch: expected 1200 values, decoded 7"
    );
    assert_eq!(
        Error::UnsupportedDType(10).message(),
        "unsupported column type id 10"
    );
    assert_eq!(
        Error::DTypeMismatch.message(),
        "stream column type does not match the requested type"
    );
    assert_eq!(
        Error::UnsupportedArrowType.message(),
        "unsupported Arrow array type"
    );
}

#[test]
fn wins_are_counted_by_mode() {
    let vals = vec![7u64; 1000];
    let mut wins = ModeWins::new();
    let cfg = Config {
        block_size: Some(100),
        ..Config::default()
    };
    compress_column(ColumnRef::U64(&vals), None, cfg, &[], &mut wins);
    let counts = mode_win_counts(&wins);
    assert_eq!(counts[Mode::Const.id() as usize], 10);
    assert_eq!(counts.iter().sum::<u64>(), 10);
    assert_eq!(mode_name(Mode::Const.id()), "CONST");
    reset_mode_win_counts(&mut wins);
    assert_eq!(mode_win_counts(&wins), [0u64; 64]);
}

#[test]
fn incompressible_integers_are_stored_verbatim() {
    let vals = noise(4000);
    let mut wins = ModeWins::new();
    let out = compress_column(ColumnRef::U64(&vals), None, Config::default(), &[], &mut wins);
    assert_eq!(wins.counts[Mode::Raw.id() as usize], 1);
    assert_eq!(out.len(), 16 + 9 + 8 * 4000);
    assert!(out.len() <= compress_bound(4000));
}

#[test]
fn smaller_pools_keep_to_their_modes() {
    let vals: Vec<u64> = (0..4000u64).map(|i| (i * i) % 3001).collect();
    for level in LEVELS {
        let mut wins = ModeWins::new();
        let cfg = config(level, Selection::Full);
        compress_column(ColumnRef::U64(&vals), None, cfg, &[], &mut wins);
        for id in 0..64u8 {
            if wins.counts[id as usize] > 0 {
                let mode = Mode::from_id(id).unwrap();
                assert!(in_pool(mode, DType::U64.family(), level), "{mode:?} {level:?}");
            }
        }
    }
}

#[test]
fn cheaper_decoding_wins_within_the_allowance() {
    let sizes = [1000usize, 950];
    // Pure size at the top; at a biased level the verbatim block is close enough.
    assert_eq!(select(&sizes, &[0, 200], 0, 0), 1);
    assert_eq!(select(&sizes, &[0, 200], 10, 10), 0);
    assert_eq!(select(&sizes, &[0, 200], 10, 0), 1);
    assert_eq!(decode_weight(Lane::W64, Mode::Raw, &[]), 0);
}

#[test]
fn blocks_are_planned_by_size() {
    let vals: Vec<u64> = noise(200_000);
    let ranges = plan_blocks(Lane::W64, &vals, Some(90_000), Level::Max);
    assert_eq!(ranges, vec![(0, 90_000), (90_000, 180_000), (180_000, 200_000)]);
    let ranges = plan_blocks(Lane::W64, &vals, None, Level::Max);
    assert_eq!(ranges, vec![(0, 131_072), (131_072, 200_000)]);
    let ranges = plan_blocks(Lane::W64, &vals, None, Level::Fast);
    assert_eq!(ranges[0], (0, 32_768));
    assert_eq!(ranges.len(), 7);
    let same = vec![5u64; 200_000];
    let ranges = plan_blocks(Lane::W64, &same, None, Level::Fast);
    assert_eq!(ranges, vec![(0, 131_072), (131_072, 200_000)]);
}

#[test]
fn many_blocks_roundtrip() {
    let vals: Vec<u64> = (0..40_000u64).map(|i| i.wrapping_mul(i) >> 3).collect();
    let cfg = Config {
        block_size: Some(999),
        level: Level::Fast,
        ..Config::default()
    };
    let back = roundtrip(ColumnRef::U64(&vals), None, cfg);
    assert_eq!(back.values, Column::U64(vals));
}

#[test]
fn native_columns_widen_and_narrow() {
    let cases = vec![
        (DTYPE_BOOL, NativeColumn::Bool(vec![0, 1, 1])),
        (DTYPE_I8, NativeColumn::I8(vec![-128, 0, 127])),
        (DTYPE_I16, NativeColumn::I16(vec![-32768, 5, 32767])),
        (DTYPE_U8, NativeColumn::U8(vec![0, 200, 255])),
        (DTYPE_U16, NativeColumn::U16(vec![0, 40000, 65535])),
        (DTYPE_U32, NativeColumn::U32(vec![0, 1, u32::MAX])),
        (DTYPE_F64, NativeColumn::F64(vec![1, 2, 3])),
    ];
    for (tag, c) in cases {
        let wide = widen(c.clone());
        assert_eq!(narrow(tag, 3, wide.clone()), Some(c));
        assert_eq!(narrow(tag, 2, wide), None);
    }
    assert_eq!(
        widen(NativeColumn::I8(vec![-3])),
        Column::I32(vec![-3])
    );
    assert_eq!(
        narrow(DTYPE_I8, 2, Column::I32(vec![300, -129])),
        Some(NativeColumn::I8(vec![44, 127]))
    );
    assert_eq!(narrow(DTYPE_I8, 1, Column::U64(vec![1])), None);
    assert_eq!(dtype_width(DTYPE_BOOL), 1);
    assert_eq!(dtype_width(DTYPE_I16), 2);
    assert_eq!(dtype_width(DTYPE_U32), 4);
    assert_eq!(dtype_width(DTYPE_F64), 8);
    assert_eq!(dtype_width(11), 0);
    assert_eq!(compress_bound(10), 1114);
    assert_eq!(compress_bound(usize::MAX), usize::MAX);
    assert_eq!(validity_out(11, None), vec![0xFF, 0x07]);
    assert_eq!(validity_out(4, Some(&[0xF5])), vec![0x05]);
}

#[test]
fn columns_know_their_shape() {
    let c = Column::F32(vec![1, 2]);
    assert_eq!((c.dtype(), c.len(), c.is_empty()), (DType::F32, 2, false));
    let c = Column::Decimal256 {
        values: vec![],
        scale: 0,
        precision: 1,
    };
    assert_eq!((c.dtype(), c.len(), c.is_empty()), (DType::Decimal256, 0, true));
    let r = ColumnRef::I32(&[1, 2, 3]);
    assert_eq!((r.dtype(), r.len(), r.is_empty()), (DType::I32, 3, false));
    assert_eq!(MAX_BLOCK_SIZE, 131_072);
    assert!(VERSION.starts_with("quoin "));
}

#[test]
fn pco_columns_roundtrip() {
    let vals: Vec<u64> = (0..6000u64)
        .map(|i| 1_000_000 + (i as f64 * 0.01).sin().mul_add(5000.0, 0.0) as i64 as u64)
        .collect();
    let mut wins = ModeWins::new();
    let out = compress_column(ColumnRef::U64(&vals), None, Config::default(), &[], &mut wins);
    assert!(wins.counts[Mode::Pco.id() as usize] > 0 || out.len() < vals.len() * 2);
    assert_eq!(
        decompress_column(&out, &[]).unwrap().values,
        Column::U64(vals)
    );
}
