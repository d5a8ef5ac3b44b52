//! Lossless compression for typed columns of numbers.
//!
//! The encoder cuts a column into blocks and runs, for each block, a
//! competition between specialized codecs; the best candidate is written. The
//! engine works on a physical lane, one 32-bit or 64-bit word per value; the
//! column type selects the codec family and is recorded in the stream. Use
//! [`compress_column`] and [`decompress_column`] for typed columns, [`compress`]
//! and [`decompress`] for binary64 bit patterns.

pub mod bench_internals;
pub mod bitio;
pub mod bitpack;
pub mod bytes;
pub mod codecs;
pub mod column;
pub mod config;
pub mod decimal;
pub mod decoder;
pub mod diag;
pub mod dtype;
pub mod encoder;
pub mod entropy;
pub mod error;
pub mod features;
pub mod format;
pub mod fxmap;
pub mod hash;
pub mod ladder;
pub mod lane;
pub mod laws;
pub mod mode;
pub mod native;
pub mod sample;
pub mod selection;
pub mod settled;
pub mod sort;
pub mod transform;
pub mod validity;
pub mod varint;

pub use column::{
    compress, compress_column, decompress, decompress_column, decompressed_len, Column, ColumnRef,
    DecodedColumn, MAX_BLOCK_SIZE, VERSION,
};
pub use config::{Config, Level, Selection};
pub use diag::{mode_win_counts, reset_mode_win_counts, ModeWins};
pub use dtype::DType;
pub use encoder::FloatOffer;
pub use error::Error;
pub use mode::{mode_name, Mode};
