//! What holds of the library beyond the contracts of its functions: what the codecs are
//! good at, which of several forms is written, and what the configuration fixes.

pub mod bitmaps;
pub mod blocks;
pub mod coders;
pub mod competition;
pub mod differences;
pub mod floats;
pub mod formats;
pub mod hashes;
pub mod layout;
pub mod matches;
pub mod packing;
pub mod predictors;
pub mod probes;
pub mod readers;
pub mod refusals;
pub mod rivals;
pub mod settings;
pub mod states;
pub mod values;
pub mod wire;
