//! Per-block codecs over the lane words of a block. Encoders that may not apply
//! return `None`; the raw codec always succeeds.

pub mod alp;
pub mod alp_rd;
pub mod const_block;
pub mod delta_bitpack;
pub mod dict;
pub mod float_mult;
pub mod for_bitpack;
pub mod linear;
pub mod lz;
pub mod patched;
pub mod pcodec;
pub mod pred;
pub mod pred_rc;
pub mod raw;
pub mod rle;
pub mod stride;
pub mod transpose;
pub mod xorz;
