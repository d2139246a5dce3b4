//! Random-access compressed disc-image codec.
//!
//! The container stores a raw sector-addressable image as independently
//! compressed, aligned blocks behind a fixed header and a packed per-sector
//! index table, so that arbitrary byte ranges can be served without
//! decompressing the whole image.  A split address-space mapper presents a
//! set of bounded physical files as one contiguous logical address space for
//! both the encoder and the decoder.

pub mod index;
pub mod bytes;
pub mod container;
pub mod layout;
pub mod lz4;
pub mod mem;
pub mod read;
pub mod split;
pub mod util;
pub mod write;
