//! Stores arbitrary files as sequences of block-raster images and recovers
//! them, with a self-describing header frame and an integrity verdict.
//!
//! - `convert`: fixed-width conversions between integers, bytes, text and bits.
//! - `session`: video modes, frame geometry, derived sizes, header block size.
//! - `raster`: painting bits as blocks of colour and reading them back.
//! - `head`: the 844-bit header record.
//! - `pipeline`: header and payload frames of a run, and the final verdict.

pub mod convert;
pub mod session;
pub mod raster;
pub mod head;
pub mod pipeline;
