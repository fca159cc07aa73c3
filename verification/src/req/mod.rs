//! Relative Error Quantiles (REQ) sketch.
//!
//! Based on *Relative Error Streaming Quantiles* by Cormode, Karnin, Liberty,
//! Thaler and Veselý. Unlike uniform-error quantile sketches, REQ gives an error
//! proportional to how far a rank sits from a chosen end of the distribution.

pub mod compactor;
pub mod keys;

use vstd::prelude::*;

verus! {

/// Minimum value of parameter K.
pub const MIN_K: u16 = 4;

/// Default value of parameter K.
pub const DEFAULT_K: u16 = 12;

/// Initial number of sections each compactor is divided into.
pub const INIT_NUM_SECTIONS: u8 = 3;

/// Multiplier applied when deriving a compactor's nominal capacity.
pub const MULTIPLIER: u32 = 2;

} // verus!
