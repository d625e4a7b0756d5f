//! Verified core of a bridge between a Dutch smart meter (DSMR5 P1 port) and a
//! Zaptec EV charger.

pub mod dsmr;
pub mod error;
pub mod text;
pub mod wifi;
pub mod zaptec;

use vstd::prelude::*;

verus! {

/// Size of the buffer that receives raw P1 telegram bytes.
pub const DSMR_BUFFER_SIZE: usize = 4096;

} // verus!
