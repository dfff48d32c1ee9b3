//! Bit-banged and peripheral-routed serial protocols.
pub mod i2c;
pub mod pwm;
pub mod spi;
pub mod uart;

use vstd::prelude::*;

verus! {

/// CPU clock in hertz; bit-banged timings are counted in spin iterations of it.
pub const CPU_FREQ_HZ: u32 = 240_000_000;

} // verus!
