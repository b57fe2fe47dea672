//! What a driver needs from the hardware: one open-drain pin and one
//! blocking delay.

use vstd::prelude::*;

verus! {

/// The bus line. The pin must be wired open-drain: to set it high is to stop
/// driving it, and the pull-up alone raises the line.
pub trait Pin {
    /// What the pin reports when it fails.
    type Error;

    /// Is the line high?
    fn is_high(&mut self) -> Result<bool, Self::Error>;

    /// Is the line low?
    fn is_low(&mut self) -> Result<bool, Self::Error>;

    /// Releases the line.
    fn set_high(&mut self) -> Result<(), Self::Error>;

    /// Pulls the line low.
    fn set_low(&mut self) -> Result<(), Self::Error>;
}

/// A blocking wait, which does not fail.
pub trait Delay {
    /// Returns after `ns` nanoseconds.
    fn delay_ns(&mut self, ns: u32);
}

} // verus!
