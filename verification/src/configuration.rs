//! The slot timings of the bus.

use vstd::prelude::*;

verus! {

/// The six durations, in nanoseconds, that shape a slot.
///
/// A slot is sound only if every duration is positive and each slot's total
/// meets the protocol's minimum. The type checks neither: a caller that
/// retunes the timings answers for them.
#[derive(Clone, Copy, Debug, PartialEq, Eq)]
pub struct Configuration {
    /// How long the line is held low to open a read slot or to write a 1.
    pub a: u32,
    /// The recovery that completes a slot in which a 1 was written.
    pub b: u32,
    /// How long the line is held low to write a 0.
    pub c: u32,
    /// The recovery that completes a slot in which a 0 was written.
    pub d: u32,
    /// The wait between releasing the line in a read slot and sampling it.
    pub e: u32,
    /// The recovery that completes a read slot.
    pub f: u32,
}

impl Configuration {
    /// The standard-speed timings.
    pub open spec fn standard() -> Configuration {
        Configuration { a: 6_000, b: 64_000, c: 60_000, d: 10_000, e: 9_000, f: 55_000 }
    }

    /// All six durations are positive.
    pub open spec fn is_positive(self) -> bool {
        &&& self.a > 0
        &&& self.b > 0
        &&& self.c > 0
        &&& self.d > 0
        &&& self.e > 0
        &&& self.f > 0
    }
}

impl Default for Configuration {
    fn default() -> (configuration: Configuration)
        ensures
            configuration == Configuration::standard(),
            configuration.is_positive(),
    {
        Configuration { a: 6_000, b: 64_000, c: 60_000, d: 10_000, e: 9_000, f: 55_000 }
    }
}

} // verus!
