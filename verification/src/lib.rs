//! Bit-banged 1-Wire bus engine and the CRC-8 codec that guards its payloads.
//!
//! A [`Driver`] moves bits and bytes over one open-drain line by pulling it
//! low and releasing it for the durations of a [`Configuration`]. It takes
//! the line and the clock as the two capabilities of [`capability`], and its
//! contracts say, as a sequence of the events of [`trace`], what it does on
//! the line. [`crc8`] computes and checks the checksum of what was read.

pub mod capability;
pub mod crc8;
pub mod error;
pub mod trace;

mod configuration;
mod driver;
mod rom;

pub use self::configuration::Configuration;
pub use self::driver::Driver;
pub use self::error::AError;
pub use self::rom::Rom;

use self::error::Error;
use vstd::prelude::*;

verus! {

/// The family code of the DS18B20.
pub const FAMILY_CODE: u8 = 0x28;

/// A DS18B20, known by its identity.
pub struct Ds18b20 {
    rom: Rom,
}

impl Ds18b20 {
    /// The identity that the device was made from.
    pub closed spec fn identity(&self) -> Rom {
        self.rom
    }

    /// Checks that the given rom carries the supported family code, then
    /// returns a device. Any other family code is handed back in the error.
    pub fn new(rom: Rom) -> (device: Result<Ds18b20, Error>)
        ensures
            device is Ok <==> rom.family_code == FAMILY_CODE,
            device matches Ok(ds18b20) ==> ds18b20.identity() == rom,
            device matches Err(error) ==> error == (Error::FamilyCode {
                family_code: rom.family_code,
            }),
    {
        if rom.family_code == FAMILY_CODE {
            Ok(Ds18b20 { rom })
        } else {
            Err(Error::FamilyCode { family_code: rom.family_code })
        }
    }

    /// Returns the device rom
    pub fn rom(&self) -> (rom: &Rom)
        ensures
            *rom == self.identity(),
    {
        &self.rom
    }
}

} // verus!
