//! The 64-bit identity that every device on the bus carries.

use vstd::prelude::*;

verus! {

/// A device's identity, as read from the bus.
#[derive(Clone, Copy, Debug, PartialEq, Eq)]
pub struct Rom {
    /// The byte that names the device's type.
    pub family_code: u8,
    /// The device's serial number.
    pub serial_number: [u8; 6],
    /// The checksum of the seven bytes before it.
    pub crc: u8,
}

} // verus!
