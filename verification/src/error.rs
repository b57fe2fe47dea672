//! The failure values shared by the checksum codec, the bus driver and the
//! device layer.
//!
//! Every value is plain data: it can be copied, compared and matched on
//! exhaustively.

use vstd::prelude::*;

verus! {

/// A failed checksum: `crc` is the value that the whole buffer folded to,
/// which a sound buffer folds to zero.
#[derive(Clone, Copy, Debug, PartialEq, Eq)]
pub struct CrcError {
    pub crc: u8,
}

/// A fault of the bus protocol or of the device at its end.
#[derive(Clone, Copy, Debug, PartialEq, Eq)]
pub enum Error {
    /// The idle line was found low where the pull-up should hold it high.
    BusNotHigh,
    /// No device answered a reset.
    NoAttachedDevices,
    /// A wait for a transition ran past its bound.
    Timeout,
    /// Data read from the bus failed its checksum.
    Crc(CrcError),
    /// The device's family code is not the supported one.
    FamilyCode { family_code: u8 },
    /// The device's configuration register holds none of the resolutions.
    ConfigurationRegister { configuration_register: u8 },
}

/// Either a fault of the pin, handed on as the pin reported it, or a fault
/// of the protocol.
#[derive(Clone, Copy, Debug, PartialEq, Eq)]
pub enum AError<T> {
    /// The pin failed, with this fault.
    Pin(T),
    /// The protocol failed.
    Ds18b20(Error),
}

impl<T> AError<T> {
    /// Hands a pin's answer on: a success as it is, a failure wrapped as a
    /// pin fault.
    pub fn lift<R>(outcome: Result<R, T>) -> (lifted: Result<R, AError<T>>)
        ensures
            lifted == match outcome {
                Ok(value) => Ok::<R, AError<T>>(value),
                Err(fault) => Err(AError::Pin(fault)),
            },
    {
        match outcome {
            Ok(value) => Ok(value),
            Err(fault) => Err(AError::Pin(fault)),
        }
    }
}

impl From<CrcError> for Error {
    fn from(error: CrcError) -> (lifted: Error) {
        Error::Crc(error)
    }
}

impl vstd::std_specs::convert::FromSpecImpl<CrcError> for Error {
    open spec fn obeys_from_spec() -> bool {
        true
    }

    open spec fn from_spec(error: CrcError) -> Error {
        Error::Crc(error)
    }
}

impl<T> From<Error> for AError<T> {
    fn from(error: Error) -> (lifted: AError<T>) {
        AError::Ds18b20(error)
    }
}

impl<T> vstd::std_specs::convert::FromSpecImpl<Error> for AError<T> {
    open spec fn obeys_from_spec() -> bool {
        true
    }

    open spec fn from_spec(error: Error) -> AError<T> {
        AError::Ds18b20(error)
    }
}

} // verus!
