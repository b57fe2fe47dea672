use ds18b20::crc8;
use ds18b20::error::{CrcError, Error};
use ds18b20::{AError, Configuration, Ds18b20, Rom, FAMILY_CODE};

fn rom(family_code: u8) -> Rom {
    Rom { family_code, serial_number: [255, 75, 70, 127, 255, 13], crc: 244 }
}

#[test]
fn family_code_is_0x28() {
    assert_eq!(FAMILY_CODE, 0x28);
}

#[test]
fn device_accepts_its_family_code() {
    let device = Ds18b20::new(rom(0x28));
    assert!(matches!(device, Ok(_)));
    if let Ok(device) = device {
        assert_eq!(*device.rom(), rom(40));
    }
}

#[test]
fn device_rejects_every_other_family_code() {
    for family_code in 0..=u8::MAX {
        let device = Ds18b20::new(rom(family_code));
        if family_code == FAMILY_CODE {
            assert!(device.is_ok());
        } else {
            assert_eq!(device.err(), Some(Error::FamilyCode { family_code }));
        }
    }
}

#[test]
fn device_reports_the_observed_family_code() {
    assert_eq!(Ds18b20::new(rom(0x10)).err(), Some(Error::FamilyCode { family_code: 0x10 }));
    assert_eq!(Ds18b20::new(rom(0)).err(), Some(Error::FamilyCode { family_code: 0 }));
}

#[test]
fn standard_timings() {
    let timings = Configuration::default();
    assert_eq!(
        timings,
        Configuration { a: 6_000, b: 64_000, c: 60_000, d: 10_000, e: 9_000, f: 55_000 }
    );
    assert_eq!(timings.a + timings.b, 70_000);
    assert_eq!(timings.c + timings.d, 70_000);
    assert_eq!(timings.a + timings.e + timings.f, 70_000);
}

#[test]
fn crc_error_lifts_into_protocol_error() {
    let error = Error::from(CrcError { crc: 94 });
    assert_eq!(error, Error::Crc(CrcError { crc: 94 }));
    let lifted: Error = CrcError { crc: 1 }.into();
    assert_eq!(lifted, Error::Crc(CrcError { crc: 1 }));
}

#[test]
fn protocol_error_lifts_into_composite_error() {
    let error: AError<()> = AError::from(Error::Timeout);
    assert_eq!(error, AError::Ds18b20(Error::Timeout));
    let error: AError<u8> = Error::BusNotHigh.into();
    assert_eq!(error, AError::Ds18b20(Error::BusNotHigh));
    assert_ne!(error, AError::Pin(0));
}

#[test]
fn failed_check_lifts_through_both_layers() {
    let outcome = crc8::check(&[99, 1, 75, 70, 127, 255, 13, 16, 0]);
    let lifted: Result<(), AError<()>> = outcome.map_err(Error::from).map_err(AError::from);
    assert_eq!(lifted, Err(AError::Ds18b20(Error::Crc(CrcError { crc: 162 }))));
}

#[test]
fn pin_answers_are_handed_on() {
    assert_eq!(AError::<u8>::lift(Ok::<bool, u8>(true)), Ok(true));
    assert_eq!(AError::<u8>::lift(Ok::<(), u8>(())), Ok(()));
    assert_eq!(AError::<u8>::lift(Err::<bool, u8>(7)), Err(AError::Pin(7)));
}

#[test]
fn errors_are_plain_data() {
    let errors = [
        Error::BusNotHigh,
        Error::NoAttachedDevices,
        Error::Timeout,
        Error::Crc(CrcError { crc: 3 }),
        Error::FamilyCode { family_code: 0x10 },
        Error::ConfigurationRegister { configuration_register: 0b0001_1111 },
    ];
    for (i, left) in errors.iter().enumerate() {
        for (j, right) in errors.iter().enumerate() {
            assert_eq!(left == right, i == j);
        }
        let copy = *left;
        assert_eq!(copy, left.clone());
    }
}
