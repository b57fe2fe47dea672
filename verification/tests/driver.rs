use ds18b20::capability::{Delay, Pin};
use ds18b20::{AError, Configuration, Driver};
use std::cell::RefCell;
use std::collections::VecDeque;
use std::rc::Rc;

/// What the simulated line was asked to do.
#[derive(Clone, Copy, Debug, PartialEq, Eq)]
enum Call {
    Low,
    Release,
    Sample,
    Wait(u32),
}

use Call::{Low, Release, Sample, Wait};

#[derive(Clone, Copy, Debug, PartialEq, Eq)]
struct Fault(u32);

/// A scripted line: it records every call, answers samples from `levels`
/// (high once they run out), and fails the pin call that `fails_at` counts
/// down to.
struct Bench {
    calls: Vec<Call>,
    levels: VecDeque<bool>,
    pin_calls: u32,
    fails_at: Option<u32>,
}

impl Bench {
    fn touch(&mut self, call: Call) -> Result<(), Fault> {
        let index = self.pin_calls;
        self.pin_calls += 1;
        if self.fails_at == Some(index) {
            return Err(Fault(index));
        }
        self.calls.push(call);
        Ok(())
    }
}

#[derive(Clone)]
struct Line(Rc<RefCell<Bench>>);

#[derive(Clone)]
struct Clock(Rc<RefCell<Bench>>);

impl Pin for Line {
    type Error = Fault;

    fn is_high(&mut self) -> Result<bool, Fault> {
        let mut bench = self.0.borrow_mut();
        bench.touch(Sample)?;
        Ok(bench.levels.pop_front().unwrap_or(true))
    }

    fn is_low(&mut self) -> Result<bool, Fault> {
        let mut bench = self.0.borrow_mut();
        bench.touch(Sample)?;
        Ok(!bench.levels.pop_front().unwrap_or(true))
    }

    fn set_high(&mut self) -> Result<(), Fault> {
        self.0.borrow_mut().touch(Release)
    }

    fn set_low(&mut self) -> Result<(), Fault> {
        self.0.borrow_mut().touch(Low)
    }
}

impl Delay for Clock {
    fn delay_ns(&mut self, ns: u32) {
        self.0.borrow_mut().calls.push(Wait(ns));
    }
}

const TIMINGS: Configuration = Configuration { a: 1, b: 2, c: 3, d: 4, e: 5, f: 6 };

fn bench(levels: &[bool], fails_at: Option<u32>) -> Rc<RefCell<Bench>> {
    Rc::new(RefCell::new(Bench {
        calls: Vec::new(),
        levels: levels.iter().copied().collect(),
        pin_calls: 0,
        fails_at,
    }))
}

/// A driver on `bench` with `TIMINGS`, and the record of its construction
/// cleared. The release that `new` issues is pin call 0.
fn driver(bench: &Rc<RefCell<Bench>>) -> Driver<Line, Clock> {
    let made = Driver::new(Line(bench.clone()), Clock(bench.clone()));
    assert!(made.is_ok());
    let mut driver = made.ok().unwrap();
    *driver.configuration_mut() = TIMINGS;
    bench.borrow_mut().calls.clear();
    driver
}

fn calls(bench: &Rc<RefCell<Bench>>) -> Vec<Call> {
    bench.borrow().calls.clone()
}

fn read_slot() -> Vec<Call> {
    vec![Low, Wait(1), Release, Wait(5), Sample, Wait(6)]
}

fn write_slot(bit: bool) -> Vec<Call> {
    if bit {
        vec![Low, Wait(1), Release, Wait(2)]
    } else {
        vec![Low, Wait(3), Release, Wait(4)]
    }
}

fn write_slots(bytes: &[u8]) -> Vec<Call> {
    let mut slots = Vec::new();
    for byte in bytes {
        for index in 0..8 {
            slots.extend(write_slot(byte >> index & 1 == 1));
        }
    }
    slots
}

fn levels_of(bytes: &[u8]) -> Vec<bool> {
    let mut levels = Vec::new();
    for byte in bytes {
        for index in 0..8 {
            levels.push(byte >> index & 1 == 1);
        }
    }
    levels
}

#[test]
fn new_releases_the_line_once() {
    let bench = bench(&[], None);
    let driver = Driver::new(Line(bench.clone()), Clock(bench.clone()));
    assert!(driver.is_ok());
    assert_eq!(calls(&bench), vec![Release]);
    assert_eq!(bench.borrow().pin_calls, 1);
}

#[test]
fn new_starts_with_the_standard_timings() {
    let bench = bench(&[], None);
    let driver = Driver::new(Line(bench.clone()), Clock(bench.clone())).ok().unwrap();
    assert_eq!(*driver.configuration(), Configuration::default());
    assert_eq!(driver.configuration().a, 6_000);
}

#[test]
fn new_fails_with_the_fault_of_the_release() {
    let bench = bench(&[], Some(0));
    let driver = Driver::new(Line(bench.clone()), Clock(bench.clone()));
    assert_eq!(driver.err(), Some(AError::Pin(Fault(0))));
    assert_eq!(calls(&bench), vec![]);
    assert_eq!(bench.borrow().pin_calls, 1);
}

#[test]
fn configuration_can_be_retuned() {
    let bench = bench(&[], None);
    let mut driver = driver(&bench);
    assert_eq!(*driver.configuration(), TIMINGS);
    driver.configuration_mut().a = 10;
    driver.configuration_mut().b = 20;
    assert_eq!(*driver.configuration(), Configuration { a: 10, b: 20, ..TIMINGS });
    assert_eq!(driver.write_bit(true), Ok(()));
    assert_eq!(calls(&bench), vec![Low, Wait(10), Release, Wait(20)]);
}

#[test]
fn primitives_pass_through() {
    let bench = bench(&[true, false, true, false], None);
    let mut driver = driver(&bench);
    assert_eq!(driver.set_low(), Ok(()));
    assert_eq!(driver.set_high(), Ok(()));
    driver.delay(123);
    driver.delay(0);
    driver.delay(u32::MAX);
    assert_eq!(driver.is_high(), Ok(true));
    assert_eq!(driver.is_high(), Ok(false));
    assert_eq!(driver.is_low(), Ok(false));
    assert_eq!(driver.is_low(), Ok(true));
    assert_eq!(
        calls(&bench),
        vec![Low, Release, Wait(123), Wait(0), Wait(u32::MAX), Sample, Sample, Sample, Sample]
    );
}

#[test]
fn primitives_hand_on_the_fault_of_the_pin() {
    for call in 0..4 {
        let bench = bench(&[], Some(1));
        let mut driver = driver(&bench);
        let fault = Err(AError::Pin(Fault(1)));
        match call {
            0 => assert_eq!(driver.set_low(), fault),
            1 => assert_eq!(driver.set_high(), fault),
            2 => assert_eq!(driver.is_high().map(|_| ()), fault),
            _ => assert_eq!(driver.is_low().map(|_| ()), fault),
        }
        assert_eq!(calls(&bench), vec![]);
    }
}

#[test]
fn write_bit_one_is_low_for_a_then_released_for_b() {
    let bench = bench(&[], None);
    let mut driver = driver(&bench);
    assert_eq!(driver.write_bit(true), Ok(()));
    assert_eq!(calls(&bench), vec![Low, Wait(1), Release, Wait(2)]);
}

#[test]
fn write_bit_zero_is_low_for_c_then_released_for_d() {
    let bench = bench(&[], None);
    let mut driver = driver(&bench);
    assert_eq!(driver.write_bit(false), Ok(()));
    assert_eq!(calls(&bench), vec![Low, Wait(3), Release, Wait(4)]);
}

#[test]
fn write_bit_with_the_standard_timings() {
    let bench = bench(&[], None);
    let mut driver = Driver::new(Line(bench.clone()), Clock(bench.clone())).ok().unwrap();
    assert_eq!(driver.write_bit(true), Ok(()));
    assert_eq!(driver.write_bit(false), Ok(()));
    assert_eq!(
        calls(&bench),
        vec![
            Release,
            Low,
            Wait(6_000),
            Release,
            Wait(64_000),
            Low,
            Wait(60_000),
            Release,
            Wait(10_000)
        ]
    );
}

#[test]
fn read_bit_samples_e_after_the_release() {
    for level in [true, false] {
        let bench = bench(&[level], None);
        let mut driver = driver(&bench);
        assert_eq!(driver.read_bit(), Ok(level));
        assert_eq!(calls(&bench), vec![Low, Wait(1), Release, Wait(5), Sample, Wait(6)]);
    }
}

#[test]
fn read_bit_with_the_standard_timings() {
    let bench = bench(&[false], None);
    let mut driver = Driver::new(Line(bench.clone()), Clock(bench.clone())).ok().unwrap();
    assert_eq!(driver.read_bit(), Ok(false));
    assert_eq!(
        calls(&bench),
        vec![Release, Low, Wait(6_000), Release, Wait(9_000), Sample, Wait(55_000)]
    );
}

fn waited(calls: &[Call]) -> u64 {
    calls.iter().map(|call| if let Wait(ns) = call { u64::from(*ns) } else { 0 }).sum()
}

#[test]
fn slots_last_as_long_as_their_waits() {
    let bench = bench(&[true], None);
    let mut driver = Driver::new(Line(bench.clone()), Clock(bench.clone())).ok().unwrap();
    *driver.configuration_mut() =
        Configuration { a: 7, b: 11, c: 13, d: 17, e: 19, f: u32::MAX };
    assert_eq!(driver.write_bit(true), Ok(()));
    assert_eq!(waited(&calls(&bench)), 7 + 11);
    bench.borrow_mut().calls.clear();
    assert_eq!(driver.write_bit(false), Ok(()));
    assert_eq!(waited(&calls(&bench)), 13 + 17);
    bench.borrow_mut().calls.clear();
    assert_eq!(driver.read_bit(), Ok(true));
    assert_eq!(waited(&calls(&bench)), 7 + 19 + u64::from(u32::MAX));
}

#[test]
fn write_bit_stops_where_the_pin_fails() {
    let done = [vec![], vec![Low, Wait(3)]];
    for (call, done) in done.into_iter().enumerate() {
        let at = 1 + call as u32;
        let bench = bench(&[], Some(at));
        let mut driver = driver(&bench);
        assert_eq!(driver.write_bit(false), Err(AError::Pin(Fault(at))));
        assert_eq!(calls(&bench), done);
    }
}

#[test]
fn read_bit_stops_where_the_pin_fails() {
    let done = [vec![], vec![Low, Wait(1)], vec![Low, Wait(1), Release, Wait(5)]];
    for (call, done) in done.into_iter().enumerate() {
        let at = 1 + call as u32;
        let bench = bench(&[true], Some(at));
        let mut driver = driver(&bench);
        assert_eq!(driver.read_bit(), Err(AError::Pin(Fault(at))));
        assert_eq!(calls(&bench), done);
    }
}

#[test]
fn write_byte_sends_the_least_significant_bit_first() {
    let bench = bench(&[], None);
    let mut driver = driver(&bench);
    assert_eq!(driver.write_byte(0b0000_0001), Ok(()));
    let mut expected = write_slot(true);
    for _ in 1..8 {
        expected.extend(write_slot(false));
    }
    assert_eq!(calls(&bench), expected);
}

#[test]
fn write_byte_sends_the_most_significant_bit_last() {
    let bench = bench(&[], None);
    let mut driver = driver(&bench);
    assert_eq!(driver.write_byte(0b1000_0000), Ok(()));
    let mut expected = Vec::new();
    for _ in 0..7 {
        expected.extend(write_slot(false));
    }
    expected.extend(write_slot(true));
    assert_eq!(calls(&bench), expected);
}

#[test]
fn write_byte_sends_eight_slots() {
    for byte in [0x00, 0xFF, 0x44, 0xBE, 0xCC, 0x5A] {
        let bench = bench(&[], None);
        let mut driver = driver(&bench);
        assert_eq!(driver.write_byte(byte), Ok(()));
        assert_eq!(calls(&bench), write_slots(&[byte]));
        assert_eq!(calls(&bench).len(), 32);
    }
}

#[test]
fn read_byte_takes_the_first_bit_as_the_least_significant() {
    let bench = bench(&[true, false, false, false, false, false, false, false], None);
    let mut driver = driver(&bench);
    assert_eq!(driver.read_byte(), Ok(0b0000_0001));
    assert_eq!(calls(&bench), read_slot().repeat(8));
}

#[test]
fn read_byte_takes_the_last_bit_as_the_most_significant() {
    let bench = bench(&[false, false, false, false, false, false, false, true], None);
    let mut driver = driver(&bench);
    assert_eq!(driver.read_byte(), Ok(0b1000_0000));
}

#[test]
fn read_byte_assembles_every_byte() {
    for byte in 0..=u8::MAX {
        let bench = bench(&levels_of(&[byte]), None);
        let mut driver = driver(&bench);
        assert_eq!(driver.read_byte(), Ok(byte));
        assert_eq!(calls(&bench).len(), 48);
    }
}

#[test]
fn read_byte_of_an_idle_line_is_0xff() {
    let bench = bench(&[], None);
    let mut driver = driver(&bench);
    assert_eq!(driver.read_byte(), Ok(0xFF));
}

#[test]
fn write_bytes_sends_each_byte_in_order() {
    let bench = bench(&[], None);
    let mut driver = driver(&bench);
    assert_eq!(driver.write_bytes(&[0xCC, 0x44, 0x01]), Ok(()));
    assert_eq!(calls(&bench), write_slots(&[0xCC, 0x44, 0x01]));
}

#[test]
fn write_bytes_of_nothing_leaves_the_line_alone() {
    let bench = bench(&[], None);
    let mut driver = driver(&bench);
    assert_eq!(driver.write_bytes(&[]), Ok(()));
    assert_eq!(driver.read_bytes(&mut []), Ok(()));
    assert_eq!(calls(&bench), vec![]);
}

#[test]
fn read_bytes_fills_the_buffer_in_order() {
    let scratchpad = [99, 1, 75, 70, 127, 255, 13, 16, 21];
    let bench = bench(&levels_of(&scratchpad), None);
    let mut driver = driver(&bench);
    let mut buffer = [0; 9];
    assert_eq!(driver.read_bytes(&mut buffer), Ok(()));
    assert_eq!(buffer, scratchpad);
    assert_eq!(calls(&bench), read_slot().repeat(72));
    assert_eq!(ds18b20::crc8::check(&buffer), Ok(()));
}

#[test]
fn read_bytes_keeps_what_it_read_before_the_pin_failed() {
    // Each read slot makes three pin calls. The construction made one, so
    // call 1 + 3 * 19 + 2 is the sample of the fourth bit of the third byte.
    let bench = bench(&levels_of(&[0xA5, 0x3C, 0xFF, 0x00]), Some(1 + 3 * 19 + 2));
    let mut driver = driver(&bench);
    let mut buffer = [0x11, 0x22, 0x33, 0x44];
    assert_eq!(driver.read_bytes(&mut buffer), Err(AError::Pin(Fault(60))));
    assert_eq!(buffer, [0xA5, 0x3C, 0x33, 0x44]);
    let mut expected = read_slot().repeat(19);
    expected.extend([Low, Wait(1), Release, Wait(5)]);
    assert_eq!(calls(&bench), expected);
}

#[test]
fn read_byte_stops_where_the_pin_fails() {
    let bench = bench(&[], Some(1 + 3 * 5 + 1));
    let mut driver = driver(&bench);
    assert_eq!(driver.read_byte(), Err(AError::Pin(Fault(17))));
    let mut expected = read_slot().repeat(5);
    expected.extend([Low, Wait(1)]);
    assert_eq!(calls(&bench), expected);
}

#[test]
fn write_byte_stops_where_the_pin_fails() {
    // Each write slot makes two pin calls: call 1 + 2 * 3 is the pull that
    // opens the fourth slot.
    let bench = bench(&[], Some(1 + 2 * 3));
    let mut driver = driver(&bench);
    assert_eq!(driver.write_byte(0b0000_0101), Err(AError::Pin(Fault(7))));
    let mut expected = write_slot(true);
    expected.extend(write_slot(false));
    expected.extend(write_slot(true));
    assert_eq!(calls(&bench), expected);
}

#[test]
fn write_bytes_stops_where_the_pin_fails() {
    // Call 1 + 2 * 8 + 1 is the release in the first slot of the second byte.
    let bench = bench(&[], Some(1 + 2 * 8 + 1));
    let mut driver = driver(&bench);
    assert_eq!(driver.write_bytes(&[0x0F, 0xF0, 0xAA]), Err(AError::Pin(Fault(18))));
    let mut expected = write_slots(&[0x0F]);
    expected.extend([Low, Wait(3)]);
    assert_eq!(calls(&bench), expected);
}

#[test]
fn operations_after_a_fault_start_afresh() {
    let bench = bench(&[true], Some(2));
    let mut driver = driver(&bench);
    assert_eq!(driver.write_bit(true), Err(AError::Pin(Fault(2))));
    assert_eq!(driver.read_bit(), Ok(true));
    let mut expected = vec![Low, Wait(1)];
    expected.extend(read_slot());
    assert_eq!(calls(&bench), expected);
}

#[test]
fn written_bytes_read_back() {
    let bytes = [0xBE, 0x28, 0x00, 0xFF, 0x5A];
    let bench = bench(&levels_of(&bytes), None);
    let mut driver = driver(&bench);
    assert_eq!(driver.write_bytes(&bytes), Ok(()));
    let mut buffer = [0; 5];
    assert_eq!(driver.read_bytes(&mut buffer), Ok(()));
    assert_eq!(buffer, bytes);
}
