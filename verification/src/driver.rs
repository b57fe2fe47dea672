//! The bus engine: bits and bytes moved over one line by timed pulses.

use crate::capability::{Delay, Pin};
use crate::configuration::Configuration;
use crate::error::AError;
use crate::trace::{
    bit, bits_of, bits_of_all, cut_short, lemma_cut_short_in_byte, lemma_cut_short_in_read,
    lemma_cut_short_in_slot, lemma_slots_next, lemma_slots_next_byte, read_cut_short, read_slot,
    slots, write_slot, Event, Slot,
};
use vstd::prelude::*;

verus! {

/// Ds18b20 driver
///
/// The driver owns its pin and its delay, and keeps no state between two
/// operations but its timings.
#[derive(Clone, Copy)]
pub struct Driver<T, U> {
    pin: T,
    delay: U,
    configuration: Configuration,
    trace: Ghost<Seq<Event>>,
}

impl<T, U> Driver<T, U> {
    /// Everything this driver has done on the line, oldest first: one event
    /// for each call of the pin that succeeded, and one for each wait.
    pub closed spec fn trace(&self) -> Seq<Event> {
        self.trace@
    }

    /// The timings that the driver shapes its slots with.
    pub closed spec fn timings(&self) -> Configuration {
        self.configuration
    }

    /// The pin that the driver owns.
    pub closed spec fn line(&self) -> T {
        self.pin
    }

    /// The delay that the driver owns.
    pub closed spec fn clock(&self) -> U {
        self.delay
    }

    /// The timings in use.
    pub fn configuration(&self) -> (configuration: &Configuration)
        ensures
            *configuration == self.timings(),
    {
        &self.configuration
    }

    /// The timings in use, to retune them between two operations.
    pub fn configuration_mut(&mut self) -> (configuration: &mut Configuration)
        ensures
            *configuration == old(self).timings(),
            final(self).timings() == *final(configuration),
            final(self).trace() == old(self).trace(),
            final(self).line() == old(self).line(),
            final(self).clock() == old(self).clock(),
    {
        &mut self.configuration
    }
}

/// Basic input pin operations
impl<T: Pin, U> Driver<T, U> {
    /// Samples the line: is it high?
    pub fn is_high(&mut self) -> (level: Result<bool, AError<T::Error>>)
        ensures
            final(self).timings() == old(self).timings(),
            final(self).clock() == old(self).clock(),
            match level {
                Ok(high) => final(self).trace() == old(self).trace().push(Event::Sample(high)),
                Err(error) => error is Pin && final(self).trace() == old(self).trace(),
            },
    {
        let answer = self.pin.is_high();
        proof {
            if let Ok(high) = answer {
                self.trace@ = self.trace@.push(Event::Sample(high));
            }
        }
        AError::lift(answer)
    }

    /// Samples the line: is it low?
    pub fn is_low(&mut self) -> (level: Result<bool, AError<T::Error>>)
        ensures
            final(self).timings() == old(self).timings(),
            final(self).clock() == old(self).clock(),
            match level {
                Ok(low) => final(self).trace() == old(self).trace().push(Event::Sample(!low)),
                Err(error) => error is Pin && final(self).trace() == old(self).trace(),
            },
    {
        let answer = self.pin.is_low();
        proof {
            if let Ok(low) = answer {
                self.trace@ = self.trace@.push(Event::Sample(!low));
            }
        }
        AError::lift(answer)
    }
}

/// Basic output pin operations
impl<T: Pin, U> Driver<T, U> {
    /// Set the output as high.
    ///
    /// Disconnects the bus, letting another device (or the pull-up resistor)
    /// raise the line.
    pub fn set_high(&mut self) -> (outcome: Result<(), AError<T::Error>>)
        ensures
            final(self).timings() == old(self).timings(),
            final(self).clock() == old(self).clock(),
            match outcome {
                Ok(()) => final(self).trace() == old(self).trace().push(Event::Release),
                Err(error) => error is Pin && final(self).trace() == old(self).trace(),
            },
    {
        let answer = self.pin.set_high();
        proof {
            if answer is Ok {
                self.trace@ = self.trace@.push(Event::Release);
            }
        }
        AError::lift(answer)
    }

    /// Set the output as low.
    pub fn set_low(&mut self) -> (outcome: Result<(), AError<T::Error>>)
        ensures
            final(self).timings() == old(self).timings(),
            final(self).clock() == old(self).clock(),
            match outcome {
                Ok(()) => final(self).trace() == old(self).trace().push(Event::Low),
                Err(error) => error is Pin && final(self).trace() == old(self).trace(),
            },
    {
        let answer = self.pin.set_low();
        proof {
            if answer is Ok {
                self.trace@ = self.trace@.push(Event::Low);
            }
        }
        AError::lift(answer)
    }
}

/// Basic delay operations
impl<T, U: Delay> Driver<T, U> {
    /// Waits for `ns` nanoseconds, with the line as it is.
    pub fn delay(&mut self, ns: u32)
        ensures
            final(self).timings() == old(self).timings(),
            final(self).line() == old(self).line(),
            final(self).trace() == old(self).trace().push(Event::Wait(ns)),
    {
        self.delay.delay_ns(ns);
        proof {
            self.trace@ = self.trace@.push(Event::Wait(ns));
        }
    }
}

impl<T: Pin, U: Delay> Driver<T, U> {
    /// Takes the pin and the delay, with the standard timings, and releases
    /// the line, which is high while the bus is idle.
    pub fn new(pin: T, delay: U) -> (driver: Result<Self, AError<T::Error>>)
        ensures
            match driver {
                Ok(driver) => {
                    &&& driver.trace() == seq![Event::Release]
                    &&& driver.timings() == Configuration::standard()
                    &&& driver.clock() == delay
                },
                Err(error) => error is Pin,
            },
    {
        let mut driver = Driver {
            pin,
            delay,
            configuration: Configuration::default(),
            trace: Ghost(Seq::empty()),
        };
        match driver.set_high() {
            Ok(()) => Ok(driver),
            Err(error) => Err(error),
        }
    }
}

/// Bit operations
impl<T: Pin, U: Delay> Driver<T, U> {
    /// Read a bit from the 1-Wire bus and return it.
    ///
    /// Blocks for the whole slot. If the pin fails, the slot is left where
    /// it stood.
    pub fn read_bit(&mut self) -> (bit: Result<bool, AError<T::Error>>)
        ensures
            final(self).timings() == old(self).timings(),
            match bit {
                Ok(bit) => final(self).trace() == old(self).trace() + read_slot(
                    old(self).timings(),
                    bit,
                ),
                Err(error) => {
                    &&& error is Pin
                    &&& exists|bit: bool|
                        cut_short(
                            old(self).trace(),
                            final(self).trace(),
                            #[trigger] read_slot(old(self).timings(), bit),
                        )
                },
            },
    {
        let ghost before = self.trace();
        let ghost slot = read_slot(self.timings(), false);
        assert(cut_short(before, self.trace(), slot)) by {
            assert(self.trace() == before + slot.take(0));
        }
        self.set_low()?;
        self.delay(self.configuration.a);
        assert(cut_short(before, self.trace(), slot)) by {
            assert(self.trace() == before + slot.take(2));
        }
        self.set_high()?;
        self.delay(self.configuration.e);
        assert(cut_short(before, self.trace(), slot)) by {
            assert(self.trace() == before + slot.take(4));
        }
        let bit = self.is_high()?;
        self.delay(self.configuration.f);
        assert(self.trace() == before + read_slot(self.timings(), bit));
        Ok(bit)
    }

    /// Send a 1-Wire write bit.
    ///
    /// Blocks for the whole slot. If the pin fails, the slot is left where
    /// it stood.
    pub fn write_bit(&mut self, bit: bool) -> (outcome: Result<(), AError<T::Error>>)
        ensures
            final(self).timings() == old(self).timings(),
            match outcome {
                Ok(()) => final(self).trace() == old(self).trace() + write_slot(
                    old(self).timings(),
                    bit,
                ),
                Err(error) => {
                    &&& error is Pin
                    &&& cut_short(
                        old(self).trace(),
                        final(self).trace(),
                        write_slot(old(self).timings(), bit),
                    )
                },
            },
    {
        let ghost before = self.trace();
        let ghost slot = write_slot(self.timings(), bit);
        assert(cut_short(before, self.trace(), slot)) by {
            assert(self.trace() == before + slot.take(0));
        }
        self.set_low()?;
        self.delay(
            if bit {
                self.configuration.a
            } else {
                self.configuration.c
            },
        );
        assert(cut_short(before, self.trace(), slot)) by {
            assert(self.trace() == before + slot.take(2));
        }
        self.set_high()?;
        self.delay(
            if bit {
                self.configuration.b
            } else {
                self.configuration.d
            },
        );
        assert(self.trace() == before + slot);
        Ok(())
    }
}

/// The register that a byte is read into, after one more bit was shifted in
/// at its top.
spec fn shifted_in(register: u8, sample: bool) -> u8 {
    if sample {
        (register >> 1) | 0x80
    } else {
        register >> 1
    }
}

/// A bit shifted in stands at the top of the register, and each bit that was
/// in it stands one place lower.
proof fn lemma_shifted_in(register: u8, sample: bool, index: u8)
    requires
        index < 8,
    ensures
        bit(shifted_in(register, sample), index) == if index == 7 {
            sample
        } else {
            bit(register, (index + 1) as u8)
        },
{
    assert(index < 7 ==> (((register >> 1) >> index) & 1 == 1) == ((register >> ((index
        + 1) as u8)) & 1 == 1)) by (bit_vector);
    assert(index < 7 ==> ((((register >> 1) | 0x80) >> index) & 1 == 1) == ((register >> ((index
        + 1) as u8)) & 1 == 1)) by (bit_vector);
    assert(((register >> 1) >> 7u8) & 1 == 0) by (bit_vector);
    assert((((register >> 1) | 0x80) >> 7u8) & 1 == 1) by (bit_vector);
}

/// Byte operations
impl<T: Pin, U: Delay> Driver<T, U> {
    /// Read 1-Wire data byte, least significant bit first.
    ///
    /// If the pin fails, the byte is lost and the slot is left where it
    /// stood.
    pub fn read_byte(&mut self) -> (byte: Result<u8, AError<T::Error>>)
        ensures
            final(self).timings() == old(self).timings(),
            match byte {
                Ok(byte) => final(self).trace() == old(self).trace() + slots(
                    old(self).timings(),
                    Slot::Read,
                    bits_of(byte),
                ),
                Err(error) => {
                    &&& error is Pin
                    &&& exists|bits: Seq<bool>|
                        bits.len() == 8 && cut_short(
                            old(self).trace(),
                            final(self).trace(),
                            #[trigger] slots(old(self).timings(), Slot::Read, bits),
                        )
                },
            },
    {
        let ghost before = self.trace();
        let ghost timings = self.timings();
        let ghost mut sampled: Seq<bool> = Seq::empty();
        let mut byte: u8 = 0;
        let mut n: u8 = 0;
        while n < 8
            invariant
                n <= 8,
                sampled.len() == n,
                forall|j: int| 0 <= j < n ==> sampled[j] == bit(byte, (8 - n + j) as u8),
                before == old(self).trace(),
                timings == old(self).timings(),
                self.timings() == timings,
                self.trace() == before + slots(timings, Slot::Read, sampled),
            decreases 8 - n,
        {
            let ghost register = byte;
            proof {
                lemma_cut_short_in_read(timings, before, self.trace(), sampled, 8);
            }
            byte >>= 1;
            let sample = self.read_bit()?;
            if sample {
                byte |= 0x80;
            }
            proof {
                assert(sampled.push(sample).drop_last() == sampled);
                assert forall|j: int| 0 <= j < n + 1 implies sampled.push(sample)[j] == bit(
                    byte,
                    (8 - (n + 1) + j) as u8,
                ) by {
                    lemma_shifted_in(register, sample, (8 - (n + 1) + j) as u8);
                }
                sampled = sampled.push(sample);
            }
            n += 1;
        }
        assert(sampled == bits_of(byte));
        Ok(byte)
    }

    /// Reads as many bytes as `bytes` holds, in order.
    ///
    /// If the pin fails, the bytes read so far are in `bytes`, the others
    /// are as they were, and the slot is left where it stood.
    pub fn read_bytes(&mut self, bytes: &mut [u8]) -> (outcome: Result<(), AError<T::Error>>)
        ensures
            final(self).timings() == old(self).timings(),
            final(bytes)@.len() == old(bytes)@.len(),
            old(bytes)@.len() == 0 ==> outcome is Ok,
            match outcome {
                Ok(()) => final(self).trace() == old(self).trace() + slots(
                    old(self).timings(),
                    Slot::Read,
                    bits_of_all(final(bytes)@),
                ),
                Err(error) => {
                    &&& error is Pin
                    &&& exists|count: int, bits: Seq<bool>| #[trigger]
                        read_cut_short(
                            old(self).timings(),
                            old(self).trace(),
                            final(self).trace(),
                            old(bytes)@,
                            final(bytes)@,
                            count,
                            bits,
                        )
                },
            },
    {
        let ghost before = self.trace();
        let ghost timings = self.timings();
        let ghost then = bytes@;
        let mut i: usize = 0;
        while i < bytes.len()
            invariant
                i <= bytes@.len(),
                bytes@.len() == then.len(),
                bytes@.skip(i as int) == then.skip(i as int),
                then == old(bytes)@,
                before == old(self).trace(),
                timings == old(self).timings(),
                self.timings() == timings,
                self.trace() == before + slots(
                    timings,
                    Slot::Read,
                    bits_of_all(bytes@.take(i as int)),
                ),
            decreases bytes@.len() - i,
        {
            let ghost mid = self.trace();
            let ghost now = bytes@;
            proof {
                assert forall|after: Seq<Event>, bits: Seq<bool>|
                    bits.len() == 8 && #[trigger] cut_short(
                        mid,
                        after,
                        slots(timings, Slot::Read, bits),
                    ) implies read_cut_short(
                    timings,
                    before,
                    after,
                    then,
                    now,
                    i as int,
                    bits,
                ) by {}
            }
            bytes[i] = self.read_byte()?;
            proof {
                assert(bytes@.take(i as int) == now.take(i as int));
                lemma_slots_next_byte(timings, Slot::Read, bytes@, i as int);
                assert(bytes@.skip(i + 1) == then.skip(i + 1)) by {
                    assert(bytes@.skip(i + 1) == now.skip(i as int).skip(1));
                    assert(then.skip(i + 1) == then.skip(i as int).skip(1));
                }
            }
            i += 1;
        }
        assert(bytes@.take(i as int) == bytes@);
        Ok(())
    }

    /// Write 1-Wire data byte, least significant bit first.
    ///
    /// If the pin fails, the slot is left where it stood.
    pub fn write_byte(&mut self, byte: u8) -> (outcome: Result<(), AError<T::Error>>)
        ensures
            final(self).timings() == old(self).timings(),
            match outcome {
                Ok(()) => final(self).trace() == old(self).trace() + slots(
                    old(self).timings(),
                    Slot::Write,
                    bits_of(byte),
                ),
                Err(error) => {
                    &&& error is Pin
                    &&& cut_short(
                        old(self).trace(),
                        final(self).trace(),
                        slots(old(self).timings(), Slot::Write, bits_of(byte)),
                    )
                },
            },
    {
        let ghost before = self.trace();
        let ghost timings = self.timings();
        let mut rest: u8 = byte;
        let mut n: u8 = 0;
        assert(byte >> 0u8 == byte) by (bit_vector);
        while n < 8
            invariant
                n <= 8,
                n < 8 ==> rest == byte >> n,
                before == old(self).trace(),
                timings == old(self).timings(),
                self.timings() == timings,
                self.trace() == before + slots(
                    timings,
                    Slot::Write,
                    bits_of(byte).take(n as int),
                ),
            decreases 8 - n,
        {
            proof {
                lemma_cut_short_in_slot(
                    timings,
                    Slot::Write,
                    before,
                    self.trace(),
                    bits_of(byte),
                    n as int,
                );
                lemma_slots_next(timings, Slot::Write, bits_of(byte), n as int);
            }
            self.write_bit(rest & 0x01 == 0x01)?;
            rest >>= 1;
            assert(n < 7 ==> (byte >> n) >> 1 == byte >> ((n + 1) as u8)) by (bit_vector);
            n += 1;
        }
        assert(bits_of(byte).take(8) == bits_of(byte));
        Ok(())
    }

    /// Writes each of `bytes`, in order.
    ///
    /// If the pin fails, the slot is left where it stood.
    pub fn write_bytes(&mut self, bytes: &[u8]) -> (outcome: Result<(), AError<T::Error>>)
        ensures
            final(self).timings() == old(self).timings(),
            bytes@.len() == 0 ==> outcome is Ok,
            match outcome {
                Ok(()) => final(self).trace() == old(self).trace() + slots(
                    old(self).timings(),
                    Slot::Write,
                    bits_of_all(bytes@),
                ),
                Err(error) => {
                    &&& error is Pin
                    &&& cut_short(
                        old(self).trace(),
                        final(self).trace(),
                        slots(old(self).timings(), Slot::Write, bits_of_all(bytes@)),
                    )
                },
            },
    {
        let ghost before = self.trace();
        let ghost timings = self.timings();
        let mut i: usize = 0;
        while i < bytes.len()
            invariant
                i <= bytes@.len(),
                before == old(self).trace(),
                timings == old(self).timings(),
                self.timings() == timings,
                self.trace() == before + slots(
                    timings,
                    Slot::Write,
                    bits_of_all(bytes@.take(i as int)),
                ),
            decreases bytes@.len() - i,
        {
            proof {
                lemma_cut_short_in_byte(
                    timings,
                    Slot::Write,
                    before,
                    self.trace(),
                    bytes@,
                    i as int,
                );
                lemma_slots_next_byte(timings, Slot::Write, bytes@, i as int);
            }
            self.write_byte(bytes[i])?;
            i += 1;
        }
        assert(bytes@.take(i as int) == bytes@);
        Ok(())
    }
}

} // verus!
