//! What a driver has done on the line, as a sequence of events, and the
//! sequences that the protocol prescribes for a bit and for a run of bits.

use crate::configuration::Configuration;
use vstd::prelude::*;

verus! {

/// One thing done on the line.
pub enum Event {
    /// The line was pulled low.
    Low,
    /// The line was released, for the pull-up to raise it.
    Release,
    /// The line was left as it was for this many nanoseconds.
    Wait(u32),
    /// The line was sampled, and found high (`true`) or low (`false`).
    Sample(bool),
}

impl Event {
    /// The event touches the pin, so it is one that can fail.
    pub open spec fn on_pin(self) -> bool {
        !(self is Wait)
    }
}

/// The two kinds of slot.
pub enum Slot {
    /// The device answers with a bit.
    Read,
    /// The driver sends a bit.
    Write,
}

/// The slot that reads one bit: low for `a`, release, `e` until the sample,
/// then `f` to complete the slot.
pub open spec fn read_slot(timings: Configuration, bit: bool) -> Seq<Event> {
    seq![
        Event::Low,
        Event::Wait(timings.a),
        Event::Release,
        Event::Wait(timings.e),
        Event::Sample(bit),
        Event::Wait(timings.f),
    ]
}

/// The slot that writes one bit: low for `a` and released for `b` to write a
/// 1, low for `c` and released for `d` to write a 0.
pub open spec fn write_slot(timings: Configuration, bit: bool) -> Seq<Event> {
    seq![
        Event::Low,
        Event::Wait(if bit { timings.a } else { timings.c }),
        Event::Release,
        Event::Wait(if bit { timings.b } else { timings.d }),
    ]
}

/// The slot of the given kind that carries `bit`.
pub open spec fn slot(timings: Configuration, kind: Slot, bit: bool) -> Seq<Event> {
    match kind {
        Slot::Read => read_slot(timings, bit),
        Slot::Write => write_slot(timings, bit),
    }
}

/// The number of events in a slot.
pub open spec fn slot_len(kind: Slot) -> nat {
    match kind {
        Slot::Read => 6,
        Slot::Write => 4,
    }
}

/// One slot of the given kind for each of `bits`, in order.
pub open spec fn slots(timings: Configuration, kind: Slot, bits: Seq<bool>) -> Seq<Event>
    decreases bits.len(),
{
    if bits.len() == 0 {
        Seq::empty()
    } else {
        slots(timings, kind, bits.drop_last()) + slot(timings, kind, bits.last())
    }
}

/// The time that the waits of `events` add up to, in nanoseconds.
pub open spec fn duration(events: Seq<Event>) -> nat
    decreases events.len(),
{
    if events.len() == 0 {
        0
    } else {
        duration(events.drop_last()) + match events.last() {
            Event::Wait(ns) => ns as nat,
            _ => 0,
        }
    }
}

/// Bit `index` of `byte`, counted from the least significant.
pub open spec fn bit(byte: u8, index: u8) -> bool {
    (byte >> index) & 1 == 1
}

/// The eight bits of `byte` in the order in which they cross the bus: the
/// least significant first.
pub open spec fn bits_of(byte: u8) -> Seq<bool> {
    Seq::new(8, |index: int| bit(byte, index as u8))
}

/// The bits of each of `bytes`, in order.
pub open spec fn bits_of_all(bytes: Seq<u8>) -> Seq<bool>
    decreases bytes.len(),
{
    if bytes.len() == 0 {
        Seq::empty()
    } else {
        bits_of_all(bytes.drop_last()) + bits_of(bytes.last())
    }
}

/// A run of `script` that began at `before` was cut short at `after`: a
/// proper part of the script was carried out, and the event that would have
/// come next touches the pin.
pub open spec fn cut_short(before: Seq<Event>, after: Seq<Event>, script: Seq<Event>) -> bool {
    let done = after.len() - before.len();
    &&& 0 <= done < script.len()
    &&& after == before + script.take(done)
    &&& script[done].on_pin()
}

/// A read of bytes from `before` was cut short at `after`: the first `count`
/// bytes of `now` were read whole, the bytes from there on are as they were
/// in `then`, and the read of the next byte, which would have sampled `bits`,
/// was cut short.
pub open spec fn read_cut_short(
    timings: Configuration,
    before: Seq<Event>,
    after: Seq<Event>,
    then: Seq<u8>,
    now: Seq<u8>,
    count: int,
    bits: Seq<bool>,
) -> bool {
    &&& 0 <= count < now.len()
    &&& now.skip(count) == then.skip(count)
    &&& bits.len() == 8
    &&& cut_short(
        before + slots(timings, Slot::Read, bits_of_all(now.take(count))),
        after,
        slots(timings, Slot::Read, bits),
    )
}

/// A run cut short in the tail of a script, after the head was carried out,
/// is a run of the whole script cut short.
pub proof fn lemma_cut_short_in_tail(
    before: Seq<Event>,
    mid: Seq<Event>,
    after: Seq<Event>,
    head: Seq<Event>,
    tail: Seq<Event>,
)
    requires
        mid == before + head,
        cut_short(mid, after, tail),
    ensures
        cut_short(before, after, head + tail),
{
    let done = after.len() - mid.len();
    assert((head + tail).take(head.len() + done) == head + tail.take(done));
    assert(before + (head + tail.take(done)) == (before + head) + tail.take(done));
}

/// A run of a script cut short is also a run of any longer script that
/// begins with it.
pub proof fn lemma_cut_short_in_head(
    before: Seq<Event>,
    after: Seq<Event>,
    head: Seq<Event>,
    tail: Seq<Event>,
)
    requires
        cut_short(before, after, head),
    ensures
        cut_short(before, after, head + tail),
{
    let done = after.len() - before.len();
    assert((head + tail).take(done) == head.take(done));
}

/// The slots of two runs of bits are the slots of the first followed by the
/// slots of the second.
pub proof fn lemma_slots_concat(
    timings: Configuration,
    kind: Slot,
    head: Seq<bool>,
    tail: Seq<bool>,
)
    ensures
        slots(timings, kind, head + tail) == slots(timings, kind, head) + slots(
            timings,
            kind,
            tail,
        ),
    decreases tail.len(),
{
    let first = slots(timings, kind, head);
    if tail.len() == 0 {
        assert(head + tail == head);
        assert(first + Seq::<Event>::empty() == first);
    } else {
        let middle = slots(timings, kind, tail.drop_last());
        let last = slot(timings, kind, tail.last());
        assert((head + tail).drop_last() == head + tail.drop_last());
        lemma_slots_concat(timings, kind, head, tail.drop_last());
        assert(first + (middle + last) == (first + middle) + last);
    }
}

/// The bits of two runs of bytes are the bits of the first followed by the
/// bits of the second.
pub proof fn lemma_bits_of_all_concat(head: Seq<u8>, tail: Seq<u8>)
    ensures
        bits_of_all(head + tail) == bits_of_all(head) + bits_of_all(tail),
    decreases tail.len(),
{
    let first = bits_of_all(head);
    if tail.len() == 0 {
        assert(head + tail == head);
        assert(first + Seq::<bool>::empty() == first);
    } else {
        let middle = bits_of_all(tail.drop_last());
        let last = bits_of(tail.last());
        assert((head + tail).drop_last() == head + tail.drop_last());
        lemma_bits_of_all_concat(head, tail.drop_last());
        assert(first + (middle + last) == (first + middle) + last);
    }
}

/// After the slots of the first `n` of `bits`, the slot of the next bit
/// completes the slots of the first `n + 1`.
pub proof fn lemma_slots_next(timings: Configuration, kind: Slot, bits: Seq<bool>, n: int)
    requires
        0 <= n < bits.len(),
    ensures
        slots(timings, kind, bits.take(n)) + slot(timings, kind, bits[n]) == slots(
            timings,
            kind,
            bits.take(n + 1),
        ),
{
    assert(bits.take(n + 1).drop_last() == bits.take(n));
}

/// After the slots of the first `n` of `bytes`, the slots of the next byte
/// complete the slots of the first `n + 1`.
pub proof fn lemma_slots_next_byte(timings: Configuration, kind: Slot, bytes: Seq<u8>, n: int)
    requires
        0 <= n < bytes.len(),
    ensures
        slots(timings, kind, bits_of_all(bytes.take(n))) + slots(timings, kind, bits_of(bytes[n]))
            == slots(timings, kind, bits_of_all(bytes.take(n + 1))),
{
    assert(bytes.take(n + 1).drop_last() == bytes.take(n));
    lemma_slots_concat(timings, kind, bits_of_all(bytes.take(n)), bits_of(bytes[n]));
}

/// Wherever the slot of bit `n` is cut short, after the slots of the bits
/// before it, the slots of all the bits are cut short.
pub proof fn lemma_cut_short_in_slot(
    timings: Configuration,
    kind: Slot,
    before: Seq<Event>,
    mid: Seq<Event>,
    bits: Seq<bool>,
    n: int,
)
    requires
        0 <= n < bits.len(),
        mid == before + slots(timings, kind, bits.take(n)),
    ensures
        forall|after: Seq<Event>| #[trigger]
            cut_short(mid, after, slot(timings, kind, bits[n])) ==> cut_short(
                before,
                after,
                slots(timings, kind, bits),
            ),
{
    let head = slots(timings, kind, bits.take(n + 1));
    let tail = slots(timings, kind, bits.skip(n + 1));
    lemma_slots_next(timings, kind, bits, n);
    lemma_slots_concat(timings, kind, bits.take(n + 1), bits.skip(n + 1));
    assert(bits.take(n + 1) + bits.skip(n + 1) == bits);
    assert forall|after: Seq<Event>| #[trigger]
        cut_short(mid, after, slot(timings, kind, bits[n])) implies cut_short(
        before,
        after,
        slots(timings, kind, bits),
    ) by {
        lemma_cut_short_in_tail(
            before,
            mid,
            after,
            slots(timings, kind, bits.take(n)),
            slot(timings, kind, bits[n]),
        );
        lemma_cut_short_in_head(before, after, head, tail);
    }
}

/// Wherever the slots of byte `n` are cut short, after the slots of the
/// bytes before it, the slots of all the bytes are cut short.
pub proof fn lemma_cut_short_in_byte(
    timings: Configuration,
    kind: Slot,
    before: Seq<Event>,
    mid: Seq<Event>,
    bytes: Seq<u8>,
    n: int,
)
    requires
        0 <= n < bytes.len(),
        mid == before + slots(timings, kind, bits_of_all(bytes.take(n))),
    ensures
        forall|after: Seq<Event>| #[trigger]
            cut_short(mid, after, slots(timings, kind, bits_of(bytes[n]))) ==> cut_short(
                before,
                after,
                slots(timings, kind, bits_of_all(bytes)),
            ),
{
    let head = slots(timings, kind, bits_of_all(bytes.take(n + 1)));
    let tail = slots(timings, kind, bits_of_all(bytes.skip(n + 1)));
    lemma_slots_next_byte(timings, kind, bytes, n);
    lemma_bits_of_all_concat(bytes.take(n + 1), bytes.skip(n + 1));
    lemma_slots_concat(
        timings,
        kind,
        bits_of_all(bytes.take(n + 1)),
        bits_of_all(bytes.skip(n + 1)),
    );
    assert(bytes.take(n + 1) + bytes.skip(n + 1) == bytes);
    assert forall|after: Seq<Event>| #[trigger]
        cut_short(mid, after, slots(timings, kind, bits_of(bytes[n]))) implies cut_short(
        before,
        after,
        slots(timings, kind, bits_of_all(bytes)),
    ) by {
        lemma_cut_short_in_tail(
            before,
            mid,
            after,
            slots(timings, kind, bits_of_all(bytes.take(n))),
            slots(timings, kind, bits_of(bytes[n])),
        );
        lemma_cut_short_in_head(before, after, head, tail);
    }
}

/// Wherever a read slot is cut short, after the slots that sampled
/// `sampled`, the slots of some `width` bits that begin with `sampled` are
/// cut short.
pub proof fn lemma_cut_short_in_read(
    timings: Configuration,
    before: Seq<Event>,
    mid: Seq<Event>,
    sampled: Seq<bool>,
    width: nat,
)
    requires
        sampled.len() < width,
        mid == before + slots(timings, Slot::Read, sampled),
    ensures
        forall|after: Seq<Event>, sample: bool| #[trigger]
            cut_short(mid, after, read_slot(timings, sample)) ==> exists|bits: Seq<bool>|
                bits.len() == width && cut_short(
                    before,
                    after,
                    #[trigger] slots(timings, Slot::Read, bits),
                ),
{
    assert forall|after: Seq<Event>, sample: bool| #[trigger]
        cut_short(mid, after, read_slot(timings, sample)) implies exists|bits: Seq<bool>|
        bits.len() == width && cut_short(
            before,
            after,
            #[trigger] slots(timings, Slot::Read, bits),
        ) by {
        let n = sampled.len() as int;
        let bits = sampled.push(sample) + Seq::new((width - n - 1) as nat, |i: int| false);
        assert(bits.take(n) == sampled);
        assert(bits[n] == sample);
        lemma_cut_short_in_slot(timings, Slot::Read, before, mid, bits, n);
        assert(cut_short(mid, after, slot(timings, Slot::Read, bits[n])));
    }
}

/// The slots of a run of bits hold `slot_len` events for each bit.
pub proof fn lemma_slots_len(timings: Configuration, kind: Slot, bits: Seq<bool>)
    ensures
        slots(timings, kind, bits).len() == bits.len() * slot_len(kind),
    decreases bits.len(),
{
    if bits.len() > 0 {
        lemma_slots_len(timings, kind, bits.drop_last());
        assert(bits.len() * slot_len(kind) == bits.drop_last().len() * slot_len(kind) + slot_len(
            kind,
        )) by (nonlinear_arith)
            requires
                bits.len() == bits.drop_last().len() + 1,
        ;
    }
}

/// Slot `n` of a run carries bit `n`: the bits cross the bus in their order.
pub proof fn lemma_slot_at(timings: Configuration, kind: Slot, bits: Seq<bool>, n: int)
    requires
        0 <= n < bits.len(),
    ensures
        (n + 1) * slot_len(kind) <= slots(timings, kind, bits).len(),
        slots(timings, kind, bits).subrange(n * slot_len(kind), (n + 1) * slot_len(kind)) == slot(
            timings,
            kind,
            bits[n],
        ),
{
    let width = slot_len(kind) as int;
    let head = slots(timings, kind, bits.take(n));
    let tail = slots(timings, kind, bits.skip(n + 1));
    lemma_slots_next(timings, kind, bits, n);
    lemma_slots_concat(timings, kind, bits.take(n + 1), bits.skip(n + 1));
    assert(bits.take(n + 1) + bits.skip(n + 1) == bits);
    lemma_slots_len(timings, kind, bits.take(n));
    assert((n + 1) * width == n * width + width) by (nonlinear_arith);
    assert(slots(timings, kind, bits) == (head + slot(timings, kind, bits[n])) + tail);
    assert(((head + slot(timings, kind, bits[n])) + tail).subrange(
        head.len() as int,
        head.len() + width,
    ) == slot(timings, kind, bits[n]));
}

/// A byte crosses the bus least significant bit first: slot `n` of its eight
/// carries bit `n`, so the first carries the bit of weight 1 and the last the
/// bit of weight 128.
pub proof fn lemma_byte_order(timings: Configuration, kind: Slot, byte: u8, n: u8)
    requires
        n < 8,
    ensures
        slots(timings, kind, bits_of(byte)).len() == 8 * slot_len(kind),
        slots(timings, kind, bits_of(byte)).subrange(
            n * slot_len(kind),
            (n + 1) * slot_len(kind),
        ) == slot(timings, kind, bit(byte, n)),
        bit(byte, 0) == (byte & 0x01 == 0x01),
        bit(byte, 7) == (byte & 0x80 == 0x80),
{
    lemma_slots_len(timings, kind, bits_of(byte));
    lemma_slot_at(timings, kind, bits_of(byte), n as int);
    assert(((byte >> 0u8) & 1 == 1) == (byte & 0x01 == 0x01)) by (bit_vector);
    assert(((byte >> 7u8) & 1 == 1) == (byte & 0x80 == 0x80)) by (bit_vector);
}

/// The bits of a run of bytes are eight for each byte.
pub proof fn lemma_bits_of_all_len(bytes: Seq<u8>)
    ensures
        bits_of_all(bytes).len() == 8 * bytes.len(),
    decreases bytes.len(),
{
    if bytes.len() > 0 {
        lemma_bits_of_all_len(bytes.drop_last());
    }
}

/// The bits of a run of bytes are eight for each byte, and bit `index` of
/// byte `n` is the one that crosses the bus after `8 * n + index` others.
pub proof fn lemma_bits_of_all_at(bytes: Seq<u8>, n: int, index: u8)
    requires
        0 <= n < bytes.len(),
        index < 8,
    ensures
        bits_of_all(bytes).len() == 8 * bytes.len(),
        bits_of_all(bytes)[8 * n + index] == bit(bytes[n], index),
    decreases bytes.len(),
{
    lemma_bits_of_all_len(bytes);
    lemma_bits_of_all_len(bytes.drop_last());
    if n < bytes.len() - 1 {
        lemma_bits_of_all_at(bytes.drop_last(), n, index);
    }
}

/// A slot lasts as long as its two or three waits: `a + b` to write a 1,
/// `c + d` to write a 0, `a + e + f` to read a bit.
pub proof fn lemma_slot_duration(timings: Configuration, bit: bool)
    ensures
        duration(write_slot(timings, true)) == timings.a + timings.b,
        duration(write_slot(timings, false)) == timings.c + timings.d,
        duration(read_slot(timings, bit)) == timings.a + timings.e + timings.f,
{
    reveal_with_fuel(duration, 7);
    let one = write_slot(timings, true);
    assert(one.drop_last().drop_last().drop_last().drop_last().len() == 0);
    let zero = write_slot(timings, false);
    assert(zero.drop_last().drop_last().drop_last().drop_last().len() == 0);
    let read = read_slot(timings, bit);
    assert(read.drop_last().drop_last().drop_last().drop_last().drop_last().drop_last().len()
        == 0);
}

} // verus!
