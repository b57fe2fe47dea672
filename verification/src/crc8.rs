//! CRC-8 with polynomial `X^8 + X^5 + X^4 + X^0`, processed least-significant
//! bit first from a zero seed.
//!
//! A sender appends the checksum of a payload to the payload. The checksum of
//! the extended buffer is then zero, so a receiver validates payload and
//! checksum in one pass over one buffer.

use crate::error::CrcError;
use vstd::prelude::*;
use vstd::slice::slice_subrange;

verus! {

/// The feedback constant: the polynomial's low terms in reflected bit order.
pub const FEEDBACK: u8 = 0x8C;

/// One right shift of the register, folding the feedback constant in when the
/// bit shifted out was set.
pub open spec fn shift(reg: u8) -> u8 {
    if reg & 0x01 != 0 {
        (reg >> 1) ^ FEEDBACK
    } else {
        reg >> 1
    }
}

/// `n` successive shifts of the register.
pub open spec fn shifts(reg: u8, n: nat) -> u8
    decreases n,
{
    if n == 0 {
        reg
    } else {
        shift(shifts(reg, (n - 1) as nat))
    }
}

/// The register after one input byte: the byte is XORed in, then the register
/// is shifted eight times.
pub open spec fn absorb(crc: u8, byte: u8) -> u8 {
    shifts(crc ^ byte, 8)
}

/// The register after all of `data`, starting from `seed`.
pub open spec fn fold(seed: u8, data: Seq<u8>) -> u8
    decreases data.len(),
{
    if data.len() == 0 {
        seed
    } else {
        absorb(fold(seed, data.drop_last()), data.last())
    }
}

/// The checksum of `data`: the fold from a zero seed.
pub open spec fn checksum(data: Seq<u8>) -> u8 {
    fold(0, data)
}

/// Calculates the crc8 of the input data.
pub fn calculate(data: &[u8]) -> (crc: u8)
    ensures
        crc == checksum(data@),
{
    append(0, data)
}

/// Continues a checksum: folds `data` into a register that holds `crc`.
pub fn append(crc: u8, data: &[u8]) -> (out: u8)
    ensures
        out == fold(crc, data@),
{
    let mut reg: u8 = crc;
    let mut i: usize = 0;
    while i < data.len()
        invariant
            i <= data.len(),
            reg == fold(crc, data@.take(i as int)),
        decreases data.len() - i,
    {
        let ghost before = reg;
        reg ^= data[i];
        let mut n: u32 = 0;
        while n < u8::BITS
            invariant
                n <= 8,
                reg == shifts(before ^ data@[i as int], n as nat),
            decreases 8 - n,
        {
            let bit: u8 = reg & 0x01;
            reg >>= 1;
            if bit != 0 {
                reg ^= FEEDBACK;
            }
            n += 1;
        }
        proof {
            let next = data@.take(i + 1);
            assert(next.drop_last() == data@.take(i as int));
            assert(next.last() == data@[i as int]);
        }
        i += 1;
    }
    proof {
        assert(data@.take(data.len() as int) == data@);
    }
    reg
}

/// Checks the crc of `data`, whose last byte is the checksum that the sender
/// appended to the bytes before it.
///
/// Succeeds if and only if the whole buffer folds to zero, and otherwise
/// reports the value it folded to. An empty buffer is sound.
pub fn check(data: &[u8]) -> (outcome: Result<(), CrcError>)
    ensures
        outcome is Ok <==> checksum(data@) == 0,
        outcome matches Err(error) ==> error.crc == checksum(data@) && error.crc != 0,
{
    let crc: u8 = calculate(data);
    if crc == 0 {
        Ok(())
    } else {
        Err(CrcError { crc })
    }
}

/// Checks the last byte of `data` against the checksum of the bytes before
/// it.
///
/// Succeeds if and only if the two are equal, or `data` is empty, and
/// otherwise reports the checksum of the bytes before the last.
pub fn _check(data: &[u8]) -> (outcome: Result<(), u8>)
    ensures
        outcome is Ok <==> data@.len() == 0 || checksum(data@.drop_last()) == data@.last(),
        outcome matches Err(crc) ==> crc == checksum(data@.drop_last()),
{
    if data.len() == 0 {
        return Ok(());
    }
    let index: usize = data.len() - 1;
    let crc: u8 = calculate(slice_subrange(data, 0, index));
    proof {
        assert(data@.subrange(0, index as int) == data@.drop_last());
    }
    if crc == data[index] {
        Ok(())
    } else {
        Err(crc)
    }
}

/// Eight shifts written out, for the bit-vector solver.
spec fn shifts8(reg: u8) -> u8 {
    shift(shift(shift(shift(shift(shift(shift(shift(reg))))))))
}

proof fn lemma_shifts8(reg: u8)
    ensures
        shifts(reg, 8) == shifts8(reg),
{
    reveal_with_fuel(shifts, 9);
}

proof fn lemma_shifts8_zero(reg: u8)
    ensures
        shifts8(reg) == 0 <==> reg == 0,
{
    assert(shifts8(reg) == 0 <==> reg == 0) by (bit_vector);
}

/// A byte absorbed into a register folds it to zero if and only if the byte
/// equals the register.
pub proof fn lemma_absorb_zero(crc: u8, byte: u8)
    ensures
        absorb(crc, byte) == 0 <==> crc == byte,
{
    lemma_shifts8(crc ^ byte);
    lemma_shifts8_zero(crc ^ byte);
    assert((crc ^ byte) == 0 <==> crc == byte) by (bit_vector);
}

/// Folding is incremental: the register after `head` continues over `tail`
/// to the register after both.
pub proof fn lemma_fold_concat(seed: u8, head: Seq<u8>, tail: Seq<u8>)
    ensures
        fold(seed, head + tail) == fold(fold(seed, head), tail),
    decreases tail.len(),
{
    if tail.len() == 0 {
        assert(head + tail == head);
    } else {
        assert((head + tail).drop_last() == head + tail.drop_last());
        assert((head + tail).last() == tail.last());
        lemma_fold_concat(seed, head, tail.drop_last());
    }
}

/// A buffer folds to zero if and only if its last byte is the checksum of
/// the bytes before it: `check` and `_check` accept the same buffers.
pub proof fn lemma_trailing_byte_decides(data: Seq<u8>)
    requires
        data.len() > 0,
    ensures
        checksum(data) == 0 <==> data.last() == checksum(data.drop_last()),
{
    lemma_absorb_zero(checksum(data.drop_last()), data.last());
}

/// A payload followed by its own checksum folds to zero, so `check` accepts
/// it.
pub proof fn lemma_self_verifying(payload: Seq<u8>)
    ensures
        checksum(payload.push(checksum(payload))) == 0,
{
    let sealed = payload.push(checksum(payload));
    assert(sealed.drop_last() == payload);
    lemma_absorb_zero(checksum(payload), checksum(payload));
}

/// A payload followed by any byte but its checksum folds to a value other
/// than zero, which is what `check` reports.
pub proof fn lemma_mismatch_detected(payload: Seq<u8>, trailing: u8)
    requires
        trailing != checksum(payload),
    ensures
        checksum(payload.push(trailing)) != 0,
        checksum(payload.push(trailing)) == absorb(checksum(payload), trailing),
{
    let sealed = payload.push(trailing);
    assert(sealed.drop_last() == payload);
    lemma_absorb_zero(checksum(payload), trailing);
}

} // verus!
