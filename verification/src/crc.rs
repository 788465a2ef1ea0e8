//! The two checksums of the timecode profiles: CRC-8 (polynomial `0x07`)
//! over the eight bytes of a timestamp, and CRC-16/CCITT (polynomial
//! `0x1021`, initial value `0xFFFF`) over a byte string.

use vstd::prelude::*;

verus! {

/// One shift of the CRC-8 register.
pub open spec fn crc8_step(crc: u8) -> u8 {
    if crc & 0x80 != 0 {
        (crc << 1) ^ 0x07
    } else {
        crc << 1
    }
}

/// `n` shifts of the CRC-8 register.
pub open spec fn crc8_steps(crc: u8, n: nat) -> u8
    decreases n,
{
    if n == 0 {
        crc
    } else {
        crc8_step(crc8_steps(crc, (n - 1) as nat))
    }
}

/// Byte `i` of a 64-bit value, byte 0 being the least significant.
pub open spec fn byte_of(data: u64, i: u64) -> u8 {
    ((data >> ((i * 8) as u64)) & 0xFF) as u8
}

/// The CRC-8 register after the `n` low bytes of `data`, least significant
/// byte first, starting from zero.
pub open spec fn crc8_prefix(data: u64, n: nat) -> u8
    decreases n,
{
    if n == 0 {
        0
    } else {
        crc8_steps(crc8_prefix(data, (n - 1) as nat) ^ byte_of(data, (n - 1) as u64), 8)
    }
}

/// The CRC-8 of a 64-bit value.
pub open spec fn crc8_spec(data: u64) -> u8 {
    crc8_prefix(data, 8)
}

/// One shift of the CRC-16 register.
pub open spec fn crc16_step(crc: u16) -> u16 {
    if crc & 0x8000 != 0 {
        (crc << 1) ^ 0x1021
    } else {
        crc << 1
    }
}

/// `n` shifts of the CRC-16 register.
pub open spec fn crc16_steps(crc: u16, n: nat) -> u16
    decreases n,
{
    if n == 0 {
        crc
    } else {
        crc16_step(crc16_steps(crc, (n - 1) as nat))
    }
}

/// The CRC-16 register after one more byte.
pub open spec fn crc16_absorb(crc: u16, byte: u8) -> u16 {
    crc16_steps(crc ^ ((byte as u16) << 8), 8)
}

/// The CRC-16 register after a byte string, starting from `crc`.
pub open spec fn crc16_from(crc: u16, data: Seq<u8>) -> u16
    decreases data.len(),
{
    if data.len() == 0 {
        crc
    } else {
        crc16_absorb(crc16_from(crc, data.drop_last()), data.last())
    }
}

/// The CRC-16/CCITT of a byte string.
pub open spec fn crc16_spec(data: Seq<u8>) -> u16 {
    crc16_from(0xFFFF, data)
}

/// Computes the CRC-8 of the eight bytes of `data`, least significant first.
pub fn crc8(data: u64) -> (crc: u8)
    ensures
        crc == crc8_spec(data),
{
    let mut crc: u8 = 0;
    let mut i: u64 = 0;
    while i < 8
        invariant
            i <= 8,
            crc == crc8_prefix(data, i as nat),
        decreases 8 - i,
    {
        let byte = ((data >> (i * 8)) & 0xFF) as u8;
        crc ^= byte;
        let ghost start = crc;
        let mut j: u8 = 0;
        while j < 8
            invariant
                j <= 8,
                crc == crc8_steps(start, j as nat),
            decreases 8 - j,
        {
            if crc & 0x80 != 0 {
                crc = (crc << 1) ^ 0x07;
            } else {
                crc <<= 1;
            }
            j += 1;
        }
        i += 1;
    }
    crc
}

/// Computes the CRC-16/CCITT of `data`.
pub fn crc16(data: &[u8]) -> (crc: u16)
    ensures
        crc == crc16_spec(data@),
{
    let mut crc: u16 = 0xFFFF;
    let mut i: usize = 0;
    while i < data.len()
        invariant
            i <= data.len(),
            crc == crc16_from(0xFFFF, data@.take(i as int)),
        decreases data.len() - i,
    {
        let byte = data[i];
        crc ^= (byte as u16) << 8;
        let ghost start = crc;
        let mut j: u8 = 0;
        while j < 8
            invariant
                j <= 8,
                crc == crc16_steps(start, j as nat),
            decreases 8 - j,
        {
            if crc & 0x8000 != 0 {
                crc = (crc << 1) ^ 0x1021;
            } else {
                crc <<= 1;
            }
            j += 1;
        }
        proof {
            assert(data@.take(i + 1).drop_last() =~= data@.take(i as int));
        }
        i += 1;
    }
    proof {
        assert(data@.take(data.len() as int) =~= data@);
    }
    crc
}

/// Distinct registers stay distinct under one shift.
pub proof fn lemma_crc16_step_injective(a: u16, b: u16)
    requires
        a != b,
    ensures
        crc16_step(a) != crc16_step(b),
{
    assert(a != b ==> crc16_step(a) != crc16_step(b)) by (bit_vector);
}

/// Distinct registers stay distinct under any number of shifts.
pub proof fn lemma_crc16_steps_injective(a: u16, b: u16, n: nat)
    requires
        a != b,
    ensures
        crc16_steps(a, n) != crc16_steps(b, n),
    decreases n,
{
    if n > 0 {
        lemma_crc16_steps_injective(a, b, (n - 1) as nat);
        lemma_crc16_step_injective(crc16_steps(a, (n - 1) as nat), crc16_steps(b, (n - 1) as nat));
    }
}

/// Absorbing a byte keeps distinct registers distinct, and sends one
/// register to distinct registers for distinct bytes.
pub proof fn lemma_crc16_absorb_injective(a: u16, x: u8, b: u16, y: u8)
    requires
        (a != b && x == y) || (a == b && x != y),
    ensures
        crc16_absorb(a, x) != crc16_absorb(b, y),
{
    assert(((a != b && x == y) || (a == b && x != y)) ==> (a ^ ((x as u16) << 8)) != (b ^ ((y as u16)
        << 8))) by (bit_vector);
    lemma_crc16_steps_injective(a ^ ((x as u16) << 8), b ^ ((y as u16) << 8), 8);
}

/// Two byte strings of one length that differ in exactly one byte have
/// different CRC-16 registers, whatever the starting register.
pub proof fn lemma_crc16_detects_byte_change(crc: u16, a: Seq<u8>, b: Seq<u8>, j: int)
    requires
        a.len() == b.len(),
        0 <= j < a.len(),
        a[j] != b[j],
        forall|i: int| 0 <= i < a.len() && i != j ==> a[i] == b[i],
    ensures
        crc16_from(crc, a) != crc16_from(crc, b),
    decreases a.len(),
{
    if j == a.len() - 1 {
        assert(a.drop_last() =~= b.drop_last());
        lemma_crc16_absorb_injective(
            crc16_from(crc, a.drop_last()),
            a.last(),
            crc16_from(crc, b.drop_last()),
            b.last(),
        );
    } else {
        lemma_crc16_detects_byte_change(crc, a.drop_last(), b.drop_last(), j);
        lemma_crc16_absorb_injective(
            crc16_from(crc, a.drop_last()),
            a.last(),
            crc16_from(crc, b.drop_last()),
            b.last(),
        );
    }
}

} // verus!
