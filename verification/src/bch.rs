//! The BCH(7,4) code that protects each nibble of a timestamp: four data
//! bits in positions 6..3 of a codeword, three parity bits in positions 2..0.

use vstd::prelude::*;

verus! {

/// The three parity bits of a nibble: `p0 = d0^d1^d3`, `p1 = d0^d2^d3`,
/// `p2 = d1^d2^d3`, with `p0` in bit 0.
pub open spec fn bch_parity(data: u8) -> u8 {
    let d = data & 0xF;
    let p0 = (d ^ (d >> 1) ^ (d >> 3)) & 1;
    let p1 = (d ^ (d >> 2) ^ (d >> 3)) & 1;
    let p2 = ((d >> 1) ^ (d >> 2) ^ (d >> 3)) & 1;
    (p2 << 2) | (p1 << 1) | p0
}

/// The systematic codeword of a nibble: `(data << 3) | parity`.
pub open spec fn bch_codeword(data: u8) -> u8 {
    ((data & 0xF) << 3) | bch_parity(data)
}

/// The four data bits that a received codeword carries, read naively.
pub open spec fn bch_data_bits(code: u8) -> u8 {
    (code >> 3) & 0xF
}

/// Received parity against the parity that the received data bits call for.
pub open spec fn bch_syndrome(code: u8) -> u8 {
    (code & 0x7) ^ bch_parity(bch_data_bits(code))
}

/// The bit of the codeword that a syndrome accuses; zero accuses none.
/// Each data bit takes part in its own set of parity bits, so the seven
/// nonzero syndromes name the seven positions one for one.
pub open spec fn bch_error_mask(syndrome: u8) -> u8 {
    if syndrome == 0b001 {
        0b000_0001
    } else if syndrome == 0b010 {
        0b000_0010
    } else if syndrome == 0b100 {
        0b000_0100
    } else if syndrome == 0b011 {
        0b000_1000
    } else if syndrome == 0b101 {
        0b001_0000
    } else if syndrome == 0b110 {
        0b010_0000
    } else if syndrome == 0b111 {
        0b100_0000
    } else {
        0
    }
}

/// The nibble that a received codeword decodes to, after flipping the bit
/// that its syndrome accuses.
pub open spec fn bch_decode(code: u8) -> u8 {
    bch_data_bits(code ^ bch_error_mask(bch_syndrome(code)))
}

/// Encodes the low four bits of `data` into a 7-bit codeword.
pub fn compute_bch_7_4_code(data: u8) -> (code: u8)
    ensures
        code == bch_codeword(data),
        code < 128,
{
    let d = data & 0xF;
    let p0 = (d ^ (d >> 1) ^ (d >> 3)) & 1;
    let p1 = (d ^ (d >> 2) ^ (d >> 3)) & 1;
    let p2 = ((d >> 1) ^ (d >> 2) ^ (d >> 3)) & 1;
    let code = (d << 3) | ((p2 << 2) | (p1 << 1) | p0);
    proof {
        lemma_codeword_shape(data);
    }
    code
}

/// Maps a syndrome to the bit it accuses.
pub fn error_mask(syndrome: u8) -> (mask: u8)
    ensures
        mask == bch_error_mask(syndrome),
{
    match syndrome {
        0b001 => 0b000_0001,
        0b010 => 0b000_0010,
        0b100 => 0b000_0100,
        0b011 => 0b000_1000,
        0b101 => 0b001_0000,
        0b110 => 0b010_0000,
        0b111 => 0b100_0000,
        _ => 0,
    }
}

/// Decodes a received codeword, correcting a single flipped bit.
pub fn decode_bch_7_4(code: u8) -> (data: u8)
    ensures
        data == bch_decode(code),
        data < 16,
{
    let data = (code >> 3) & 0xF;
    let received_parity = code & 0x7;
    let expected = compute_bch_7_4_code(data);
    let expected_parity = expected & 0x7;
    let syndrome = received_parity ^ expected_parity;
    let mask = error_mask(syndrome);
    let corrected = code ^ mask;
    let nibble = (corrected >> 3) & 0xF;
    proof {
        lemma_codeword_shape(data);
        assert(((corrected >> 3) & 0xF) < 16) by (bit_vector);
    }
    nibble
}

/// A codeword fits in seven bits, carries its nibble in the data bits and
/// its parity in the low three.
pub proof fn lemma_codeword_shape(data: u8)
    ensures
        bch_codeword(data) < 128,
        bch_data_bits(bch_codeword(data)) == data & 0xF,
        bch_codeword(data) & 0x7 == bch_parity(data),
        bch_parity(data) == bch_parity(data & 0xF),
{
    assert(bch_codeword(data) < 128 && bch_data_bits(bch_codeword(data)) == data & 0xF
        && bch_codeword(data) & 0x7 == bch_parity(data) && bch_parity(data) == bch_parity(
        data & 0xF,
    )) by (bit_vector);
}

/// An undamaged codeword has syndrome zero and decodes to its nibble.
pub proof fn lemma_bch_round_trip(data: u8)
    requires
        data < 16,
    ensures
        bch_syndrome(bch_codeword(data)) == 0,
        bch_decode(bch_codeword(data)) == data,
        bch_data_bits(bch_codeword(data)) == data,
{
    assert(data < 16 ==> bch_syndrome(bch_codeword(data)) == 0 && bch_decode(bch_codeword(data))
        == data && bch_data_bits(bch_codeword(data)) == data) by (bit_vector);
}

/// A codeword with any one of its seven bits flipped still decodes to its
/// nibble.
pub proof fn lemma_bch_corrects_single_flip(data: u8, bit: u8)
    requires
        data < 16,
        bit < 7,
    ensures
        bch_decode(bch_codeword(data) ^ (1u8 << bit)) == data,
{
    assert(data < 16 && bit < 7 ==> bch_decode(bch_codeword(data) ^ (1u8 << bit)) == data)
        by (bit_vector);
}

/// A flipped data bit shows in the naive reading; a flipped parity bit
/// does not.
pub proof fn lemma_flip_changes_data_bits(data: u8, bit: u8)
    requires
        data < 16,
        bit < 7,
    ensures
        (bch_data_bits(bch_codeword(data) ^ (1u8 << bit)) != data) == (bit >= 3),
        bch_codeword(data) ^ (1u8 << bit) < 128,
{
    assert(data < 16 && bit < 7 ==> ((bch_data_bits(bch_codeword(data) ^ (1u8 << bit)) != data)
        == (bit >= 3)) && (bch_codeword(data) ^ (1u8 << bit)) < 128) by (bit_vector);
}

/// The sixteen codewords, looked up by nibble.
#[derive(Clone, Copy, Debug)]
pub struct BchTable {
    pub codes: [u8; 16],
}

impl BchTable {
    /// Entry `i` is the codeword of nibble `i`.
    pub open spec fn wf(&self) -> bool {
        forall|i: int| 0 <= i < 16 ==> #[trigger] self.codes@[i] == bch_codeword(i as u8)
    }

    /// Builds the table.
    pub fn new() -> (table: Self)
        ensures
            table.wf(),
    {
        let mut codes: [u8; 16] = [0u8; 16];
        let mut i: u8 = 0;
        while i < 16
            invariant
                i <= 16,
                forall|j: int| 0 <= j < i ==> #[trigger] codes@[j] == bch_codeword(j as u8),
            decreases 16 - i,
        {
            codes[i as usize] = compute_bch_7_4_code(i);
            i += 1;
        }
        BchTable { codes }
    }

    /// Says whether the table holds the codewords.
    pub fn is_well_formed(&self) -> (ok: bool)
        ensures
            ok == self.wf(),
    {
        let mut i: u8 = 0;
        while i < 16
            invariant
                i <= 16,
                forall|j: int| 0 <= j < i ==> #[trigger] self.codes@[j] == bch_codeword(j as u8),
            decreases 16 - i,
        {
            if self.codes[i as usize] != compute_bch_7_4_code(i) {
                return false;
            }
            i += 1;
        }
        true
    }

    /// The codeword of a nibble.
    pub fn lookup(&self, nibble: u8) -> (code: u8)
        requires
            self.wf(),
            nibble < 16,
        ensures
            code == bch_codeword(nibble),
            code < 128,
    {
        proof {
            lemma_codeword_shape(nibble);
        }
        self.codes[nibble as usize]
    }
}

} // verus!
