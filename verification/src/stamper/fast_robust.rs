//! The fast robust profile: sixteen nibbles, each in a BCH(7,4) codeword
//! that survives one flipped bit, and a CRC-8 over the timestamp; 120 bits
//! in a grid of cells sized to the region.

use crate::bch::{bch_codeword, bch_data_bits, bch_decode, decode_bch_7_4, BchTable};
use crate::bits::{bit_at, msb_bit, pack_byte, pack_msb};
use crate::crc::{crc8, crc8_spec};
use crate::frame::{CodecError, Frame, FrameView};
use crate::geometry::CellGrid;
use crate::raster::{fill_block, fill_block_spec, rect_mean, sample_rect};
use crate::stamper::traits::{
    ReaderConfig, StamperConfig, StamperType, TimestampReader, TimestampStamper,
};
use vstd::prelude::*;

verus! {

/// Bits of a payload.
pub const PAYLOAD_BITS: u64 = 120;

/// Bits of a payload that belong to codewords.
pub const CODE_BITS: u64 = 112;

/// The confidence of one bit is counted in 128ths; this is the sum of
/// 120 bits that are all certain.
pub const FULL_CONFIDENCE: u32 = 15360;

/// An encoded timestamp: sixteen BCH(7,4) codewords, most significant
/// nibble first, and the CRC-8 of the timestamp.
#[derive(Clone, Copy, Debug)]
pub struct EncodedTimestamp64 {
    pub bch_codes: [u8; 16],
    pub crc8: u8,
}

/// The mathematical content of an encoded timestamp.
pub struct EncodedView {
    pub codes: Seq<u8>,
    pub crc8: u8,
}

impl View for EncodedTimestamp64 {
    type V = EncodedView;

    open spec fn view(&self) -> EncodedView {
        EncodedView { codes: self.bch_codes@, crc8: self.crc8 }
    }
}

/// Nibble `i` of a timestamp, nibble 0 being the most significant.
pub open spec fn nibble_of(t: u64, i: int) -> u8 {
    ((t >> (((15 - i) * 4) as u64)) & 0xF) as u8
}

/// The sixteen nibbles of a timestamp.
pub open spec fn nibbles_of(t: u64) -> Seq<u8> {
    Seq::new(16, |i: int| nibble_of(t, i))
}

/// The encoding of a timestamp.
pub open spec fn encoded_spec(t: u64) -> EncodedView {
    EncodedView { codes: Seq::new(16, |i: int| bch_codeword(nibble_of(t, i))), crc8: crc8_spec(t) }
}

/// The 120 bits that carry an encoded timestamp: each codeword from bit 6
/// down to bit 0, then the CRC-8 from bit 7 down to bit 0.
pub open spec fn payload_of(e: EncodedView) -> Seq<bool> {
    Seq::new(
        120,
        |k: int|
            if k < 112 {
                msb_bit(e.codes[k / 7], 7, (k % 7) as u8)
            } else {
                msb_bit(e.crc8, 8, (k - 112) as u8)
            },
    )
}

/// The encoded timestamp that 120 bits spell.
pub open spec fn received(bits: Seq<bool>) -> EncodedView {
    EncodedView {
        codes: Seq::new(16, |c: int| pack_msb(bits, 7 * c, 7) as u8),
        crc8: pack_msb(bits, 112, 8) as u8,
    }
}

/// The number that the first `n` nibbles spell, most significant first.
pub open spec fn assemble(nibbles: Seq<u8>, n: nat) -> u64
    decreases n,
{
    if n == 0 {
        0
    } else {
        (assemble(nibbles, (n - 1) as nat) << 4) | (nibbles[n - 1] as u64)
    }
}

/// The nibbles that sixteen received codewords decode to.
pub open spec fn corrected_nibbles(codes: Seq<u8>) -> Seq<u8> {
    Seq::new(16, |i: int| bch_decode(codes[i]))
}

/// How many of the first `n` codewords decode to another nibble than
/// their data bits show.
pub open spec fn corrected_count(codes: Seq<u8>, n: nat) -> nat
    decreases n,
{
    if n == 0 {
        0
    } else {
        corrected_count(codes, (n - 1) as nat) + if bch_data_bits(codes[n - 1]) != bch_decode(
            codes[n - 1],
        ) {
            1nat
        } else {
            0nat
        }
    }
}

/// The timestamp that sixteen received codewords decode to.
pub open spec fn corrected_timestamp(codes: Seq<u8>) -> u64 {
    assemble(corrected_nibbles(codes), 16)
}

/// Whether a decoded timestamp is accepted: always when the checksum
/// matches; never after more than four corrections; else only after at
/// most two corrections and with a mean confidence above 0.7.
pub open spec fn accepts(crc_matches: bool, corrected: nat, confidence_sum: int) -> bool {
    if crc_matches {
        true
    } else if corrected > 4 {
        false
    } else if corrected <= 2 && 10 * confidence_sum > 7 * FULL_CONFIDENCE {
        true
    } else {
        false
    }
}

/// Whether the mean confidence of a frame is below the least that a
/// reader asks for, given in percent.
pub open spec fn below_confidence(confidence_sum: int, min_percent: int) -> bool {
    100 * confidence_sum < min_percent * FULL_CONFIDENCE
}

/// What a received payload decodes to: nothing below the reader's least
/// confidence, else the corrected timestamp if it is accepted.
pub open spec fn decode_payload_spec(e: EncodedView, confidence_sum: int, min_percent: int)
    -> Option<u64> {
    if below_confidence(confidence_sum, min_percent) {
        None
    } else {
        let t = corrected_timestamp(e.codes);
        if accepts(crc8_spec(t) == e.crc8, corrected_count(e.codes, 16), confidence_sum) {
            Some(t)
        } else {
            None
        }
    }
}

impl EncodedTimestamp64 {
    /// Bit `k` of the payload.
    pub fn payload_bit(&self, k: u64) -> (b: bool)
        requires
            k < PAYLOAD_BITS,
        ensures
            b == payload_of(self@)[k as int],
    {
        if k < CODE_BITS {
            bit_at(self.bch_codes[(k / 7) as usize], 7, (k % 7) as u8)
        } else {
            bit_at(self.crc8, 8, (k - CODE_BITS) as u8)
        }
    }

    /// Spells 120 bits into codewords and checksum.
    pub fn from_bits(bits: &Vec<bool>) -> (e: Self)
        requires
            bits.len() == PAYLOAD_BITS,
        ensures
            e@ == received(bits@),
    {
        let mut codes: [u8; 16] = [0u8; 16];
        let mut c: usize = 0;
        while c < 16
            invariant
                c <= 16,
                bits.len() == PAYLOAD_BITS,
                forall|j: int| 0 <= j < c ==> #[trigger] codes@[j] == pack_msb(bits@, 7 * j, 7) as u8,
            decreases 16 - c,
        {
            codes[c] = pack_byte(bits, 7 * c, 7);
            c += 1;
        }
        let crc = pack_byte(bits, 112, 8);
        let e = EncodedTimestamp64 { bch_codes: codes, crc8: crc };
        proof {
            assert(e@.codes =~= received(bits@).codes);
        }
        e
    }

    /// Decodes the sixteen codewords: the corrected timestamp, and how
    /// many codewords decoded to another nibble than their data bits show.
    pub fn correct_codewords(&self) -> (r: (u64, u32))
        ensures
            r.0 == corrected_timestamp(self@.codes),
            r.1 == corrected_count(self@.codes, 16),
    {
        let mut timestamp: u64 = 0;
        let mut corrected: u32 = 0;
        let mut i: usize = 0;
        while i < 16
            invariant
                i <= 16,
                timestamp == assemble(corrected_nibbles(self@.codes), i as nat),
                corrected == corrected_count(self@.codes, i as nat),
                corrected <= i,
            decreases 16 - i,
        {
            let code = self.bch_codes[i];
            let original_nibble = (code >> 3) & 0xF;
            let corrected_nibble = decode_bch_7_4(code);
            if original_nibble != corrected_nibble {
                corrected += 1;
            }
            timestamp = (timestamp << 4) | (corrected_nibble as u64);
            i += 1;
        }
        (timestamp, corrected)
    }
}

/// Decides whether a decoded timestamp is accepted.
pub fn accept(crc_matches: bool, corrected: u32, confidence_sum: u32) -> (ok: bool)
    ensures
        ok == accepts(crc_matches, corrected as nat, confidence_sum as int),
{
    if crc_matches {
        return true;
    }
    if corrected > 4 {
        return false;
    }
    if corrected <= 2 && 10 * (confidence_sum as u64) > 7 * (FULL_CONFIDENCE as u64) {
        return true;
    }
    false
}

/// The gray level of a cell that carries a one.
pub const ROBUST_WHITE: u8 = 235;

/// The gray level of a cell that carries a zero.
pub const ROBUST_BLACK: u8 = 20;

/// The gray level that a bit is stamped with.
pub open spec fn gray_of(bit: bool) -> u8 {
    if bit {
        ROBUST_WHITE
    } else {
        ROBUST_BLACK
    }
}

/// A plane after the blocks of the first `n` cells of a grid were filled,
/// cell 0 first, each with the gray level of its bit.
pub open spec fn stamp_cells(data: Seq<u8>, stride: int, grid: CellGrid, bits: Seq<bool>, n: nat)
    -> Seq<u8>
    decreases n,
{
    if n == 0 {
        data
    } else {
        fill_block_spec(
            stamp_cells(data, stride, grid, bits, (n - 1) as nat),
            stride,
            grid.origin_x(n - 1),
            grid.origin_y(n - 1),
            grid.cell as int,
            grid.cell as nat,
            gray_of(bits[n - 1]),
        )
    }
}

/// The mean of the samples taken at the center of cell `i`: two by two
/// pixels for blocks of side 4 and more, one pixel for sides 2 and 3,
/// none for side 1.
pub open spec fn cell_mean(data: Seq<u8>, stride: int, grid: CellGrid, i: int) -> Option<int> {
    let half = grid.cell as int / 2;
    let k = if half < 2 {
        half
    } else {
        2
    };
    rect_mean(data, stride, grid.origin_x(i) + half, grid.origin_y(i) + half, k as nat, k as nat)
}

/// The bit that a mean shows: one when it lies above the threshold.
pub open spec fn mean_bit(mean: Option<int>, threshold: int) -> bool {
    match mean {
        Some(avg) => avg > threshold,
        None => false,
    }
}

/// The confidence of a bit, in 128ths: the distance of the mean from the
/// threshold, at most 128; zero without a sample.
pub open spec fn mean_confidence(mean: Option<int>, threshold: int) -> int {
    match mean {
        Some(avg) => {
            let d = if avg >= threshold {
                avg - threshold
            } else {
                threshold - avg
            };
            if d < 128 {
                d
            } else {
                128
            }
        },
        None => 0,
    }
}

/// The 120 bits that the cells of a grid show.
pub open spec fn read_bits(data: Seq<u8>, stride: int, grid: CellGrid, threshold: int) -> Seq<
    bool,
> {
    Seq::new(120, |i: int| mean_bit(cell_mean(data, stride, grid, i), threshold))
}

/// The sum of the confidences of the first `n` cells.
pub open spec fn confidence_sum(
    data: Seq<u8>,
    stride: int,
    grid: CellGrid,
    threshold: int,
    n: nat,
) -> int
    decreases n,
{
    if n == 0 {
        0
    } else {
        confidence_sum(data, stride, grid, threshold, (n - 1) as nat) + mean_confidence(
            cell_mean(data, stride, grid, n - 1),
            threshold,
        )
    }
}

/// The stamper of the fast robust profile.
#[derive(Clone, Copy, Debug)]
pub struct FastRobustStamper {
    /// Side of the block of pixels that carries one bit.
    pub block_size: u8,
    pub use_2d_redundancy: bool,
    /// Pixels left untouched between blocks.
    pub guard_pixels: u8,
    /// The codewords, built once with the stamper.
    pub table: BchTable,
}

impl Default for FastRobustStamper {
    fn default() -> (r: Self)
        ensures
            r.block_size == 4,
            r.use_2d_redundancy,
            r.guard_pixels == 0,
            r.well_formed(),
    {
        Self { block_size: 4, use_2d_redundancy: true, guard_pixels: 0, table: BchTable::new() }
    }
}

impl FastRobustStamper {
    /// The cells have an extent and the table holds the codewords.
    pub open spec fn well_formed(&self) -> bool {
        &&& self.block_size + self.guard_pixels > 0
        &&& self.table.wf()
    }

    /// Says whether the stamper's parameters are usable.
    pub fn is_well_formed(&self) -> (ok: bool)
        ensures
            ok == self.well_formed(),
    {
        (self.block_size > 0 || self.guard_pixels > 0) && self.table.is_well_formed()
    }

    /// The grid that the stamper lays over a region.
    pub open spec fn grid(&self, config: StamperConfig) -> CellGrid {
        CellGrid::of_region(
            config.x,
            config.y,
            config.width,
            config.height,
            self.block_size,
            self.guard_pixels,
        )
    }

    /// How many bits of a payload the stamper writes: all 120, or as many
    /// as the grid holds.
    pub open spec fn bits_written(&self, config: StamperConfig) -> nat {
        if self.grid(config).max_bits() < 120 {
            self.grid(config).max_bits() as nat
        } else {
            120
        }
    }

    /// The frame after an encoded timestamp was stamped into its first
    /// plane.
    pub open spec fn stamp_pixels_spec(&self, frame: FrameView, e: EncodedView, config: StamperConfig)
        -> FrameView {
        frame.with_plane_data(
            0,
            stamp_cells(
                frame.planes[0].data,
                frame.planes[0].stride,
                self.grid(config),
                payload_of(e),
                self.bits_written(config),
            ),
        )
    }

    /// Encodes a timestamp: a codeword for each nibble, and the CRC-8.
    pub fn encode_timestamp_fast(&self, timestamp_usecs: u64) -> (e: EncodedTimestamp64)
        requires
            self.well_formed(),
        ensures
            e@ == encoded_spec(timestamp_usecs),
    {
        let mut bch_codes: [u8; 16] = [0u8; 16];
        let mut i: usize = 0;
        while i < 16
            invariant
                i <= 16,
                self.table.wf(),
                forall|j: int|
                    0 <= j < i ==> #[trigger] bch_codes@[j] == bch_codeword(
                        nibble_of(timestamp_usecs, j),
                    ),
            decreases 16 - i,
        {
            let shift: u64 = ((15 - i) * 4) as u64;
            let nibble = ((timestamp_usecs >> shift) & 0xF) as u8;
            proof {
                let t = timestamp_usecs;
                assert((((t >> shift) & 0xF) as u8) < 16) by (bit_vector);
            }
            bch_codes[i] = self.table.lookup(nibble);
            i += 1;
        }
        let crc8 = self.calculate_crc8(timestamp_usecs);
        let e = EncodedTimestamp64 { bch_codes, crc8 };
        proof {
            assert(e@.codes =~= encoded_spec(timestamp_usecs).codes);
        }
        e
    }

    /// The CRC-8 of a timestamp.
    pub fn calculate_crc8(&self, data: u64) -> (crc: u8)
        ensures
            crc == crc8_spec(data),
    {
        crc8(data)
    }

    /// Stamps an encoded timestamp into the first plane of a frame, one
    /// block per bit, and stops where the grid is full.
    pub fn stamp_pixels_fast(
        &self,
        frame: &mut Frame,
        encoded: &EncodedTimestamp64,
        config: &StamperConfig,
    ) -> (r: Result<(), CodecError>)
        requires
            self.well_formed(),
            old(frame)@.wf(),
        ensures
            r == Ok::<(), CodecError>(()),
            final(frame)@ == self.stamp_pixels_spec(old(frame)@, encoded@, *config),
    {
        let grid = CellGrid::for_region(
            config.x,
            config.y,
            config.width,
            config.height,
            self.block_size,
            self.guard_pixels,
        );
        let max_bits = grid.capacity();
        let stride = frame.planes[0].stride;
        let mut k: u64 = 0;
        while k < PAYLOAD_BITS && k < max_bits
            invariant
                k <= PAYLOAD_BITS,
                k <= max_bits,
                max_bits == grid.max_bits(),
                grid.wf(),
                grid == self.grid(*config),
                stride == old(frame)@.planes[0].stride,
                frame.format == old(frame).format,
                frame.flags == old(frame).flags,
                frame.bits == old(frame).bits,
                frame.components == old(frame).components,
                frame.planes@.len() == old(frame).planes@.len(),
                frame.planes@.len() >= 1,
                frame.planes@[0].stride == stride,
                forall|p: int|
                    1 <= p < frame.planes@.len() ==> frame.planes@[p] == old(frame).planes@[p],
                frame.planes@[0].data@ == stamp_cells(
                    old(frame)@.planes[0].data,
                    stride as int,
                    grid,
                    payload_of(encoded@),
                    k as nat,
                ),
            decreases PAYLOAD_BITS - k,
        {
            let bit = encoded.payload_bit(k);
            let (ox, oy) = grid.origin(k);
            let value = if bit {
                ROBUST_WHITE
            } else {
                ROBUST_BLACK
            };
            fill_block(&mut frame.planes[0].data, stride, ox, oy, grid.cell, value);
            k += 1;
        }
        proof {
            assert(frame@.planes =~= self.stamp_pixels_spec(old(frame)@, encoded@, *config).planes);
        }
        Ok(())
    }
}

/// The reader of the fast robust profile.
#[derive(Clone, Copy, Debug)]
pub struct FastRobustReader {
    /// Side of the block of pixels that carries one bit.
    pub block_size: u8,
    /// Pixels left untouched between blocks.
    pub guard_pixels: u8,
    /// A mean above this level is a one.
    pub threshold: u8,
    /// The least mean confidence of a frame that is decoded, in percent.
    pub min_confidence_percent: u8,
}

impl Default for FastRobustReader {
    fn default() -> (r: Self)
        ensures
            r == (FastRobustReader {
                block_size: 4,
                guard_pixels: 0,
                threshold: 128,
                min_confidence_percent: 50,
            }),
    {
        Self { block_size: 4, guard_pixels: 0, threshold: 128, min_confidence_percent: 50 }
    }
}

impl FastRobustReader {
    /// The cells have an extent.
    pub open spec fn well_formed(&self) -> bool {
        self.block_size + self.guard_pixels > 0
    }

    /// Says whether the reader's parameters are usable.
    pub fn is_well_formed(&self) -> (ok: bool)
        ensures
            ok == self.well_formed(),
    {
        self.block_size > 0 || self.guard_pixels > 0
    }

    /// The grid that the reader lays over a region.
    pub open spec fn grid(&self, config: ReaderConfig) -> CellGrid {
        CellGrid::of_region(
            config.x,
            config.y,
            config.width,
            config.height,
            self.block_size,
            self.guard_pixels,
        )
    }

    /// What the reader returns for a frame: nothing where the grid holds
    /// fewer than 120 bits, else what the payload read from the first
    /// plane decodes to.
    pub open spec fn decode_spec(&self, frame: FrameView, config: ReaderConfig) -> Option<u64> {
        let grid = self.grid(config);
        let data = frame.planes[0].data;
        let stride = frame.planes[0].stride;
        if grid.max_bits() < 120 {
            None
        } else {
            decode_payload_spec(
                received(read_bits(data, stride, grid, self.threshold as int)),
                confidence_sum(data, stride, grid, self.threshold as int, 120),
                self.min_confidence_percent as int,
            )
        }
    }

    /// The CRC-8 of a timestamp.
    pub fn calculate_crc8(&self, data: u64) -> (crc: u8)
        ensures
            crc == crc8_spec(data),
    {
        crc8(data)
    }

    /// Decodes a received payload, given the sum of the confidences of
    /// its bits in 128ths.
    pub fn decode_payload(&self, encoded: &EncodedTimestamp64, confidence_sum: u32) -> (r: Option<
        u64,
    >)
        ensures
            r == decode_payload_spec(
                encoded@,
                confidence_sum as int,
                self.min_confidence_percent as int,
            ),
    {
        let least: u64 = 15360 * (self.min_confidence_percent as u64);
        if 100 * (confidence_sum as u64) < least {
            return None;
        }
        let (timestamp, corrected) = encoded.correct_codewords();
        let calculated_crc = self.calculate_crc8(timestamp);
        if accept(calculated_crc == encoded.crc8, corrected, confidence_sum) {
            Some(timestamp)
        } else {
            None
        }
    }

    /// Samples the 120 cells of a region: the codewords and checksum that
    /// they spell, and the sum of their confidences in 128ths. Nothing
    /// where the grid holds fewer than 120 bits.
    pub fn read_payload(&self, frame: &Frame, config: &ReaderConfig) -> (r: Option<
        (EncodedTimestamp64, u32),
    >)
        requires
            self.well_formed(),
            frame@.wf(),
        ensures
            match r {
                Some((encoded, total)) => {
                    &&& self.grid(*config).max_bits() >= 120
                    &&& encoded@ == received(
                        read_bits(
                            frame@.planes[0].data,
                            frame@.planes[0].stride,
                            self.grid(*config),
                            self.threshold as int,
                        ),
                    )
                    &&& total == confidence_sum(
                        frame@.planes[0].data,
                        frame@.planes[0].stride,
                        self.grid(*config),
                        self.threshold as int,
                        120,
                    )
                },
                None => self.grid(*config).max_bits() < 120,
            },
    {
        let grid = CellGrid::for_region(
            config.x,
            config.y,
            config.width,
            config.height,
            self.block_size,
            self.guard_pixels,
        );
        if grid.capacity() < PAYLOAD_BITS {
            return None;
        }
        let stride = frame.planes[0].stride;
        let half: u64 = (self.block_size / 2) as u64;
        let side: u64 = if half < 2 {
            half
        } else {
            2
        };
        let mut bits: Vec<bool> = Vec::new();
        let mut total: u32 = 0;
        let mut i: u64 = 0;
        while i < PAYLOAD_BITS
            invariant
                i <= PAYLOAD_BITS,
                grid.wf(),
                grid == self.grid(*config),
                grid.max_bits() >= PAYLOAD_BITS,
                frame@.wf(),
                stride == frame@.planes[0].stride,
                half == grid.cell as int / 2,
                side == if half < 2 {
                    half
                } else {
                    2
                },
                bits@.len() == i,
                forall|j: int|
                    0 <= j < i ==> bits@[j] == mean_bit(
                        cell_mean(frame@.planes[0].data, stride as int, grid, j),
                        self.threshold as int,
                    ),
                total == confidence_sum(
                    frame@.planes[0].data,
                    stride as int,
                    grid,
                    self.threshold as int,
                    i as nat,
                ),
                total <= 128 * i,
            decreases PAYLOAD_BITS - i,
        {
            let (ox, oy) = grid.origin(i);
            let (sum, count) = sample_rect(
                &frame.planes[0].data,
                stride,
                ox + half,
                oy + half,
                side,
                side,
            );
            let mut bit = false;
            if count > 0 {
                let avg = sum / count;
                assert(avg <= 255) by (nonlinear_arith)
                    requires
                        avg == sum / count,
                        sum <= 255 * count,
                        count > 0,
                ;
                let avg = avg as u32;
                let threshold = self.threshold as u32;
                bit = avg > threshold;
                let distance = if avg >= threshold {
                    avg - threshold
                } else {
                    threshold - avg
                };
                total += if distance < 128 {
                    distance
                } else {
                    128
                };
            }
            bits.push(bit);
            i += 1;
        }
        let encoded = EncodedTimestamp64::from_bits(&bits);
        proof {
            assert(bits@ =~= read_bits(
                frame@.planes[0].data,
                stride as int,
                grid,
                self.threshold as int,
            ));
        }
        Some((encoded, total))
    }

    /// Reads a timestamp from the first plane of a frame.
    pub fn decode_timestamp_fast(&self, frame: &Frame, config: &ReaderConfig) -> (r: Option<u64>)
        requires
            self.well_formed(),
            frame@.wf(),
        ensures
            r == self.decode_spec(frame@, *config),
            self.grid(*config).max_bits() < 120 ==> r is None,
    {
        match self.read_payload(frame, config) {
            Some((encoded, total)) => self.decode_payload(&encoded, total),
            None => None,
        }
    }
}

impl TimestampStamper for FastRobustStamper {
    open spec fn wf(&self) -> bool {
        self.well_formed()
    }

    open spec fn stamped(&self, frame: FrameView, timestamp_usecs: u64, config: StamperConfig)
        -> FrameView {
        self.stamp_pixels_spec(frame, encoded_spec(timestamp_usecs), config)
    }

    open spec fn refuses(&self, frame: FrameView, timestamp_usecs: u64, config: StamperConfig)
        -> bool {
        false
    }

    open spec fn profile(&self) -> StamperType {
        StamperType::FastRobust
    }

    fn stamp(&self, frame: &mut Frame, timestamp_usecs: u64, config: &StamperConfig) -> (r: Result<
        (),
        CodecError,
    >) {
        let encoded = self.encode_timestamp_fast(timestamp_usecs);
        self.stamp_pixels_fast(frame, &encoded, config)
    }

    fn name(&self) -> (s: &'static str) {
        "fast-robust"
    }

    fn description(&self) -> (s: &'static str) {
        "Fast BCH(7,4) error correcting stamper with full 64-bit timestamps"
    }
}

impl TimestampReader for FastRobustReader {
    open spec fn wf(&self) -> bool {
        self.well_formed()
    }

    open spec fn reading(&self, frame: FrameView, config: ReaderConfig) -> Result<
        Option<u64>,
        CodecError,
    > {
        Ok(self.decode_spec(frame, config))
    }

    open spec fn profile(&self) -> StamperType {
        StamperType::FastRobust
    }

    fn read(&self, frame: &Frame, config: &ReaderConfig) -> (r: Result<Option<u64>, CodecError>) {
        Ok(self.decode_timestamp_fast(frame, config))
    }

    fn name(&self) -> (s: &'static str) {
        "fast-robust"
    }

    fn description(&self) -> (s: &'static str) {
        "Fast BCH(7,4) error correcting reader with full 64-bit timestamps"
    }
}

} // verus!
