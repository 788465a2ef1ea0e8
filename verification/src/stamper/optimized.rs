//! The optimized profile: a framed packet of twelve bytes, a start
//! marker, 48 bits of timestamp, their CRC-16 and an end marker, on a
//! fixed grid of cells whose borders are blended towards mid-gray.

use crate::bits::{bit_at, msb_bit, pack_byte, pack_msb};
use crate::crc::{crc16, crc16_spec};
use crate::frame::{CodecError, Frame, FrameView, PixelFormat};
use crate::geometry::{CellGrid, MAX_EXTENT};
use crate::raster::{offset_of, plane_offset, rect_mean, sample_rect, COORD_LIMIT};
use crate::stamper::get_robust_fill_values;
use crate::stamper::traits::{
    ReaderConfig, StamperConfig, StamperType, TimestampReader, TimestampStamper,
};
use vstd::prelude::*;

verus! {

/// Bits of a packet.
pub const PACKET_BITS: u64 = 96;

/// Bytes of a packet.
pub const PACKET_BYTES: usize = 12;

/// The gray level at the center of a cell that carries a one.
pub const CELL_WHITE: u8 = 235;

/// The gray level at the center of a cell that carries a zero.
pub const CELL_BLACK: u8 = 20;

/// The gray level that the border of a cell is blended with.
pub const CELL_EDGE: u8 = 128;

/// The gray level at the center of the cell of a bit.
pub open spec fn level_of(bit: bool, white: u8, black: u8) -> u8 {
    if bit {
        white
    } else {
        black
    }
}

/// The high byte of a 16-bit value.
pub open spec fn high_byte(v: u16) -> u8 {
    (v >> 8) as u8
}

/// The low byte of a 16-bit value.
pub open spec fn low_byte(v: u16) -> u8 {
    v as u8
}

/// The 16-bit value of two bytes, high byte first.
pub open spec fn be16(high: u8, low: u8) -> u16 {
    ((high as u16) << 8) | (low as u16)
}

/// The six bytes of the low 48 bits of a timestamp, most significant
/// first.
pub open spec fn timestamp_bytes(t: u64) -> Seq<u8> {
    let ts48 = t & 0xFFFF_FFFF_FFFF;
    seq![
        (ts48 >> 40) as u8,
        (ts48 >> 32) as u8,
        (ts48 >> 24) as u8,
        (ts48 >> 16) as u8,
        (ts48 >> 8) as u8,
        ts48 as u8,
    ]
}

/// The 48-bit value of six bytes, most significant first.
pub open spec fn be48(b: Seq<u8>) -> u64 {
    ((b[0] as u64) << 40) | ((b[1] as u64) << 32) | ((b[2] as u64) << 24) | ((b[3] as u64) << 16)
        | ((b[4] as u64) << 8) | (b[5] as u64)
}

/// The packet of a timestamp: start marker, the low 48 bits of the
/// timestamp, the CRC-16 of those six bytes, end marker.
pub open spec fn packet_spec(t: u64, start_marker: u16, end_marker: u16) -> Seq<u8> {
    let body = timestamp_bytes(t);
    let crc = crc16_spec(body);
    seq![high_byte(start_marker), low_byte(start_marker)] + body + seq![
        high_byte(crc),
        low_byte(crc),
        high_byte(end_marker),
        low_byte(end_marker),
    ]
}

/// The timestamp that a packet carries: none unless the packet has twelve
/// bytes, both markers are in place and the checksum matches.
pub open spec fn extract_spec(p: Seq<u8>, start_marker: u16, end_marker: u16) -> Option<u64> {
    if p.len() < 12 {
        None
    } else if be16(p[0], p[1]) != start_marker {
        None
    } else if be16(p[10], p[11]) != end_marker {
        None
    } else if be16(p[8], p[9]) != crc16_spec(p.subrange(2, 8)) {
        None
    } else {
        Some(be48(p.subrange(2, 8)))
    }
}

/// The bits of a byte string, each byte from bit 7 down to bit 0.
pub open spec fn bits_of(bytes: Seq<u8>) -> Seq<bool> {
    Seq::new(8 * bytes.len(), |k: int| msb_bit(bytes[k / 8], 8, (k % 8) as u8))
}

/// The whole bytes that a bit string spells, eight bits to a byte.
pub open spec fn bytes_of(bits: Seq<bool>) -> Seq<u8> {
    Seq::new((bits.len() / 8) as nat, |j: int| pack_msb(bits, 8 * j, 8) as u8)
}

/// The gray level of pixel `(dx, dy)` of a cell of side `size`: the
/// center level inside, and on the border of one pixel the mean of the
/// center level and the edge level.
pub open spec fn cell_pixel(size: int, dx: int, dy: int, center: u8, edge: u8) -> u8 {
    if dy < 1 || dy >= size - 1 || dx < 1 || dx >= size - 1 {
        ((center + edge) / 2) as u8
    } else {
        center
    }
}

/// A plane with the byte at `off` set to `v`, if the plane has such a
/// byte.
pub open spec fn put(data: Seq<u8>, off: int, v: u8) -> Seq<u8> {
    if 0 <= off < data.len() {
        data.update(off, v)
    } else {
        data
    }
}

/// A plane after the first `n` pixels of row `dy` of a cell at `(x, y)`
/// were written, left to right.
pub open spec fn blend_row(
    data: Seq<u8>,
    stride: int,
    x: int,
    y: int,
    size: int,
    dy: int,
    center: u8,
    edge: u8,
    n: nat,
) -> Seq<u8>
    decreases n,
{
    if n == 0 {
        data
    } else {
        put(
            blend_row(data, stride, x, y, size, dy, center, edge, (n - 1) as nat),
            offset_of(stride, x + n - 1, y + dy),
            cell_pixel(size, n - 1, dy, center, edge),
        )
    }
}

/// A plane after the first `rows` rows of a cell at `(x, y)` were
/// written, top row first.
pub open spec fn blend_cell(
    data: Seq<u8>,
    stride: int,
    x: int,
    y: int,
    size: int,
    center: u8,
    edge: u8,
    rows: nat,
) -> Seq<u8>
    decreases rows,
{
    if rows == 0 {
        data
    } else {
        blend_row(
            blend_cell(data, stride, x, y, size, center, edge, (rows - 1) as nat),
            stride,
            x,
            y,
            size,
            rows - 1,
            center,
            edge,
            size as nat,
        )
    }
}

/// A plane after the first `n` cells of a grid were written, cell 0
/// first, each with the level of its bit.
pub open spec fn blend_cells(
    data: Seq<u8>,
    stride: int,
    grid: CellGrid,
    bits: Seq<bool>,
    white: u8,
    black: u8,
    n: nat,
) -> Seq<u8>
    decreases n,
{
    if n == 0 {
        data
    } else {
        blend_cell(
            blend_cells(data, stride, grid, bits, white, black, (n - 1) as nat),
            stride,
            grid.origin_x(n - 1),
            grid.origin_y(n - 1),
            grid.cell as int,
            level_of(bits[n - 1], white, black),
            CELL_EDGE,
            grid.cell as nat,
        )
    }
}

/// The mean of the pixels of cell `i` inside its border of one pixel.
pub open spec fn interior_mean(data: Seq<u8>, stride: int, grid: CellGrid, i: int) -> Option<int> {
    let side = if grid.cell >= 2 {
        grid.cell - 2
    } else {
        0
    };
    rect_mean(data, stride, grid.origin_x(i) + 1, grid.origin_y(i) + 1, side as nat, side as nat)
}

/// What a cell shows: nothing without a sample, nothing where the mean
/// lies closer to the threshold than `1 - min_confidence` of 128 levels,
/// else whether the mean lies above the threshold.
pub open spec fn cell_vote(mean: Option<int>, threshold: int, min_percent: int) -> Option<bool> {
    match mean {
        Some(avg) => {
            let distance = if avg >= threshold {
                avg - threshold
            } else {
                threshold - avg
            };
            if 100 * distance < 128 * (100 - min_percent) {
                None
            } else {
                Some(avg > threshold)
            }
        },
        None => None,
    }
}

/// The bits that the first `n` cells of a grid show; a cell that shows
/// nothing counts as zero.
pub open spec fn read_cells(
    data: Seq<u8>,
    stride: int,
    grid: CellGrid,
    threshold: int,
    min_percent: int,
    n: nat,
) -> Seq<bool> {
    Seq::new(
        n,
        |i: int| cell_vote(interior_mean(data, stride, grid, i), threshold, min_percent) == Some(true),
    )
}

/// The stamper of the optimized profile.
#[derive(Clone, Copy, Debug)]
pub struct OptimizedStamper {
    /// Side of a cell in pixels.
    pub cell_size: usize,
    /// Cells in a row of the grid.
    pub grid_width: usize,
    /// Rows of cells.
    pub grid_height: usize,
    pub start_marker: u16,
    pub end_marker: u16,
}

impl Default for OptimizedStamper {
    fn default() -> (r: Self)
        ensures
            r == (OptimizedStamper {
                cell_size: 8,
                grid_width: 12,
                grid_height: 8,
                start_marker: 0xA5A5,
                end_marker: 0x5A5A,
            }),
    {
        Self {
            cell_size: 8,
            grid_width: 12,
            grid_height: 8,
            start_marker: 0xA5A5,
            end_marker: 0x5A5A,
        }
    }
}

impl OptimizedStamper {
    /// The cells have an extent and the grid lies within coordinates of
    /// 32 bits.
    pub open spec fn well_formed(&self) -> bool {
        &&& 0 < self.cell_size
        &&& 0 < self.grid_width
        &&& self.grid_width * self.cell_size <= MAX_EXTENT
        &&& self.grid_height * self.cell_size <= MAX_EXTENT
    }

    /// Says whether the stamper's parameters are usable.
    pub fn is_well_formed(&self) -> (ok: bool)
        ensures
            ok == self.well_formed(),
    {
        self.grid_width > 0 && CellGrid::shape_fits(
            self.cell_size,
            self.grid_width,
            self.grid_height,
        )
    }

    /// The grid that the stamper lays at the corner of a region. Its shape
    /// is fixed: the extent of the region plays no part.
    pub open spec fn grid(&self, config: StamperConfig) -> CellGrid {
        CellGrid::of_shape(config.x, config.y, self.cell_size, self.grid_width, self.grid_height)
    }

    /// How many bits of a byte string the stamper writes: all, or as many
    /// as the grid holds.
    pub open spec fn bits_written(&self, bytes: int, config: StamperConfig) -> nat {
        if self.grid(config).max_bits() < 8 * bytes {
            self.grid(config).max_bits() as nat
        } else {
            (8 * bytes) as nat
        }
    }

    /// The frame after a byte string was stamped into its first plane.
    pub open spec fn stamp_bytes_spec(
        &self,
        frame: FrameView,
        encoded: Seq<u8>,
        config: StamperConfig,
        white: u8,
        black: u8,
    ) -> FrameView {
        frame.with_plane_data(
            0,
            blend_cells(
                frame.planes[0].data,
                frame.planes[0].stride,
                self.grid(config),
                bits_of(encoded),
                white,
                black,
                self.bits_written(encoded.len() as int, config),
            ),
        )
    }

    /// Whether the stamper refuses a frame: one that is not I420 and has
    /// neither an RGB nor a YUV color model.
    pub open spec fn refuses_frame(&self, frame: FrameView) -> bool {
        frame.format != PixelFormat::I420 && !frame.flags.rgb && !frame.flags.yuv
    }

    /// The frame after a timestamp was stamped.
    pub open spec fn stamp_spec(&self, frame: FrameView, t: u64, config: StamperConfig)
        -> FrameView {
        if self.refuses_frame(frame) {
            frame
        } else {
            self.stamp_bytes_spec(
                frame,
                packet_spec(t, self.start_marker, self.end_marker),
                config,
                CELL_WHITE,
                CELL_BLACK,
            )
        }
    }

    /// Builds the packet of a timestamp.
    pub fn encode_with_redundancy(&self, timestamp_usecs: u64) -> (encoded: Vec<u8>)
        ensures
            encoded@ == packet_spec(timestamp_usecs, self.start_marker, self.end_marker),
    {
        let ts48 = timestamp_usecs & 0xFFFF_FFFF_FFFF;
        let body: [u8; 6] = [
            (ts48 >> 40) as u8,
            (ts48 >> 32) as u8,
            (ts48 >> 24) as u8,
            (ts48 >> 16) as u8,
            (ts48 >> 8) as u8,
            ts48 as u8,
        ];
        proof {
            assert(body@ =~= timestamp_bytes(timestamp_usecs));
        }
        let crc = self.crc16(body.as_slice());
        let mut encoded: Vec<u8> = Vec::with_capacity(16);
        encoded.push((self.start_marker >> 8) as u8);
        encoded.push(self.start_marker as u8);
        encoded.push(body[0]);
        encoded.push(body[1]);
        encoded.push(body[2]);
        encoded.push(body[3]);
        encoded.push(body[4]);
        encoded.push(body[5]);
        encoded.push((crc >> 8) as u8);
        encoded.push(crc as u8);
        encoded.push((self.end_marker >> 8) as u8);
        encoded.push(self.end_marker as u8);
        proof {
            assert(encoded@ =~= packet_spec(timestamp_usecs, self.start_marker, self.end_marker));
        }
        encoded
    }

    /// The CRC-16/CCITT of a byte string.
    pub fn crc16(&self, data: &[u8]) -> (crc: u16)
        ensures
            crc == crc16_spec(data@),
    {
        crc16(data)
    }

    /// Writes one cell at `(x, y)`: the center level inside, and on its
    /// border the mean of the center level and the edge level. Pixels
    /// beyond the plane are skipped.
    pub fn stamp_cell_with_gradient(
        &self,
        data: &mut Vec<u8>,
        stride: usize,
        x: u64,
        y: u64,
        center_value: u8,
        edge_value: u8,
    )
        requires
            x + self.cell_size <= COORD_LIMIT,
            y + self.cell_size <= COORD_LIMIT,
        ensures
            final(data)@ == blend_cell(
                old(data)@,
                stride as int,
                x as int,
                y as int,
                self.cell_size as int,
                center_value,
                edge_value,
                self.cell_size as nat,
            ),
    {
        let size: u64 = self.cell_size as u64;
        let mut dy: u64 = 0;
        while dy < size
            invariant
                dy <= size,
                size == self.cell_size,
                x + size <= COORD_LIMIT,
                y + size <= COORD_LIMIT,
                data@ == blend_cell(
                    old(data)@,
                    stride as int,
                    x as int,
                    y as int,
                    size as int,
                    center_value,
                    edge_value,
                    dy as nat,
                ),
            decreases size - dy,
        {
            let ghost row_start = data@;
            let mut dx: u64 = 0;
            while dx < size
                invariant
                    dx <= size,
                    dy < size,
                    x + size <= COORD_LIMIT,
                    y + size <= COORD_LIMIT,
                    data@ == blend_row(
                        row_start,
                        stride as int,
                        x as int,
                        y as int,
                        size as int,
                        dy as int,
                        center_value,
                        edge_value,
                        dx as nat,
                    ),
                decreases size - dx,
            {
                let idx = plane_offset(stride, x + dx, y + dy);
                if idx < data.len() as u128 {
                    let value = if dy < 1 || dy >= size - 1 || dx < 1 || dx >= size - 1 {
                        ((center_value as u16 + edge_value as u16) / 2) as u8
                    } else {
                        center_value
                    };
                    data[idx as usize] = value;
                }
                dx += 1;
            }
            dy += 1;
        }
    }

    /// Stamps the bits of a byte string, one cell per bit, and stops where
    /// the grid is full.
    fn stamp_bits(
        &self,
        frame: &mut Frame,
        encoded: &[u8],
        config: &StamperConfig,
        white: u8,
        black: u8,
    )
        requires
            self.well_formed(),
            old(frame)@.wf(),
        ensures
            final(frame)@ == self.stamp_bytes_spec(old(frame)@, encoded@, *config, white, black),
    {
        let grid = CellGrid::with_shape(
            config.x,
            config.y,
            self.cell_size,
            self.grid_width,
            self.grid_height,
        );
        let max_bits = grid.capacity();
        let stride = frame.planes[0].stride;
        let mut k: u64 = 0;
        while k < max_bits && k / 8 < encoded.len() as u64
            invariant
                k <= max_bits,
                k <= 8 * encoded@.len(),
                max_bits == grid.max_bits(),
                grid.wf(),
                grid == self.grid(*config),
                grid.cell == self.cell_size,
                stride == old(frame)@.planes[0].stride,
                frame.format == old(frame).format,
                frame.flags == old(frame).flags,
                frame.bits == old(frame).bits,
                frame.components == old(frame).components,
                frame.planes@.len() == old(frame).planes@.len(),
                frame.planes@.len() >= 1,
                frame.planes@[0].stride == stride,
                forall|p: int|
                    1 <= p < frame.planes@.len() ==> frame.planes@[p] == old(frame).planes@[p],
                frame.planes@[0].data@ == blend_cells(
                    old(frame)@.planes[0].data,
                    stride as int,
                    grid,
                    bits_of(encoded@),
                    white,
                    black,
                    k as nat,
                ),
            decreases max_bits - k,
        {
            let bit = bit_at(encoded[(k / 8) as usize], 8, (k % 8) as u8);
            let (ox, oy) = grid.origin(k);
            let center = if bit {
                white
            } else {
                black
            };
            self.stamp_cell_with_gradient(&mut frame.planes[0].data, stride, ox, oy, center, CELL_EDGE);
            k += 1;
        }
        proof {
            assert(frame@.planes =~= self.stamp_bytes_spec(
                old(frame)@,
                encoded@,
                *config,
                white,
                black,
            ).planes);
        }
    }

    /// Stamps a byte string into the luma plane of an I420 frame.
    pub fn stamp_i420_fast(&self, frame: &mut Frame, encoded: &[u8], config: &StamperConfig) -> (r:
        Result<(), CodecError>)
        requires
            self.well_formed(),
            old(frame)@.wf(),
        ensures
            r == Ok::<(), CodecError>(()),
            final(frame)@ == self.stamp_bytes_spec(
                old(frame)@,
                encoded@,
                *config,
                CELL_WHITE,
                CELL_BLACK,
            ),
    {
        self.stamp_bits(frame, encoded, config, CELL_WHITE, CELL_BLACK);
        Ok(())
    }

    /// Stamps a byte string into the first plane of a frame of any format
    /// with an RGB or a YUV color model, and refuses any other.
    pub fn stamp_generic(&self, frame: &mut Frame, encoded: &[u8], config: &StamperConfig) -> (r:
        Result<(), CodecError>)
        requires
            self.well_formed(),
            old(frame)@.wf(),
        ensures
            r == if old(frame)@.flags.rgb || old(frame)@.flags.yuv {
                Ok::<(), CodecError>(())
            } else {
                Err::<(), CodecError>(CodecError::UnsupportedFormat)
            },
            final(frame)@ == if old(frame)@.flags.rgb || old(frame)@.flags.yuv {
                self.stamp_bytes_spec(old(frame)@, encoded@, *config, CELL_WHITE, CELL_BLACK)
            } else {
                old(frame)@
            },
    {
        match get_robust_fill_values(frame.flags) {
            Ok((white, black)) => {
                self.stamp_bits(frame, encoded, config, white[0], black[0]);
                Ok(())
            },
            Err(e) => {
                proof {
                    assert(frame@.planes =~= old(frame)@.planes);
                }
                Err(e)
            },
        }
    }
}

/// The reader of the optimized profile.
#[derive(Clone, Copy, Debug)]
pub struct OptimizedReader {
    /// Side of a cell in pixels.
    pub cell_size: usize,
    /// Cells in a row of the grid.
    pub grid_width: usize,
    /// Rows of cells.
    pub grid_height: usize,
    pub start_marker: u16,
    pub end_marker: u16,
    /// A mean above this level is a one.
    pub threshold: u8,
    /// The confidence that a cell must reach, in percent: its mean must
    /// lie at least `100 - min_confidence_percent` percent of 128 levels
    /// from the threshold.
    pub min_confidence_percent: u8,
}

impl Default for OptimizedReader {
    fn default() -> (r: Self)
        ensures
            r == (OptimizedReader {
                cell_size: 8,
                grid_width: 12,
                grid_height: 8,
                start_marker: 0xA5A5,
                end_marker: 0x5A5A,
                threshold: 128,
                min_confidence_percent: 60,
            }),
    {
        Self {
            cell_size: 8,
            grid_width: 12,
            grid_height: 8,
            start_marker: 0xA5A5,
            end_marker: 0x5A5A,
            threshold: 128,
            min_confidence_percent: 60,
        }
    }
}

impl OptimizedReader {
    /// The cells have an extent and the grid lies within coordinates of
    /// 32 bits.
    pub open spec fn well_formed(&self) -> bool {
        &&& 0 < self.cell_size
        &&& 0 < self.grid_width
        &&& self.grid_width * self.cell_size <= MAX_EXTENT
        &&& self.grid_height * self.cell_size <= MAX_EXTENT
    }

    /// Says whether the reader's parameters are usable.
    pub fn is_well_formed(&self) -> (ok: bool)
        ensures
            ok == self.well_formed(),
    {
        self.grid_width > 0 && CellGrid::shape_fits(
            self.cell_size,
            self.grid_width,
            self.grid_height,
        )
    }

    /// The grid that the reader lays at the corner of a region.
    pub open spec fn grid(&self, config: ReaderConfig) -> CellGrid {
        CellGrid::of_shape(config.x, config.y, self.cell_size, self.grid_width, self.grid_height)
    }

    /// How many cells the reader samples: 96, or as many as the grid
    /// holds.
    pub open spec fn cells_read(&self, config: ReaderConfig) -> nat {
        if self.grid(config).max_bits() < 96 {
            self.grid(config).max_bits() as nat
        } else {
            96
        }
    }

    /// The bytes that the reader takes from a frame.
    pub open spec fn read_bytes_spec(&self, frame: FrameView, config: ReaderConfig) -> Seq<u8> {
        bytes_of(
            read_cells(
                frame.planes[0].data,
                frame.planes[0].stride,
                self.grid(config),
                self.threshold as int,
                self.min_confidence_percent as int,
                self.cells_read(config),
            ),
        )
    }

    /// What the reader returns for a frame.
    pub open spec fn read_spec(&self, frame: FrameView, config: ReaderConfig) -> Option<u64> {
        extract_spec(self.read_bytes_spec(frame, config), self.start_marker, self.end_marker)
    }

    /// The CRC-16/CCITT of a byte string.
    pub fn crc16(&self, data: &[u8]) -> (crc: u16)
        ensures
            crc == crc16_spec(data@),
    {
        crc16(data)
    }

    /// Reads the cell at `(x, y)` from the mean of its pixels inside the
    /// border.
    pub fn read_cell_majority(&self, data: &Vec<u8>, stride: usize, x: u64, y: u64) -> (vote:
        Option<bool>)
        requires
            x + self.cell_size <= COORD_LIMIT,
            y + self.cell_size <= COORD_LIMIT,
        ensures
            vote == cell_vote(
                rect_mean(
                    data@,
                    stride as int,
                    x + 1,
                    y + 1,
                    (if self.cell_size >= 2 {
                        self.cell_size - 2
                    } else {
                        0
                    }) as nat,
                    (if self.cell_size >= 2 {
                        self.cell_size - 2
                    } else {
                        0
                    }) as nat,
                ),
                self.threshold as int,
                self.min_confidence_percent as int,
            ),
    {
        if self.cell_size < 3 {
            return None;
        }
        let side: u64 = (self.cell_size - 2) as u64;
        let (sum, count) = sample_rect(data, stride, x + 1, y + 1, side, side);
        if count == 0 {
            return None;
        }
        let avg = sum / count;
        assert(avg <= 255) by (nonlinear_arith)
            requires
                avg == sum / count,
                sum <= 255 * count,
                count > 0,
        ;
        let avg = avg as u32;
        let threshold = self.threshold as u32;
        let distance = if avg >= threshold {
            avg - threshold
        } else {
            threshold - avg
        };
        if 100 * distance + 128 * (self.min_confidence_percent as u32) < 12800 {
            return None;
        }
        Some(avg > threshold)
    }

    /// Reads the bytes that the cells of the luma plane show.
    pub fn read_i420_fast(&self, frame: &Frame, config: &ReaderConfig) -> (r: Result<
        Vec<u8>,
        CodecError,
    >)
        requires
            self.well_formed(),
            frame@.wf(),
        ensures
            r is Ok,
            r.unwrap()@ == self.read_bytes_spec(frame@, *config),
    {
        let grid = CellGrid::with_shape(
            config.x,
            config.y,
            self.cell_size,
            self.grid_width,
            self.grid_height,
        );
        let max_bits = grid.capacity();
        let stride = frame.planes[0].stride;
        let mut bits: Vec<bool> = Vec::new();
        let mut i: u64 = 0;
        while i < PACKET_BITS && i < max_bits
            invariant
                i <= PACKET_BITS,
                i <= max_bits,
                max_bits == grid.max_bits(),
                grid.wf(),
                grid == self.grid(*config),
                grid.cell == self.cell_size,
                frame@.wf(),
                stride == frame@.planes[0].stride,
                bits@ == read_cells(
                    frame@.planes[0].data,
                    stride as int,
                    grid,
                    self.threshold as int,
                    self.min_confidence_percent as int,
                    i as nat,
                ),
            decreases PACKET_BITS - i,
        {
            let (ox, oy) = grid.origin(i);
            let bit = match self.read_cell_majority(&frame.planes[0].data, stride, ox, oy) {
                Some(b) => b,
                None => false,
            };
            bits.push(bit);
            proof {
                assert(bits@ =~= read_cells(
                    frame@.planes[0].data,
                    stride as int,
                    grid,
                    self.threshold as int,
                    self.min_confidence_percent as int,
                    (i + 1) as nat,
                ));
            }
            i += 1;
        }
        let count = bits.len() / 8;
        let mut decoded: Vec<u8> = Vec::with_capacity(12);
        let mut j: usize = 0;
        while j < count
            invariant
                j <= count,
                count == bits@.len() / 8,
                bits@.len() <= PACKET_BITS,
                decoded@.len() == j,
                forall|b: int| 0 <= b < j ==> decoded@[b] == pack_msb(bits@, 8 * b, 8) as u8,
            decreases count - j,
        {
            decoded.push(pack_byte(&bits, 8 * j, 8));
            j += 1;
        }
        proof {
            assert(decoded@ =~= bytes_of(bits@));
        }
        Ok(decoded)
    }

    /// Reads the bytes that the cells of the first plane show.
    pub fn read_generic(&self, frame: &Frame, config: &ReaderConfig) -> (r: Result<
        Vec<u8>,
        CodecError,
    >)
        requires
            self.well_formed(),
            frame@.wf(),
        ensures
            r is Ok,
            r.unwrap()@ == self.read_bytes_spec(frame@, *config),
    {
        self.read_i420_fast(frame, config)
    }

    /// Checks the frame of a packet and takes the timestamp out of it.
    pub fn verify_and_extract(&self, data: &[u8]) -> (r: Option<u64>)
        ensures
            r == extract_spec(data@, self.start_marker, self.end_marker),
    {
        if data.len() < 12 {
            return None;
        }
        let start = ((data[0] as u16) << 8) | (data[1] as u16);
        if start != self.start_marker {
            return None;
        }
        let end = ((data[10] as u16) << 8) | (data[11] as u16);
        if end != self.end_marker {
            return None;
        }
        let stored_crc = ((data[8] as u16) << 8) | (data[9] as u16);
        let body: [u8; 6] = [data[2], data[3], data[4], data[5], data[6], data[7]];
        proof {
            assert(body@ =~= data@.subrange(2, 8));
        }
        let calculated_crc = self.crc16(body.as_slice());
        if stored_crc != calculated_crc {
            return None;
        }
        let timestamp = ((data[2] as u64) << 40) | ((data[3] as u64) << 32) | ((data[4] as u64)
            << 24) | ((data[5] as u64) << 16) | ((data[6] as u64) << 8) | (data[7] as u64);
        Some(timestamp)
    }
}

impl TimestampStamper for OptimizedStamper {
    open spec fn wf(&self) -> bool {
        self.well_formed()
    }

    open spec fn stamped(&self, frame: FrameView, timestamp_usecs: u64, config: StamperConfig)
        -> FrameView {
        self.stamp_spec(frame, timestamp_usecs, config)
    }

    open spec fn refuses(&self, frame: FrameView, timestamp_usecs: u64, config: StamperConfig)
        -> bool {
        self.refuses_frame(frame)
    }

    open spec fn profile(&self) -> StamperType {
        StamperType::Optimized
    }

    fn stamp(&self, frame: &mut Frame, timestamp_usecs: u64, config: &StamperConfig) -> (r: Result<
        (),
        CodecError,
    >) {
        let encoded = self.encode_with_redundancy(timestamp_usecs);
        if frame.format == PixelFormat::I420 {
            self.stamp_i420_fast(frame, encoded.as_slice(), config)
        } else {
            self.stamp_generic(frame, encoded.as_slice(), config)
        }
    }

    fn name(&self) -> (s: &'static str) {
        "optimized"
    }

    fn description(&self) -> (s: &'static str) {
        "Optimized stamper with 8x8 cells and CRC16 error detection"
    }
}

impl TimestampReader for OptimizedReader {
    open spec fn wf(&self) -> bool {
        self.well_formed()
    }

    open spec fn reading(&self, frame: FrameView, config: ReaderConfig) -> Result<
        Option<u64>,
        CodecError,
    > {
        Ok(self.read_spec(frame, config))
    }

    open spec fn profile(&self) -> StamperType {
        StamperType::Optimized
    }

    fn read(&self, frame: &Frame, config: &ReaderConfig) -> (r: Result<Option<u64>, CodecError>) {
        let decoded = if frame.format == PixelFormat::I420 {
            self.read_i420_fast(frame, config)
        } else {
            self.read_generic(frame, config)
        };
        match decoded {
            Ok(bytes) => Ok(self.verify_and_extract(bytes.as_slice())),
            Err(e) => Err(e),
        }
    }

    fn name(&self) -> (s: &'static str) {
        "optimized"
    }

    fn description(&self) -> (s: &'static str) {
        "Optimized reader with CRC16 validation and confidence thresholds"
    }
}

} // verus!
