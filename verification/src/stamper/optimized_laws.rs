//! What holds of the optimized profile: a packet carries its timestamp, a
//! packet with one byte changed is refused, and a stamped grid reads
//! back.

use crate::bits::{lemma_pack_eight, msb_bit, pack_msb};
use crate::crc::{crc16_spec, lemma_crc16_detects_byte_change};
use crate::frame::FrameView;
use crate::geometry::CellGrid;
use crate::raster::{lemma_offset_injective, lemma_row_order, lemma_uniform_rect, offset_of};
use crate::stamper::optimized::{
    be16, be48, bits_of, blend_cell, blend_cells, blend_row, bytes_of, cell_pixel, cell_vote,
    extract_spec, high_byte, interior_mean, level_of, low_byte, packet_spec, read_cells,
    timestamp_bytes, OptimizedReader, OptimizedStamper, CELL_BLACK, CELL_EDGE, CELL_WHITE,
};
use crate::stamper::traits::{ReaderConfig, StamperConfig};
use vstd::prelude::*;

verus! {

/// Two bytes are found again in the 16-bit value they spell, and the two
/// bytes of a 16-bit value spell it.
pub proof fn lemma_be16(a: u8, b: u8, c: u8, d: u8, v: u16)
    ensures
        be16(a, b) == be16(c, d) ==> a == c && b == d,
        be16(high_byte(v), low_byte(v)) == v,
{
    assert(be16(a, b) == be16(c, d) ==> a == c && b == d) by (bit_vector);
    assert(be16(high_byte(v), low_byte(v)) == v) by (bit_vector);
}

/// The six bytes of a timestamp spell its low 48 bits.
pub proof fn lemma_be48(t: u64)
    ensures
        be48(timestamp_bytes(t)) == t & 0xFFFF_FFFF_FFFF,
        t < 0x1_0000_0000_0000 ==> t & 0xFFFF_FFFF_FFFF == t,
{
    let ts48 = t & 0xFFFF_FFFF_FFFF;
    let b = timestamp_bytes(t);
    assert(b[0] == (ts48 >> 40) as u8);
    assert(b[1] == (ts48 >> 32) as u8);
    assert(b[2] == (ts48 >> 24) as u8);
    assert(b[3] == (ts48 >> 16) as u8);
    assert(b[4] == (ts48 >> 8) as u8);
    assert(b[5] == ts48 as u8);
    assert(ts48 == t & 0xFFFF_FFFF_FFFF ==> ((((ts48 >> 40) as u8) as u64) << 40) | ((((ts48 >> 32)
        as u8) as u64) << 32) | ((((ts48 >> 24) as u8) as u64) << 24) | ((((ts48 >> 16) as u8)
        as u64) << 16) | ((((ts48 >> 8) as u8) as u64) << 8) | ((ts48 as u8) as u64) == ts48)
        by (bit_vector);
    assert(t < 0x1_0000_0000_0000 ==> t & 0xFFFF_FFFF_FFFF == t) by (bit_vector);
}

/// The parts of a packet, byte by byte.
pub proof fn lemma_packet_layout(t: u64, start_marker: u16, end_marker: u16)
    ensures
        ({
            let p = packet_spec(t, start_marker, end_marker);
            let crc = crc16_spec(timestamp_bytes(t));
            &&& p.len() == 12
            &&& p[0] == high_byte(start_marker)
            &&& p[1] == low_byte(start_marker)
            &&& p.subrange(2, 8) == timestamp_bytes(t)
            &&& p[8] == high_byte(crc)
            &&& p[9] == low_byte(crc)
            &&& p[10] == high_byte(end_marker)
            &&& p[11] == low_byte(end_marker)
        }),
{
    let p = packet_spec(t, start_marker, end_marker);
    assert(timestamp_bytes(t).len() == 6);
    assert(p.subrange(2, 8) =~= timestamp_bytes(t));
}

/// A packet carries the low 48 bits of its timestamp.
pub proof fn lemma_packet_round_trip(t: u64, start_marker: u16, end_marker: u16)
    ensures
        extract_spec(packet_spec(t, start_marker, end_marker), start_marker, end_marker) == Some(
            t & 0xFFFF_FFFF_FFFF,
        ),
        t < 0x1_0000_0000_0000 ==> extract_spec(
            packet_spec(t, start_marker, end_marker),
            start_marker,
            end_marker,
        ) == Some(t),
{
    let crc = crc16_spec(timestamp_bytes(t));
    lemma_packet_layout(t, start_marker, end_marker);
    lemma_be16(0, 0, 0, 0, start_marker);
    lemma_be16(0, 0, 0, 0, end_marker);
    lemma_be16(0, 0, 0, 0, crc);
    lemma_be48(t);
}

/// A packet in which exactly one of the twelve bytes
/// was changed carries no timestamp.
pub proof fn lemma_corrupted_packet_rejected(
    t: u64,
    start_marker: u16,
    end_marker: u16,
    damaged: Seq<u8>,
    j: int,
)
    requires
        damaged.len() == 12,
        0 <= j < 12,
        damaged[j] != packet_spec(t, start_marker, end_marker)[j],
        forall|i: int|
            0 <= i < 12 && i != j ==> damaged[i] == packet_spec(t, start_marker, end_marker)[i],
    ensures
        extract_spec(damaged, start_marker, end_marker) is None,
{
    let p = packet_spec(t, start_marker, end_marker);
    let body = timestamp_bytes(t);
    let crc = crc16_spec(body);
    lemma_packet_layout(t, start_marker, end_marker);
    lemma_be16(damaged[0], damaged[1], p[0], p[1], start_marker);
    lemma_be16(damaged[10], damaged[11], p[10], p[11], end_marker);
    lemma_be16(damaged[8], damaged[9], p[8], p[9], crc);
    let received = damaged.subrange(2, 8);
    if 2 <= j < 8 {
        assert(received[j - 2] == damaged[j]);
        assert(body[j - 2] == p.subrange(2, 8)[j - 2]);
        assert forall|i: int| 0 <= i < 6 && i != j - 2 implies received[i] == body[i] by {
            assert(received[i] == damaged[i + 2]);
            assert(body[i] == p.subrange(2, 8)[i]);
        }
        lemma_crc16_detects_byte_change(0xFFFF, received, body, j - 2);
    } else {
        assert(received =~= body) by {
            assert forall|i: int| 0 <= i < 6 implies received[i] == body[i] by {
                assert(received[i] == damaged[i + 2]);
                assert(body[i] == p.subrange(2, 8)[i]);
            }
        }
    }
}

/// The bits of a byte string spell it again.
pub proof fn lemma_bytes_of_bits(bytes: Seq<u8>)
    ensures
        bytes_of(bits_of(bytes)) == bytes,
{
    let bits = bits_of(bytes);
    assert forall|j: int| 0 <= j < bytes.len() implies pack_msb(bits, 8 * j, 8) == bytes[j] by {
        assert forall|p: int| 8 * j <= p < 8 * j + 8 implies #[trigger] bits[p] == msb_bit(
            bytes[j],
            8,
            (p - 8 * j) as u8,
        ) by {
            assert(p / 8 == j);
            assert(p % 8 == p - 8 * j);
        }
        lemma_pack_eight(bits, 8 * j, bytes[j]);
    }
    assert(bytes_of(bits) =~= bytes);
}

/// Writing part of a row of a cell keeps the length of the plane and
/// sets exactly the pixels written.
pub proof fn lemma_blend_row_pixel(
    data: Seq<u8>,
    stride: int,
    x: int,
    y: int,
    size: int,
    dy: int,
    center: u8,
    edge: u8,
    n: nat,
    px: int,
    py: int,
)
    requires
        0 <= x,
        x + n <= stride,
        0 <= px < stride,
        0 <= offset_of(stride, px, py) < data.len(),
    ensures
        blend_row(data, stride, x, y, size, dy, center, edge, n).len() == data.len(),
        blend_row(data, stride, x, y, size, dy, center, edge, n)[offset_of(stride, px, py)] == if py
            == y + dy && x <= px < x + n {
            cell_pixel(size, px - x, dy, center, edge)
        } else {
            data[offset_of(stride, px, py)]
        },
    decreases n,
{
    if n > 0 {
        lemma_blend_row_pixel(data, stride, x, y, size, dy, center, edge, (n - 1) as nat, px, py);
        if offset_of(stride, x + n - 1, y + dy) == offset_of(stride, px, py) {
            lemma_offset_injective(stride, x + n - 1, y + dy, px, py);
        }
    }
}

/// Writing the first rows of a cell keeps the length of the plane and
/// sets exactly the pixels of those rows.
pub proof fn lemma_blend_cell_pixel(
    data: Seq<u8>,
    stride: int,
    x: int,
    y: int,
    size: int,
    center: u8,
    edge: u8,
    rows: nat,
    px: int,
    py: int,
)
    requires
        0 <= x,
        0 <= size,
        x + size <= stride,
        0 <= px < stride,
        0 <= offset_of(stride, px, py) < data.len(),
    ensures
        blend_cell(data, stride, x, y, size, center, edge, rows).len() == data.len(),
        blend_cell(data, stride, x, y, size, center, edge, rows)[offset_of(stride, px, py)] == if x
            <= px < x + size && y <= py < y + rows {
            cell_pixel(size, px - x, py - y, center, edge)
        } else {
            data[offset_of(stride, px, py)]
        },
    decreases rows,
{
    if rows > 0 {
        let prev = blend_cell(data, stride, x, y, size, center, edge, (rows - 1) as nat);
        lemma_blend_cell_pixel(data, stride, x, y, size, center, edge, (rows - 1) as nat, px, py);
        lemma_blend_row_pixel(
            prev,
            stride,
            x,
            y,
            size,
            rows - 1,
            center,
            edge,
            size as nat,
            px,
            py,
        );
    }
}

/// After stamping into a grid that lies within the rows of the plane, a
/// pixel of the plane in the block of a stamped cell holds the level
/// that the cell gives it, and a pixel in no such block holds what it
/// held before.
pub proof fn lemma_blend_cells_pixel(
    data: Seq<u8>,
    stride: int,
    grid: CellGrid,
    bits: Seq<bool>,
    white: u8,
    black: u8,
    n: nat,
    px: int,
    py: int,
)
    requires
        grid.wf(),
        n <= grid.max_bits(),
        n <= bits.len(),
        grid.x + grid.cols * grid.pitch <= stride,
        0 <= px < stride,
        0 <= offset_of(stride, px, py) < data.len(),
    ensures
        blend_cells(data, stride, grid, bits, white, black, n).len() == data.len(),
        forall|i: int|
            0 <= i < n && #[trigger] grid.covers(i, px, py) ==> blend_cells(
                data,
                stride,
                grid,
                bits,
                white,
                black,
                n,
            )[offset_of(stride, px, py)] == cell_pixel(
                grid.cell as int,
                px - grid.origin_x(i),
                py - grid.origin_y(i),
                level_of(bits[i], white, black),
                CELL_EDGE,
            ),
        (forall|i: int| 0 <= i < n ==> !#[trigger] grid.covers(i, px, py)) ==> blend_cells(
            data,
            stride,
            grid,
            bits,
            white,
            black,
            n,
        )[offset_of(stride, px, py)] == data[offset_of(stride, px, py)],
    decreases n,
{
    if n > 0 {
        let prev = blend_cells(data, stride, grid, bits, white, black, (n - 1) as nat);
        lemma_blend_cells_pixel(data, stride, grid, bits, white, black, (n - 1) as nat, px, py);
        grid.lemma_origin_bounded(n - 1);
        lemma_blend_cell_pixel(
            prev,
            stride,
            grid.origin_x(n - 1),
            grid.origin_y(n - 1),
            grid.cell as int,
            level_of(bits[n - 1], white, black),
            CELL_EDGE,
            grid.cell as nat,
            px,
            py,
        );
        assert forall|i: int| 0 <= i < n && #[trigger] grid.covers(i, px, py) implies blend_cells(
            data,
            stride,
            grid,
            bits,
            white,
            black,
            n,
        )[offset_of(stride, px, py)] == cell_pixel(
            grid.cell as int,
            px - grid.origin_x(i),
            py - grid.origin_y(i),
            level_of(bits[i], white, black),
            CELL_EDGE,
        ) by {
            if grid.covers(n - 1, px, py) {
                grid.lemma_cell_of_pixel(i, px, py);
                grid.lemma_cell_of_pixel(n - 1, px, py);
            }
        }
        if forall|i: int| 0 <= i < n ==> !#[trigger] grid.covers(i, px, py) {
            assert(!grid.covers(n - 1, px, py));
        }
    }
}

/// After stamping into a grid that lies in the plane, with cells of side
/// 3 or more, the pixels of a stamped cell inside its border have the
/// level of the cell's bit as their mean.
pub proof fn lemma_stamped_interior_mean(
    data: Seq<u8>,
    stride: int,
    grid: CellGrid,
    bits: Seq<bool>,
    white: u8,
    black: u8,
    n: nat,
    i: int,
)
    requires
        grid.wf(),
        n <= grid.max_bits(),
        n <= bits.len(),
        grid.lies_in(stride, data.len() as int),
        grid.cell >= 3,
        0 <= i < n,
    ensures
        interior_mean(blend_cells(data, stride, grid, bits, white, black, n), stride, grid, i)
            == Some(level_of(bits[i], white, black) as int),
{
    let out = blend_cells(data, stride, grid, bits, white, black, n);
    let side = grid.cell - 2;
    let x0 = grid.origin_x(i) + 1;
    let y0 = grid.origin_y(i) + 1;
    let v = level_of(bits[i], white, black);
    grid.lemma_cell_in_plane(stride, data.len() as int, i);
    assert forall|px: int, py: int| x0 <= px < x0 + side && y0 <= py < y0 + side implies {
        let o = #[trigger] offset_of(stride, px, py);
        0 <= o < out.len() && out[o] == v
    } by {
        assert(grid.covers(i, px, py));
        lemma_row_order(stride, py, grid.origin_y(i) + grid.cell);
        assert(0 <= py * stride) by (nonlinear_arith)
            requires
                0 <= py,
                0 <= stride,
        ;
        lemma_blend_cells_pixel(data, stride, grid, bits, white, black, n, px, py);
    }
    lemma_uniform_rect(out, stride, x0, y0, side as nat, side as nat, v);
}

impl OptimizedReader {
    /// Whether the reader tells the two center levels apart: the
    /// threshold lies between them, and each lies far enough from it to
    /// count.
    pub open spec fn separates_levels(&self) -> bool {
        &&& CELL_BLACK <= self.threshold < CELL_WHITE
        &&& 100 * (CELL_WHITE - self.threshold) >= 128 * (100 - self.min_confidence_percent)
        &&& 100 * (self.threshold - CELL_BLACK) >= 128 * (100 - self.min_confidence_percent)
    }
}

/// A timestamp stamped on a grid of 96 cells or more that
/// lies in the first plane, with cells of side 3 or more, is read back
/// from the untouched frame, in its low 48 bits, by a reader with the same
/// grid and markers that tells the two center levels apart.
pub proof fn lemma_optimized_round_trip(
    stamper: OptimizedStamper,
    reader: OptimizedReader,
    frame: FrameView,
    t: u64,
    region: StamperConfig,
    window: ReaderConfig,
)
    requires
        stamper.well_formed(),
        frame.wf(),
        !stamper.refuses_frame(frame),
        reader.cell_size == stamper.cell_size,
        reader.grid_width == stamper.grid_width,
        reader.grid_height == stamper.grid_height,
        reader.start_marker == stamper.start_marker,
        reader.end_marker == stamper.end_marker,
        window.x == region.x,
        window.y == region.y,
        stamper.cell_size >= 3,
        stamper.grid(region).max_bits() >= 96,
        stamper.grid(region).lies_in(
            frame.planes[0].stride,
            frame.planes[0].data.len() as int,
        ),
        reader.separates_levels(),
    ensures
        reader.read_spec(stamper.stamp_spec(frame, t, region), window) == Some(
            t & 0xFFFF_FFFF_FFFF,
        ),
        t < 0x1_0000_0000_0000 ==> reader.read_spec(stamper.stamp_spec(frame, t, region), window)
            == Some(t),
{
    let grid = stamper.grid(region);
    let data = frame.planes[0].data;
    let stride = frame.planes[0].stride;
    let packet = packet_spec(t, stamper.start_marker, stamper.end_marker);
    let bits = bits_of(packet);
    let out = blend_cells(data, stride, grid, bits, CELL_WHITE, CELL_BLACK, 96);
    let threshold = reader.threshold as int;
    let percent = reader.min_confidence_percent as int;
    lemma_packet_layout(t, stamper.start_marker, stamper.end_marker);
    assert(reader.grid(window) == grid);
    assert forall|i: int| 0 <= i < 96 implies cell_vote(
        #[trigger] interior_mean(out, stride, grid, i),
        threshold,
        percent,
    ) == Some(bits[i]) by {
        lemma_stamped_interior_mean(data, stride, grid, bits, CELL_WHITE, CELL_BLACK, 96, i);
    }
    assert(read_cells(out, stride, grid, threshold, percent, 96) =~= bits);
    lemma_bytes_of_bits(packet);
    lemma_packet_round_trip(t, stamper.start_marker, stamper.end_marker);
    let after = stamper.stamp_spec(frame, t, region);
    assert(after.planes[0].data == out);
    assert(after.planes[0].stride == stride);
}

} // verus!
