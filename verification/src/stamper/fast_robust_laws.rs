//! What holds of the fast robust profile: a clean payload decodes to its
//! timestamp, one flipped bit in a codeword is corrected, a stamped
//! region reads back, and a frame without contrast is refused.

use crate::bch::{
    bch_data_bits, bch_decode, lemma_bch_corrects_single_flip, lemma_bch_round_trip,
    lemma_codeword_shape, lemma_flip_changes_data_bits,
};
use crate::bits::{lemma_pack_eight, lemma_pack_seven, msb_bit, pack_msb};
use crate::crc::crc8_spec;
use crate::frame::FrameView;
use crate::geometry::CellGrid;
use crate::raster::{
    lemma_bounded_rect, lemma_fill_block_len, lemma_fill_block_pixel, lemma_row_order,
    lemma_uniform_rect, offset_of,
};
use crate::stamper::fast_robust::{
    assemble, below_confidence, cell_mean, confidence_sum, corrected_count, corrected_nibbles,
    corrected_timestamp, decode_payload_spec, encoded_spec, gray_of, mean_confidence, nibble_of,
    nibbles_of, payload_of, read_bits, received, stamp_cells, EncodedView, FastRobustReader,
    FastRobustStamper, ROBUST_BLACK, ROBUST_WHITE,
};
use crate::stamper::traits::{ReaderConfig, StamperConfig};
use vstd::prelude::*;

verus! {

/// A nibble is below 16.
pub proof fn lemma_nibble_bound(t: u64, i: int)
    requires
        0 <= i < 16,
    ensures
        nibble_of(t, i) < 16,
{
    let s = ((15 - i) * 4) as u64;
    assert((((t >> s) & 0xF) as u8) < 16) by (bit_vector);
}

/// The first `k` nibbles of a timestamp spell its `4 * k` high bits.
pub proof fn lemma_assemble_prefix(t: u64, k: nat)
    requires
        1 <= k <= 16,
    ensures
        assemble(nibbles_of(t), k) == t >> ((64 - 4 * k) as u64),
    decreases k,
{
    let ns = nibbles_of(t);
    if k == 1 {
        assert(assemble(ns, 0) == 0);
        assert(ns[0] == nibble_of(t, 0));
        assert(((0u64 << 4) | ((((t >> 60) & 0xF) as u8) as u64)) == t >> 60) by (bit_vector);
    } else {
        lemma_assemble_prefix(t, (k - 1) as nat);
        let s = (64 - 4 * k) as u64;
        let s4 = (64 - 4 * (k - 1)) as u64;
        assert(ns[k - 1] == nibble_of(t, k - 1));
        assert(((15 - (k - 1)) * 4) as u64 == s);
        assert(((t >> s4) << 4) | ((((t >> s) & 0xF) as u8) as u64) == t >> s) by (bit_vector)
            requires
                s <= 56,
                s4 == s + 4,
        ;
    }
}

/// The sixteen nibbles of a timestamp spell the timestamp.
pub proof fn lemma_assemble_nibbles(t: u64)
    ensures
        assemble(nibbles_of(t), 16) == t,
{
    lemma_assemble_prefix(t, 16);
    assert(t >> 0 == t) by (bit_vector);
}

/// Where at most codeword `c` decodes to another nibble than its data
/// bits show, the count of corrections is one or none.
pub proof fn lemma_corrected_count_single(codes: Seq<u8>, n: nat, c: int)
    requires
        forall|i: int|
            0 <= i < n && i != c ==> bch_data_bits(#[trigger] codes[i]) == bch_decode(codes[i]),
    ensures
        corrected_count(codes, n) == if 0 <= c < n && bch_data_bits(codes[c]) != bch_decode(
            codes[c],
        ) {
            1nat
        } else {
            0nat
        },
    decreases n,
{
    if n > 0 {
        lemma_corrected_count_single(codes, (n - 1) as nat, c);
    }
}

/// The bits of an encoded timestamp spell it again.
pub proof fn lemma_received_payload(e: EncodedView)
    requires
        e.codes.len() == 16,
        forall|c: int| 0 <= c < 16 ==> #[trigger] e.codes[c] < 128,
    ensures
        received(payload_of(e)) == e,
{
    let bits = payload_of(e);
    assert forall|c: int| 0 <= c < 16 implies pack_msb(bits, 7 * c, 7) == #[trigger] e.codes[c] by {
        assert forall|p: int| 7 * c <= p < 7 * c + 7 implies #[trigger] bits[p] == msb_bit(
            e.codes[c],
            7,
            (p - 7 * c) as u8,
        ) by {
            assert(p / 7 == c);
            assert(p % 7 == p - 7 * c);
        }
        lemma_pack_seven(bits, 7 * c, e.codes[c]);
    }
    assert forall|p: int| 112 <= p < 120 implies #[trigger] bits[p] == msb_bit(
        e.crc8,
        8,
        (p - 112) as u8,
    ) by {}
    lemma_pack_eight(bits, 112, e.crc8);
    assert(received(bits).codes =~= e.codes);
}

/// A clean payload decodes to its timestamp without a correction, at any
/// confidence that the reader lets pass.
pub proof fn lemma_payload_round_trip(t: u64, confidence: int, min_percent: int)
    requires
        !below_confidence(confidence, min_percent),
    ensures
        received(payload_of(encoded_spec(t))) == encoded_spec(t),
        corrected_timestamp(encoded_spec(t).codes) == t,
        corrected_count(encoded_spec(t).codes, 16) == 0,
        decode_payload_spec(received(payload_of(encoded_spec(t))), confidence, min_percent) == Some(
            t,
        ),
{
    let e = encoded_spec(t);
    assert forall|c: int| 0 <= c < 16 implies #[trigger] e.codes[c] < 128 && bch_decode(e.codes[c])
        == nibble_of(t, c) && bch_data_bits(e.codes[c]) == bch_decode(e.codes[c]) by {
        lemma_nibble_bound(t, c);
        lemma_codeword_shape(nibble_of(t, c));
        lemma_bch_round_trip(nibble_of(t, c));
    }
    lemma_received_payload(e);
    assert(corrected_nibbles(e.codes) =~= nibbles_of(t));
    lemma_assemble_nibbles(t);
    lemma_corrected_count_single(e.codes, 16, -1);
}

/// One flipped bit in one of the sixteen codewords, the others and the
/// checksum untouched: the payload still decodes to its timestamp and the
/// checksum matches. A flipped data bit counts as one correction; a
/// flipped parity bit leaves the data bits as they were and counts as
/// none.
pub proof fn lemma_single_flip_corrected(
    t: u64,
    c: int,
    bit: u8,
    confidence: int,
    min_percent: int,
)
    requires
        0 <= c < 16,
        bit < 7,
        !below_confidence(confidence, min_percent),
    ensures
        ({
            let e = encoded_spec(t);
            let damaged = EncodedView {
                codes: e.codes.update(c, e.codes[c] ^ (1u8 << bit)),
                crc8: e.crc8,
            };
            &&& corrected_timestamp(damaged.codes) == t
            &&& crc8_spec(corrected_timestamp(damaged.codes)) == damaged.crc8
            &&& corrected_count(damaged.codes, 16) == if bit >= 3 {
                1nat
            } else {
                0nat
            }
            &&& decode_payload_spec(damaged, confidence, min_percent) == Some(t)
        }),
{
    let e = encoded_spec(t);
    let codes = e.codes.update(c, e.codes[c] ^ (1u8 << bit));
    assert forall|i: int| 0 <= i < 16 implies bch_decode(#[trigger] codes[i]) == nibble_of(t, i)
        && (i != c ==> bch_data_bits(codes[i]) == bch_decode(codes[i])) by {
        lemma_nibble_bound(t, i);
        lemma_bch_round_trip(nibble_of(t, i));
        if i == c {
            lemma_bch_corrects_single_flip(nibble_of(t, i), bit);
        }
    }
    lemma_nibble_bound(t, c);
    lemma_flip_changes_data_bits(nibble_of(t, c), bit);
    assert(corrected_nibbles(codes) =~= nibbles_of(t));
    lemma_assemble_nibbles(t);
    lemma_corrected_count_single(codes, 16, c);
}

/// Stamping keeps the length of a plane.
pub proof fn lemma_stamp_cells_len(
    data: Seq<u8>,
    stride: int,
    grid: CellGrid,
    bits: Seq<bool>,
    n: nat,
)
    ensures
        stamp_cells(data, stride, grid, bits, n).len() == data.len(),
    decreases n,
{
    if n > 0 {
        lemma_stamp_cells_len(data, stride, grid, bits, (n - 1) as nat);
        lemma_fill_block_len(
            stamp_cells(data, stride, grid, bits, (n - 1) as nat),
            stride,
            grid.origin_x(n - 1),
            grid.origin_y(n - 1),
            grid.cell as int,
            grid.cell as nat,
            gray_of(bits[n - 1]),
        );
    }
}

/// After stamping into a grid that lies in the plane, a pixel in the
/// block of a stamped cell holds the gray level of the cell's bit, and a
/// pixel in no such block holds what it held before.
pub proof fn lemma_stamp_cells_pixel(
    data: Seq<u8>,
    stride: int,
    grid: CellGrid,
    bits: Seq<bool>,
    n: nat,
    px: int,
    py: int,
)
    requires
        grid.wf(),
        n <= grid.max_bits(),
        n <= bits.len(),
        grid.lies_in(stride, data.len() as int),
        0 <= px < stride,
        0 <= py,
        offset_of(stride, px, py) < data.len(),
    ensures
        forall|i: int|
            0 <= i < n && #[trigger] grid.covers(i, px, py) ==> stamp_cells(
                data,
                stride,
                grid,
                bits,
                n,
            )[offset_of(stride, px, py)] == gray_of(bits[i]),
        (forall|i: int| 0 <= i < n ==> !#[trigger] grid.covers(i, px, py)) ==> stamp_cells(
            data,
            stride,
            grid,
            bits,
            n,
        )[offset_of(stride, px, py)] == data[offset_of(stride, px, py)],
    decreases n,
{
    if n > 0 {
        let prev = stamp_cells(data, stride, grid, bits, (n - 1) as nat);
        lemma_stamp_cells_len(data, stride, grid, bits, (n - 1) as nat);
        lemma_stamp_cells_pixel(data, stride, grid, bits, (n - 1) as nat, px, py);
        grid.lemma_cell_in_plane(stride, data.len() as int, n - 1);
        lemma_fill_block_pixel(
            prev,
            stride,
            grid.origin_x(n - 1),
            grid.origin_y(n - 1),
            grid.cell as int,
            grid.cell as nat,
            gray_of(bits[n - 1]),
            px,
            py,
        );
        assert forall|i: int| 0 <= i < n && #[trigger] grid.covers(i, px, py) implies stamp_cells(
            data,
            stride,
            grid,
            bits,
            n,
        )[offset_of(stride, px, py)] == gray_of(bits[i]) by {
            if grid.covers(n - 1, px, py) {
                grid.lemma_cell_of_pixel(i, px, py);
                grid.lemma_cell_of_pixel(n - 1, px, py);
            }
        }
        if forall|i: int| 0 <= i < n ==> !#[trigger] grid.covers(i, px, py) {
            assert(!grid.covers(n - 1, px, py));
        }
    }
}

/// After stamping into a grid that lies in the plane, with blocks of side
/// 2 or more, the samples of a stamped cell have the gray level of the
/// cell's bit as their mean.
pub proof fn lemma_stamped_cell_mean(
    data: Seq<u8>,
    stride: int,
    grid: CellGrid,
    bits: Seq<bool>,
    n: nat,
    i: int,
)
    requires
        grid.wf(),
        n <= grid.max_bits(),
        n <= bits.len(),
        grid.lies_in(stride, data.len() as int),
        grid.cell >= 2,
        0 <= i < n,
    ensures
        cell_mean(stamp_cells(data, stride, grid, bits, n), stride, grid, i) == Some(
            gray_of(bits[i]) as int,
        ),
{
    let out = stamp_cells(data, stride, grid, bits, n);
    let half = grid.cell as int / 2;
    let k = if half < 2 {
        half
    } else {
        2
    };
    let x0 = grid.origin_x(i) + half;
    let y0 = grid.origin_y(i) + half;
    let v = gray_of(bits[i]);
    lemma_stamp_cells_len(data, stride, grid, bits, n);
    grid.lemma_cell_in_plane(stride, data.len() as int, i);
    assert forall|px: int, py: int| x0 <= px < x0 + k && y0 <= py < y0 + k implies {
        let o = #[trigger] offset_of(stride, px, py);
        0 <= o < out.len() && out[o] == v
    } by {
        assert(grid.covers(i, px, py));
        lemma_row_order(stride, py, grid.origin_y(i) + grid.cell);
        assert(0 <= py * stride) by (nonlinear_arith)
            requires
                0 <= py,
                0 <= stride,
        ;
        lemma_stamp_cells_pixel(data, stride, grid, bits, n, px, py);
    }
    lemma_uniform_rect(out, stride, x0, y0, k as nat, k as nat, v);
}

impl FastRobustReader {
    /// The least confidence, in 128ths, of a cell that holds one of the
    /// two gray levels: the distance of the threshold from the nearer
    /// one.
    pub open spec fn margin(&self) -> int {
        if ROBUST_WHITE - self.threshold < self.threshold - ROBUST_BLACK {
            ROBUST_WHITE - self.threshold
        } else {
            self.threshold - ROBUST_BLACK
        }
    }

    /// Whether the reader tells the two gray levels apart and lets a
    /// frame of clean cells pass.
    pub open spec fn separates_grays(&self) -> bool {
        &&& ROBUST_BLACK <= self.threshold < ROBUST_WHITE
        &&& 100 * self.margin() >= 128 * self.min_confidence_percent
    }
}

/// The sum of the confidences of cells that each have at least `margin`
/// is at least `n * margin`; of cells that each have at most `cap`, at
/// most `n * cap`.
pub proof fn lemma_confidence_sum_bounds(
    data: Seq<u8>,
    stride: int,
    grid: CellGrid,
    threshold: int,
    n: nat,
    margin: int,
    cap: int,
)
    requires
        forall|i: int|
            0 <= i < n ==> margin <= #[trigger] mean_confidence(
                cell_mean(data, stride, grid, i),
                threshold,
            ) <= cap,
    ensures
        n * margin <= confidence_sum(data, stride, grid, threshold, n) <= n * cap,
    decreases n,
{
    if n > 0 {
        lemma_confidence_sum_bounds(data, stride, grid, threshold, (n - 1) as nat, margin, cap);
        assert(n * margin == (n - 1) * margin + margin && n * cap == (n - 1) * cap + cap)
            by (nonlinear_arith);
    } else {
        assert(n * margin == 0 && n * cap == 0) by (nonlinear_arith)
            requires
                n == 0,
        ;
    }
}

/// A timestamp stamped into a region that holds all 120 bits
/// and lies in the first plane, with blocks of side 2 or more, is read
/// back from the untouched frame by a reader with the same geometry that
/// tells the two gray levels apart.
pub proof fn lemma_fast_robust_round_trip(
    stamper: FastRobustStamper,
    reader: FastRobustReader,
    frame: FrameView,
    t: u64,
    region: StamperConfig,
    window: ReaderConfig,
)
    requires
        stamper.well_formed(),
        frame.wf(),
        reader.block_size == stamper.block_size,
        reader.guard_pixels == stamper.guard_pixels,
        window.x == region.x,
        window.y == region.y,
        window.width == region.width,
        window.height == region.height,
        stamper.block_size >= 2,
        stamper.grid(region).max_bits() >= 120,
        region.x + region.width <= frame.planes[0].stride,
        (region.y + region.height) * frame.planes[0].stride <= frame.planes[0].data.len(),
        reader.separates_grays(),
    ensures
        reader.decode_spec(stamper.stamp_pixels_spec(frame, encoded_spec(t), region), window)
            == Some(t),
{
    let grid = stamper.grid(region);
    let data = frame.planes[0].data;
    let stride = frame.planes[0].stride;
    let e = encoded_spec(t);
    let bits = payload_of(e);
    let out = stamp_cells(data, stride, grid, bits, 120);
    let threshold = reader.threshold as int;
    CellGrid::lemma_of_region(
        region.x,
        region.y,
        region.width,
        region.height,
        stamper.block_size,
        stamper.guard_pixels,
    );
    assert(reader.grid(window) == grid);
    let bottom = grid.y + grid.rows * grid.pitch;
    assert(bottom * stride <= (region.y + region.height) * stride) by (nonlinear_arith)
        requires
            bottom <= region.y + region.height,
            0 <= stride,
    ;
    assert(grid.lies_in(stride, data.len() as int));
    assert forall|i: int| 0 <= i < 120 implies #[trigger] cell_mean(out, stride, grid, i) == Some(
        gray_of(bits[i]) as int,
    ) by {
        lemma_stamped_cell_mean(data, stride, grid, bits, 120, i);
    }
    assert(read_bits(out, stride, grid, threshold) =~= bits);
    assert forall|i: int| 0 <= i < 120 implies reader.margin() <= #[trigger] mean_confidence(
        cell_mean(out, stride, grid, i),
        threshold,
    ) <= 128 by {
        assert(cell_mean(out, stride, grid, i) == Some(gray_of(bits[i]) as int));
    }
    lemma_confidence_sum_bounds(out, stride, grid, threshold, 120, reader.margin(), 128);
    let confidence = confidence_sum(out, stride, grid, threshold, 120);
    lemma_payload_round_trip(t, confidence, reader.min_confidence_percent as int);
    let after = stamper.stamp_pixels_spec(frame, e, region);
    assert(after.planes[0].data == out);
    assert(after.planes[0].stride == stride);
}

/// Where every byte of the first plane lies within one
/// level of the threshold, a reader that asks for any confidence at all
/// returns nothing, whatever bits the cells would show.
pub proof fn lemma_low_contrast_rejected(
    reader: FastRobustReader,
    frame: FrameView,
    window: ReaderConfig,
)
    requires
        reader.min_confidence_percent >= 1,
        forall|o: int|
            0 <= o < frame.planes[0].data.len() ==> reader.threshold - 1
                <= #[trigger] frame.planes[0].data[o] <= reader.threshold + 1,
    ensures
        reader.decode_spec(frame, window) is None,
{
    let grid = reader.grid(window);
    let data = frame.planes[0].data;
    let stride = frame.planes[0].stride;
    let threshold = reader.threshold as int;
    assert forall|i: int| 0 <= i < 120 implies 0 <= #[trigger] mean_confidence(
        cell_mean(data, stride, grid, i),
        threshold,
    ) <= 1 by {
        let half = grid.cell as int / 2;
        let k = if half < 2 {
            half
        } else {
            2
        };
        lemma_bounded_rect(
            data,
            stride,
            grid.origin_x(i) + half,
            grid.origin_y(i) + half,
            k as nat,
            k as nat,
            threshold - 1,
            threshold + 1,
        );
    }
    lemma_confidence_sum_bounds(data, stride, grid, threshold, 120, 0, 1);
}

/// Where the grid of a region holds fewer than 120
/// bits, the stamper writes one block for each bit that the grid holds
/// and no more, the plane keeps its length, and a reader with the same
/// geometry returns nothing for the region, whatever the frame holds.
pub proof fn lemma_undersized_region(
    stamper: FastRobustStamper,
    reader: FastRobustReader,
    frame: FrameView,
    e: EncodedView,
    region: StamperConfig,
    window: ReaderConfig,
)
    requires
        frame.wf(),
        reader.block_size == stamper.block_size,
        reader.guard_pixels == stamper.guard_pixels,
        window.x == region.x,
        window.y == region.y,
        window.width == region.width,
        window.height == region.height,
        stamper.grid(region).max_bits() < 120,
    ensures
        stamper.bits_written(region) == stamper.grid(region).max_bits(),
        stamper.stamp_pixels_spec(frame, e, region).planes[0].data == stamp_cells(
            frame.planes[0].data,
            frame.planes[0].stride,
            stamper.grid(region),
            payload_of(e),
            stamper.grid(region).max_bits() as nat,
        ),
        stamper.stamp_pixels_spec(frame, e, region).planes[0].data.len()
            == frame.planes[0].data.len(),
        reader.decode_spec(frame, window) is None,
{
    let grid = stamper.grid(region);
    assert(reader.grid(window) == grid);
    assert(0 <= grid.cols * grid.rows) by (nonlinear_arith)
        requires
            0 <= grid.cols,
            0 <= grid.rows,
    ;
    lemma_stamp_cells_len(
        frame.planes[0].data,
        frame.planes[0].stride,
        stamper.grid(region),
        payload_of(e),
        stamper.bits_written(region),
    );
}

} // verus!
