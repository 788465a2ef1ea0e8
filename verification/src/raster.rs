//! Writing and sampling blocks of pixels in one byte plane. A pixel
//! `(x, y)` of a plane lies at byte `y * stride + x`; a write beyond the
//! plane is skipped and a sample beyond it is left out.

use vstd::prelude::*;

verus! {

/// Pixel coordinates handed to this module stay below this limit.
pub const COORD_LIMIT: u64 = 0x4_0000_0000;

/// The byte of a plane at which pixel `(x, y)` lies.
pub open spec fn offset_of(stride: int, x: int, y: int) -> int {
    y * stride + x
}

/// `data` with the `len` bytes from `start` set to `v`, if they all lie in
/// the plane; else `data`.
pub open spec fn fill_span(data: Seq<u8>, start: int, len: int, v: u8) -> Seq<u8> {
    if 0 <= start && start + len <= data.len() {
        Seq::new(data.len(), |p: int| if start <= p < start + len { v } else { data[p] })
    } else {
        data
    }
}

/// `data` after the first `rows` rows of the block of side `size` at
/// `(x, y)` were filled with `v`, top row first. A row that does not lie
/// wholly in the plane is left as it is.
pub open spec fn fill_block_spec(
    data: Seq<u8>,
    stride: int,
    x: int,
    y: int,
    size: int,
    rows: nat,
    v: u8,
) -> Seq<u8>
    decreases rows,
{
    if rows == 0 {
        data
    } else {
        fill_span(
            fill_block_spec(data, stride, x, y, size, (rows - 1) as nat, v),
            offset_of(stride, x, y + rows - 1),
            size,
            v,
        )
    }
}

/// The value that a sample at byte `off` adds to a sum: the byte, or
/// nothing beyond the plane.
pub open spec fn sample_value(data: Seq<u8>, off: int) -> int {
    if 0 <= off < data.len() {
        data[off] as int
    } else {
        0
    }
}

/// What a sample at byte `off` adds to a count.
pub open spec fn sample_hit(data: Seq<u8>, off: int) -> int {
    if 0 <= off < data.len() {
        1
    } else {
        0
    }
}

/// The sum of the samples `(x, y) .. (x + w, y)` that lie in the plane.
pub open spec fn span_sum(data: Seq<u8>, stride: int, x: int, y: int, w: nat) -> int
    decreases w,
{
    if w == 0 {
        0
    } else {
        span_sum(data, stride, x, y, (w - 1) as nat) + sample_value(
            data,
            offset_of(stride, x + w - 1, y),
        )
    }
}

/// The number of the samples `(x, y) .. (x + w, y)` that lie in the plane.
pub open spec fn span_count(data: Seq<u8>, stride: int, x: int, y: int, w: nat) -> int
    decreases w,
{
    if w == 0 {
        0
    } else {
        span_count(data, stride, x, y, (w - 1) as nat) + sample_hit(
            data,
            offset_of(stride, x + w - 1, y),
        )
    }
}

/// The sum of the samples of the rectangle of `w` by `h` pixels at
/// `(x, y)` that lie in the plane.
pub open spec fn rect_sum(data: Seq<u8>, stride: int, x: int, y: int, w: nat, h: nat) -> int
    decreases h,
{
    if h == 0 {
        0
    } else {
        rect_sum(data, stride, x, y, w, (h - 1) as nat) + span_sum(data, stride, x, y + h - 1, w)
    }
}

/// The number of the samples of the rectangle of `w` by `h` pixels at
/// `(x, y)` that lie in the plane.
pub open spec fn rect_count(data: Seq<u8>, stride: int, x: int, y: int, w: nat, h: nat) -> int
    decreases h,
{
    if h == 0 {
        0
    } else {
        rect_count(data, stride, x, y, w, (h - 1) as nat) + span_count(
            data,
            stride,
            x,
            y + h - 1,
            w,
        )
    }
}

/// The mean of a rectangle's samples, rounded down; `None` where no
/// sample lies in the plane.
pub open spec fn rect_mean(data: Seq<u8>, stride: int, x: int, y: int, w: nat, h: nat) -> Option<
    int,
> {
    let count = rect_count(data, stride, x, y, w, h);
    if count > 0 {
        Some(rect_sum(data, stride, x, y, w, h) / count)
    } else {
        None
    }
}

/// Computes the byte at which a pixel lies.
pub fn plane_offset(stride: usize, x: u64, y: u64) -> (off: u128)
    requires
        x <= COORD_LIMIT,
        y <= COORD_LIMIT,
    ensures
        off == offset_of(stride as int, x as int, y as int),
        off <= COORD_LIMIT * 0xFFFF_FFFF_FFFF_FFFF + COORD_LIMIT,
{
    assert(y * stride <= COORD_LIMIT * 0xFFFF_FFFF_FFFF_FFFF) by (nonlinear_arith)
        requires
            y <= COORD_LIMIT,
            stride <= 0xFFFF_FFFF_FFFF_FFFF,
    ;
    (y as u128) * (stride as u128) + (x as u128)
}

/// Fills the block of side `size` at `(x, y)` with `value`, row by row.
pub fn fill_block(data: &mut Vec<u8>, stride: usize, x: u64, y: u64, size: u64, value: u8)
    requires
        x + size <= COORD_LIMIT,
        y + size <= COORD_LIMIT,
    ensures
        final(data)@ == fill_block_spec(
            old(data)@,
            stride as int,
            x as int,
            y as int,
            size as int,
            size as nat,
            value,
        ),
{
    let mut row: u64 = 0;
    while row < size
        invariant
            row <= size,
            x + size <= COORD_LIMIT,
            y + size <= COORD_LIMIT,
            data@ == fill_block_spec(
                old(data)@,
                stride as int,
                x as int,
                y as int,
                size as int,
                row as nat,
                value,
            ),
        decreases size - row,
    {
        let row_start = plane_offset(stride, x, y + row);
        let row_end = row_start + size as u128;
        let ghost before = data@;
        if row_end <= data.len() as u128 {
            let end = row_end as usize;
            let mut p = row_start as usize;
            while p < end
                invariant
                    row_start <= p <= end,
                    end == row_end,
                    end <= data.len(),
                    data@.len() == before.len(),
                    forall|q: int|
                        0 <= q < data@.len() ==> data@[q] == if row_start <= q < p {
                            value
                        } else {
                            before[q]
                        },
                decreases end - p,
            {
                data[p] = value;
                p += 1;
            }
        }
        proof {
            assert(data@ =~= fill_span(before, row_start as int, size as int, value));
        }
        row += 1;
    }
}

/// Sums and counts the samples of the rectangle of `w` by `h` pixels at
/// `(x, y)` that lie in the plane.
pub fn sample_rect(data: &Vec<u8>, stride: usize, x: u64, y: u64, w: u64, h: u64) -> (r: (
    u128,
    u128,
))
    requires
        x + w <= COORD_LIMIT,
        y + h <= COORD_LIMIT,
    ensures
        r.0 == rect_sum(data@, stride as int, x as int, y as int, w as nat, h as nat),
        r.1 == rect_count(data@, stride as int, x as int, y as int, w as nat, h as nat),
        r.0 <= 255 * r.1,
        r.1 <= w * h,
{
    let mut sum: u128 = 0;
    let mut count: u128 = 0;
    let mut dy: u64 = 0;
    while dy < h
        invariant
            dy <= h,
            x + w <= COORD_LIMIT,
            y + h <= COORD_LIMIT,
            sum == rect_sum(data@, stride as int, x as int, y as int, w as nat, dy as nat),
            count == rect_count(data@, stride as int, x as int, y as int, w as nat, dy as nat),
            sum <= 255 * count,
            count <= w * dy,
        decreases h - dy,
    {
        let ghost sum0 = sum;
        let ghost count0 = count;
        let mut dx: u64 = 0;
        proof {
            assert(w * dy <= COORD_LIMIT * COORD_LIMIT) by (nonlinear_arith)
                requires
                    dy <= COORD_LIMIT,
                    w <= COORD_LIMIT,
            ;
        }
        while dx < w
            invariant
                dx <= w,
                dy < h,
                x + w <= COORD_LIMIT,
                y + h <= COORD_LIMIT,
                sum == sum0 + span_sum(data@, stride as int, x as int, y + dy, dx as nat),
                count == count0 + span_count(data@, stride as int, x as int, y + dy, dx as nat),
                sum <= 255 * count,
                count <= count0 + dx,
                count0 <= COORD_LIMIT * COORD_LIMIT,
            decreases w - dx,
        {
            let idx = plane_offset(stride, x + dx, y + dy);
            if idx < data.len() as u128 {
                sum += data[idx as usize] as u128;
                count += 1;
            }
            dx += 1;
        }
        proof {
            assert(w * (dy + 1) == w * dy + w) by (nonlinear_arith);
        }
        dy += 1;
    }
    (sum, count)
}

/// Rows of a plane do not interleave: a pixel of an earlier row lies
/// before every pixel of a later row.
pub proof fn lemma_row_order(stride: int, y0: int, y1: int)
    requires
        0 <= stride,
        y0 < y1,
    ensures
        y0 * stride + stride <= y1 * stride,
{
    assert(y0 * stride + stride <= y1 * stride) by (nonlinear_arith)
        requires
            0 <= stride,
            y0 + 1 <= y1,
    ;
}

/// Within the rows of a plane, two pixels that lie at one byte are one
/// pixel.
pub proof fn lemma_offset_injective(stride: int, x1: int, y1: int, x2: int, y2: int)
    requires
        0 <= x1 < stride,
        0 <= x2 < stride,
        offset_of(stride, x1, y1) == offset_of(stride, x2, y2),
    ensures
        x1 == x2,
        y1 == y2,
{
    if y1 < y2 {
        lemma_row_order(stride, y1, y2);
    } else if y2 < y1 {
        lemma_row_order(stride, y2, y1);
    }
}

/// Filling a block keeps the length of a plane.
pub proof fn lemma_fill_block_len(
    data: Seq<u8>,
    stride: int,
    x: int,
    y: int,
    size: int,
    rows: nat,
    v: u8,
)
    ensures
        fill_block_spec(data, stride, x, y, size, rows, v).len() == data.len(),
    decreases rows,
{
    if rows > 0 {
        lemma_fill_block_len(data, stride, x, y, size, (rows - 1) as nat, v);
    }
}

/// Where a block lies within the rows of a plane and the plane holds all
/// of its rows, filling it sets exactly the pixels of the block: pixel
/// `(px, py)` holds `v` if it lies in the block, and what it held before
/// if not.
pub proof fn lemma_fill_block_pixel(
    data: Seq<u8>,
    stride: int,
    x: int,
    y: int,
    size: int,
    rows: nat,
    v: u8,
    px: int,
    py: int,
)
    requires
        0 <= x,
        0 <= y,
        0 <= size,
        x + size <= stride,
        (y + rows) * stride <= data.len(),
        0 <= px < stride,
        0 <= py,
        offset_of(stride, px, py) < data.len(),
    ensures
        fill_block_spec(data, stride, x, y, size, rows, v)[offset_of(stride, px, py)] == if x <= px
            < x + size && y <= py < y + rows {
            v
        } else {
            data[offset_of(stride, px, py)]
        },
    decreases rows,
{
    if rows > 0 {
        let prev = fill_block_spec(data, stride, x, y, size, (rows - 1) as nat, v);
        let y0 = y + rows - 1;
        let start = offset_of(stride, x, y0);
        assert((y + rows - 1) * stride + stride == (y + rows) * stride) by (nonlinear_arith);
        assert(0 <= y0 * stride) by (nonlinear_arith)
            requires
                0 <= y0,
                0 <= stride,
        ;
        lemma_fill_block_len(data, stride, x, y, size, (rows - 1) as nat, v);
        lemma_fill_block_pixel(data, stride, x, y, size, (rows - 1) as nat, v, px, py);
        let p = offset_of(stride, px, py);
        assert(0 <= py * stride) by (nonlinear_arith)
            requires
                0 <= py,
                0 <= stride,
        ;
        if py < y0 {
            lemma_row_order(stride, py, y0);
        } else if py > y0 {
            lemma_row_order(stride, y0, py);
        }
    }
}

/// A rectangle whose pixels all lie in the plane and all hold `v` has
/// `w * h` samples that sum to `w * h * v`.
pub proof fn lemma_uniform_span(data: Seq<u8>, stride: int, x: int, y: int, w: nat, v: u8)
    requires
        forall|px: int|
            x <= px < x + w ==> {
                let o = #[trigger] offset_of(stride, px, y);
                0 <= o < data.len() && data[o] == v
            },
    ensures
        span_sum(data, stride, x, y, w) == w * v,
        span_count(data, stride, x, y, w) == w,
    decreases w,
{
    if w > 0 {
        lemma_uniform_span(data, stride, x, y, (w - 1) as nat, v);
        let o = offset_of(stride, x + w - 1, y);
        assert(0 <= o < data.len() && data[o] == v);
        assert(w * v == (w - 1) * v + v) by (nonlinear_arith);
    } else {
        assert(w * v == 0) by (nonlinear_arith)
            requires
                w == 0,
        ;
    }
}

/// A rectangle whose pixels all lie in the plane and all hold `v` has
/// mean `v`.
pub proof fn lemma_uniform_rect(data: Seq<u8>, stride: int, x: int, y: int, w: nat, h: nat, v: u8)
    requires
        forall|px: int, py: int|
            x <= px < x + w && y <= py < y + h ==> {
                let o = #[trigger] offset_of(stride, px, py);
                0 <= o < data.len() && data[o] == v
            },
    ensures
        rect_sum(data, stride, x, y, w, h) == (w * h) * v,
        rect_count(data, stride, x, y, w, h) == w * h,
        w > 0 && h > 0 ==> rect_mean(data, stride, x, y, w, h) == Some(v as int),
    decreases h,
{
    if h > 0 {
        lemma_uniform_rect(data, stride, x, y, w, (h - 1) as nat, v);
        assert forall|px: int| x <= px < x + w implies {
            let o = #[trigger] offset_of(stride, px, y + h - 1);
            0 <= o < data.len() && data[o] == v
        } by {}
        lemma_uniform_span(data, stride, x, y + h - 1, w, v);
        assert((w * h) * v == (w * (h - 1)) * v + w * v) by (nonlinear_arith);
        assert(w * h == w * (h - 1) + w) by (nonlinear_arith);
        if w > 0 {
            assert(w * h > 0) by (nonlinear_arith)
                requires
                    w > 0,
                    h > 0,
            ;
            assert(((w * h) * v) / ((w * h) as int) == v) by (nonlinear_arith)
                requires
                    w * h > 0,
            ;
        }
    } else {
        assert(w * h == 0 && (w * h) * v == 0) by (nonlinear_arith)
            requires
                h == 0,
        ;
    }
}

/// The samples of a span that lie in the plane and hold values between
/// `lo` and `hi` sum to between `lo` and `hi` times their number.
pub proof fn lemma_bounded_span(data: Seq<u8>, stride: int, x: int, y: int, w: nat, lo: int, hi: int)
    requires
        forall|o: int| 0 <= o < data.len() ==> lo <= #[trigger] data[o] <= hi,
    ensures
        0 <= span_count(data, stride, x, y, w),
        lo * span_count(data, stride, x, y, w) <= span_sum(data, stride, x, y, w) <= hi
            * span_count(data, stride, x, y, w),
    decreases w,
{
    if w > 0 {
        lemma_bounded_span(data, stride, x, y, (w - 1) as nat, lo, hi);
        let c = span_count(data, stride, x, y, (w - 1) as nat);
        assert(lo * (c + 1) == lo * c + lo && hi * (c + 1) == hi * c + hi) by (nonlinear_arith);
    } else {
        assert(lo * 0 == 0 && hi * 0 == 0) by (nonlinear_arith);
    }
}

/// Where every byte of a plane lies between `lo` and `hi`, so does the
/// mean of any rectangle that has a sample in the plane.
pub proof fn lemma_bounded_rect(
    data: Seq<u8>,
    stride: int,
    x: int,
    y: int,
    w: nat,
    h: nat,
    lo: int,
    hi: int,
)
    requires
        forall|o: int| 0 <= o < data.len() ==> lo <= #[trigger] data[o] <= hi,
    ensures
        0 <= rect_count(data, stride, x, y, w, h),
        lo * rect_count(data, stride, x, y, w, h) <= rect_sum(data, stride, x, y, w, h) <= hi
            * rect_count(data, stride, x, y, w, h),
        match rect_mean(data, stride, x, y, w, h) {
            Some(avg) => lo <= avg <= hi,
            None => true,
        },
    decreases h,
{
    if h > 0 {
        lemma_bounded_rect(data, stride, x, y, w, (h - 1) as nat, lo, hi);
        lemma_bounded_span(data, stride, x, y + h - 1, w, lo, hi);
        let c0 = rect_count(data, stride, x, y, w, (h - 1) as nat);
        let c1 = span_count(data, stride, x, y + h - 1, w);
        assert(lo * (c0 + c1) == lo * c0 + lo * c1 && hi * (c0 + c1) == hi * c0 + hi * c1)
            by (nonlinear_arith);
    } else {
        assert(lo * 0 == 0 && hi * 0 == 0) by (nonlinear_arith);
    }
    let c = rect_count(data, stride, x, y, w, h);
    let s = rect_sum(data, stride, x, y, w, h);
    if c > 0 {
        assert(lo <= s / c <= hi) by (nonlinear_arith)
            requires
                c > 0,
                lo * c <= s <= hi * c,
        ;
    }
}

} // verus!
