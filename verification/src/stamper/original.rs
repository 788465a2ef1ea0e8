//! The plain profile: the eight bytes of a timestamp, most significant
//! first, as an 8x8 grid of black and white stretched over the region;
//! bit `c` of byte `r` is cell `(r, c)`. No redundancy.

use crate::bits::{pack_msb, pack_word};
use crate::frame::{
    CodecError, Component, FormatFlags, Frame, FrameView, PlaneView, MAX_SUBSAMPLING,
};
use crate::raster::COORD_LIMIT;
use crate::stamper::get_fill_values;
use crate::stamper::traits::{
    ReaderConfig, StamperConfig, StamperType, TimestampReader, TimestampStamper,
};
use vstd::arithmetic::power2::{lemma2_to64, lemma_pow2_pos, lemma_pow2_strictly_increases, pow2};
use vstd::bits::{lemma_u64_pow2_no_overflow, lemma_u64_shl_is_mul};
use vstd::prelude::*;

verus! {

/// The row or column of the 8x8 grid that pixel `i` of an extent of
/// `extent` pixels falls into: the cell whose center is nearest to the
/// center of the pixel, `round((i + 1/2) * 8 / extent - 1/2)` with halves
/// rounded up, which is `(8 * i + 4) / extent` rounded down, and at most
/// 7.
pub open spec fn grid_coord(i: int, extent: int) -> int {
    if (8 * i + 4) / extent < 7 {
        (8 * i + 4) / extent
    } else {
        7
    }
}

/// Bit `c` of byte `r` of a timestamp, byte 0 being the most significant
/// and bit 0 the least.
pub open spec fn time_code_bit(t: u64, r: int, c: int) -> bool {
    (t >> ((8 * (7 - r) + c) as u64)) & 1 == 1
}

/// A coordinate in a plane subsampled by `2^factor`, rounded up.
pub open spec fn sub_scale_spec(val: int, factor: nat) -> int {
    (val + pow2(factor) - 1) / (pow2(factor) as int)
}

/// The byte of its plane at which a component of pixel `(col, row)` lies.
pub open spec fn sample_offset(comp: Component, stride: int, row: int, col: int) -> int {
    sub_scale_spec(row, comp.h_sub as nat) * stride + sub_scale_spec(col, comp.w_sub as nat)
        * comp.pixel_stride + comp.poffset
}

/// Whether a component of pixel `(col, row)` lies in its plane.
pub open spec fn sample_in_plane(planes: Seq<PlaneView>, comp: Component, row: int, col: int)
    -> bool {
    0 <= sample_offset(comp, planes[comp.plane as int].stride, row, col) < planes[comp.plane
        as int].data.len()
}

/// The value of a component of pixel `(col, row)`.
pub open spec fn sample_at(planes: Seq<PlaneView>, comp: Component, row: int, col: int) -> u8 {
    planes[comp.plane as int].data[sample_offset(comp, planes[comp.plane as int].stride, row, col)]
}

/// The planes with a component of pixel `(col, row)` set to `v`, if it
/// lies in its plane.
pub open spec fn put_sample(planes: Seq<PlaneView>, comp: Component, row: int, col: int, v: u8)
    -> Seq<PlaneView> {
    if sample_in_plane(planes, comp, row, col) {
        let plane = planes[comp.plane as int];
        planes.update(
            comp.plane as int,
            PlaneView {
                stride: plane.stride,
                data: plane.data.update(sample_offset(comp, plane.stride, row, col), v),
            },
        )
    } else {
        planes
    }
}

/// The planes after the first `m` components of pixel `(col, row)` were
/// set to their fill values.
pub open spec fn stamp_pixel_spec(
    planes: Seq<PlaneView>,
    comps: Seq<Component>,
    row: int,
    col: int,
    fill: Seq<u8>,
    m: nat,
) -> Seq<PlaneView>
    decreases m,
{
    if m == 0 {
        planes
    } else {
        put_sample(
            stamp_pixel_spec(planes, comps, row, col, fill, (m - 1) as nat),
            comps[m - 1],
            row,
            col,
            fill[m - 1],
        )
    }
}

/// What is stamped where: the timestamp, the region, the reference
/// colors, and the number of components that take part.
pub struct TimeCode {
    pub t: u64,
    pub x: int,
    pub y: int,
    pub width: int,
    pub height: int,
    pub white: Seq<u8>,
    pub black: Seq<u8>,
    pub m: nat,
}

impl TimeCode {
    /// The bit that pixel `(j, i)` of the region shows.
    pub open spec fn bit(&self, i: int, j: int) -> bool {
        time_code_bit(self.t, grid_coord(i, self.height), grid_coord(j, self.width))
    }

    /// The reference color that pixel `(j, i)` of the region is given.
    pub open spec fn fill(&self, i: int, j: int) -> Seq<u8> {
        if self.bit(i, j) {
            self.white
        } else {
            self.black
        }
    }
}

/// The planes after the first `n` pixels of row `i` of the region were
/// stamped, left to right.
pub open spec fn stamp_row_spec(
    planes: Seq<PlaneView>,
    comps: Seq<Component>,
    code: TimeCode,
    i: int,
    n: nat,
) -> Seq<PlaneView>
    decreases n,
{
    if n == 0 {
        planes
    } else {
        stamp_pixel_spec(
            stamp_row_spec(planes, comps, code, i, (n - 1) as nat),
            comps,
            code.y + i,
            code.x + n - 1,
            code.fill(i, n - 1),
            code.m,
        )
    }
}

/// The planes after the first `n` rows of the region were stamped, top
/// row first.
pub open spec fn stamp_rows_spec(
    planes: Seq<PlaneView>,
    comps: Seq<Component>,
    code: TimeCode,
    n: nat,
) -> Seq<PlaneView>
    decreases n,
{
    if n == 0 {
        planes
    } else {
        stamp_row_spec(
            stamp_rows_spec(planes, comps, code, (n - 1) as nat),
            comps,
            code,
            n - 1,
            code.width as nat,
        )
    }
}

/// Whether a component is 8 bits deep without shift.
pub open spec fn supported(comp: Component) -> bool {
    comp.depth == 8 && comp.shift == 0
}

/// The first of the first `m` components that is not supported, or `m`.
pub open spec fn first_unsupported(comps: Seq<Component>, m: nat) -> nat
    decreases m,
{
    if m == 0 {
        0
    } else if first_unsupported(comps, (m - 1) as nat) < m - 1 {
        first_unsupported(comps, (m - 1) as nat)
    } else if supported(comps[m - 1]) {
        m
    } else {
        (m - 1) as nat
    }
}

/// The least of three lengths.
pub open spec fn least_of(a: int, b: int, c: int) -> int {
    if a <= b && a <= c {
        a
    } else if b <= c {
        b
    } else {
        c
    }
}

/// Computes a coordinate in a subsampled plane.
pub fn sub_scale(val: u64, factor: u32) -> (r: u64)
    requires
        val <= COORD_LIMIT,
        factor <= MAX_SUBSAMPLING,
    ensures
        r == sub_scale_spec(val as int, factor as nat),
        r <= val,
{
    proof {
        lemma_u64_pow2_no_overflow(factor as nat);
        lemma_u64_shl_is_mul(1, factor as u64);
        lemma_pow2_strictly_increases(factor as nat, 32);
        lemma2_to64();
        lemma_pow2_pos(factor as nat);
    }
    let d: u64 = 1u64 << factor;
    let r = (val + d - 1) / d;
    proof {
        assert(r <= val) by (nonlinear_arith)
            requires
                r == (val + d - 1) / (d as int),
                d >= 1,
                val >= 0,
        ;
    }
    r
}

/// Reads bit `c` of byte `r` of a timestamp.
pub fn time_code_bit_at(t: u64, r: u64, c: u64) -> (b: bool)
    requires
        r < 8,
        c < 8,
    ensures
        b == time_code_bit(t, r as int, c as int),
{
    (t >> (8 * (7 - r) + c)) & 1 == 1
}

/// Computes the row or column of the grid that a pixel falls into.
pub fn grid_cell(i: u64, extent: u64) -> (cell: u64)
    requires
        i < extent <= 0xFFFF_FFFF,
    ensures
        cell == grid_coord(i as int, extent as int),
        cell < 8,
{
    let q = (8 * i + 4) / extent;
    if q < 7 {
        q
    } else {
        7
    }
}

/// The stamper of the plain profile.
#[derive(Clone, Copy, Debug)]
pub struct OriginalStamper;

impl Default for OriginalStamper {
    fn default() -> Self {
        Self
    }
}

/// Computes the least of three lengths.
pub fn least(a: usize, b: usize, c: usize) -> (m: usize)
    ensures
        m == least_of(a as int, b as int, c as int),
        m <= a,
        m <= b,
        m <= c,
{
    if a <= b && a <= c {
        a
    } else if b <= c {
        b
    } else {
        c
    }
}

/// Finds the byte of its plane at which component `k` of pixel
/// `(col, row)` lies; none where it lies beyond the plane.
pub fn locate_sample(frame: &Frame, k: usize, row: u64, col: u64) -> (at: Option<usize>)
    requires
        frame@.wf(),
        k < frame.components@.len(),
        row <= COORD_LIMIT,
        col <= COORD_LIMIT,
    ensures
        at is Some == sample_in_plane(
            frame@.planes,
            frame@.components[k as int],
            row as int,
            col as int,
        ),
        at is Some ==> at.unwrap() == sample_offset(
            frame@.components[k as int],
            frame@.planes[frame@.components[k as int].plane as int].stride,
            row as int,
            col as int,
        ),
{
    let comp = frame.components[k];
    let plane = comp.plane;
    assert(frame@.components[k as int] == comp);
    let stride = frame.planes[plane].stride;
    let pr = sub_scale(row, comp.h_sub);
    let pc = sub_scale(col, comp.w_sub);
    assert(pr * stride <= COORD_LIMIT * 0xFFFF_FFFF_FFFF_FFFF) by (nonlinear_arith)
        requires
            pr <= COORD_LIMIT,
            stride <= 0xFFFF_FFFF_FFFF_FFFF,
    ;
    assert(pc * comp.pixel_stride <= COORD_LIMIT * 0xFFFF_FFFF_FFFF_FFFF) by (nonlinear_arith)
        requires
            pc <= COORD_LIMIT,
            comp.pixel_stride <= 0xFFFF_FFFF_FFFF_FFFF,
    ;
    let offset: u128 = (pr as u128) * (stride as u128) + (pc as u128) * (comp.pixel_stride as u128)
        + (comp.poffset as u128);
    if offset < frame.planes[plane].data.len() as u128 {
        Some(offset as usize)
    } else {
        None
    }
}

/// Sets one component of pixel `(col, row)`, if it lies in its plane.
pub fn stamp_component(frame: &mut Frame, k: usize, row: u64, col: u64, value: u8)
    requires
        old(frame)@.wf(),
        k < old(frame).components@.len(),
        row <= COORD_LIMIT,
        col <= COORD_LIMIT,
    ensures
        final(frame)@ == old(frame)@.with_planes(
            put_sample(
                old(frame)@.planes,
                old(frame)@.components[k as int],
                row as int,
                col as int,
                value,
            ),
        ),
{
    let plane = frame.components[k].plane;
    assert(frame@.components[k as int] == frame.components@[k as int]);
    match locate_sample(frame, k, row, col) {
        Some(offset) => {
            frame.planes[plane].data[offset] = value;
        },
        None => {},
    }
    proof {
        assert(frame@.planes =~= put_sample(
            old(frame)@.planes,
            old(frame)@.components[k as int],
            row as int,
            col as int,
            value,
        ));
    }
}

/// Sets the first `m` components of pixel `(col, row)` to their fill
/// values.
pub fn stamp_pixel(frame: &mut Frame, row: u64, col: u64, fill: &[u8], m: usize)
    requires
        old(frame)@.wf(),
        m <= old(frame).components@.len(),
        m <= fill@.len(),
        row <= COORD_LIMIT,
        col <= COORD_LIMIT,
    ensures
        final(frame)@ == old(frame)@.with_planes(
            stamp_pixel_spec(
                old(frame)@.planes,
                old(frame)@.components,
                row as int,
                col as int,
                fill@,
                m as nat,
            ),
        ),
        final(frame)@.wf(),
{
    let mut k: usize = 0;
    proof {
        assert(frame@.planes =~= old(frame)@.planes);
    }
    while k < m
        invariant
            k <= m,
            m <= frame.components@.len(),
            m <= fill@.len(),
            row <= COORD_LIMIT,
            col <= COORD_LIMIT,
            frame@.wf(),
            frame@ == old(frame)@.with_planes(
                stamp_pixel_spec(
                    old(frame)@.planes,
                    old(frame)@.components,
                    row as int,
                    col as int,
                    fill@,
                    k as nat,
                ),
            ),
        decreases m - k,
    {
        stamp_component(frame, k, row, col, fill[k]);
        k += 1;
    }
}

/// The time code that a stamper writes into a frame of `components`
/// components: as many of them take part as both reference colors have
/// values for.
pub open spec fn time_code(
    t: u64,
    config: StamperConfig,
    white: Seq<u8>,
    black: Seq<u8>,
    components: int,
) -> TimeCode {
    TimeCode {
        t,
        x: config.x as int,
        y: config.y as int,
        width: config.width as int,
        height: config.height as int,
        white,
        black,
        m: least_of(components, white.len() as int, black.len() as int) as nat,
    }
}

/// Whether stamping a time code refuses the frame: the region has a
/// pixel, and a component that takes part is not supported.
pub open spec fn time_code_refused(frame: FrameView, code: TimeCode) -> bool {
    code.width > 0 && code.height > 0 && first_unsupported(frame.components, code.m) < code.m
}

/// The frame after a time code was stamped. Where the frame is refused,
/// the components of the first pixel that come before the unsupported one
/// have been stamped by then.
pub open spec fn stamp_time_code_spec(frame: FrameView, code: TimeCode) -> FrameView {
    if code.width <= 0 || code.height <= 0 {
        frame
    } else if first_unsupported(frame.components, code.m) < code.m {
        frame.with_planes(
            stamp_pixel_spec(
                frame.planes,
                frame.components,
                code.y,
                code.x,
                code.fill(0, 0),
                first_unsupported(frame.components, code.m),
            ),
        )
    } else {
        frame.with_planes(stamp_rows_spec(frame.planes, frame.components, code, code.height as nat))
    }
}

/// The pure reference colors of a color model, white first: none for a
/// model that is neither RGB nor YUV.
pub open spec fn fill_values(flags: FormatFlags) -> Option<(Seq<u8>, Seq<u8>)> {
    if flags.rgb {
        Some((seq![255u8, 255u8, 255u8], seq![0u8, 0u8, 0u8]))
    } else if flags.yuv {
        Some((seq![255u8, 128u8, 128u8], seq![0u8, 128u8, 128u8]))
    } else {
        None
    }
}

/// Finds the first of the first `m` components that is not supported.
pub fn find_unsupported(components: &Vec<Component>, m: usize) -> (k: usize)
    requires
        m <= components@.len(),
    ensures
        k == first_unsupported(components@, m as nat),
        k <= m,
{
    let mut k: usize = 0;
    while k < m
        invariant
            k <= m <= components@.len(),
            first_unsupported(components@, k as nat) == k,
        decreases m - k,
    {
        let comp = components[k];
        if comp.depth != 8 || comp.shift != 0 {
            proof {
                lemma_first_unsupported_stays(components@, (k + 1) as nat, m as nat);
            }
            return k;
        }
        k += 1;
    }
    k
}

/// Once an unsupported component is found among the first `k`, it stays
/// the first among the first `m`.
pub proof fn lemma_first_unsupported_stays(comps: Seq<Component>, k: nat, m: nat)
    requires
        k <= m,
        first_unsupported(comps, k) < k,
    ensures
        first_unsupported(comps, m) == first_unsupported(comps, k),
    decreases m - k,
{
    if k < m {
        lemma_first_unsupported_stays(comps, k, (m - 1) as nat);
    }
}

impl OriginalStamper {
    /// Stamps a timestamp as an 8x8 grid of the two reference colors over
    /// the region, pixel by pixel and component by component.
    pub fn stamp_time_code(
        &self,
        frame: &mut Frame,
        timestamp_usecs: u64,
        config: &StamperConfig,
        white_fill: &[u8],
        black_fill: &[u8],
    ) -> (r: Result<(), CodecError>)
        requires
            old(frame)@.wf(),
        ensures
            r == if time_code_refused(
                old(frame)@,
                time_code(
                    timestamp_usecs,
                    *config,
                    white_fill@,
                    black_fill@,
                    old(frame)@.components.len() as int,
                ),
            ) {
                Err::<(), CodecError>(CodecError::UnsupportedFormat)
            } else {
                Ok::<(), CodecError>(())
            },
            final(frame)@ == stamp_time_code_spec(
                old(frame)@,
                time_code(
                    timestamp_usecs,
                    *config,
                    white_fill@,
                    black_fill@,
                    old(frame)@.components.len() as int,
                ),
            ),
    {
        let ghost code = time_code(
            timestamp_usecs,
            *config,
            white_fill@,
            black_fill@,
            old(frame)@.components.len() as int,
        );
        let m = least(frame.components.len(), white_fill.len(), black_fill.len());
        let width = config.width as u64;
        let height = config.height as u64;
        let x = config.x as u64;
        let y = config.y as u64;
        proof {
            assert(frame@.planes =~= old(frame)@.planes);
        }
        if width == 0 || height == 0 {
            return Ok(());
        }
        let bad = find_unsupported(&frame.components, m);
        if bad < m {
            let bit = time_code_bit_at(timestamp_usecs, grid_cell(0, height), grid_cell(0, width));
            if bit {
                stamp_pixel(frame, y, x, white_fill, bad);
            } else {
                stamp_pixel(frame, y, x, black_fill, bad);
            }
            return Err(CodecError::UnsupportedFormat);
        }
        let mut i: u64 = 0;
        while i < height
            invariant
                i <= height,
                width == config.width,
                height == config.height,
                x == config.x,
                y == config.y,
                0 < width,
                m == code.m,
                m <= frame.components@.len(),
                m <= white_fill@.len(),
                m <= black_fill@.len(),
                code == time_code(
                    timestamp_usecs,
                    *config,
                    white_fill@,
                    black_fill@,
                    old(frame)@.components.len() as int,
                ),
                frame@.wf(),
                frame@ == old(frame)@.with_planes(
                    stamp_rows_spec(old(frame)@.planes, old(frame)@.components, code, i as nat),
                ),
            decreases height - i,
        {
            let ghost row_start = frame@.planes;
            let br = grid_cell(i, height);
            let mut j: u64 = 0;
            while j < width
                invariant
                    j <= width,
                    i < height,
                    br == grid_coord(i as int, height as int),
                    br < 8,
                    width == config.width,
                    height == config.height,
                    x == config.x,
                    y == config.y,
                    m == code.m,
                    m <= frame.components@.len(),
                    m <= white_fill@.len(),
                    m <= black_fill@.len(),
                    code == time_code(
                        timestamp_usecs,
                        *config,
                        white_fill@,
                        black_fill@,
                        old(frame)@.components.len() as int,
                    ),
                    frame@.wf(),
                    frame@ == old(frame)@.with_planes(
                        stamp_row_spec(
                            row_start,
                            old(frame)@.components,
                            code,
                            i as int,
                            j as nat,
                        ),
                    ),
                decreases width - j,
            {
                let bc = grid_cell(j, width);
                let bit = time_code_bit_at(timestamp_usecs, br, bc);
                if bit {
                    stamp_pixel(frame, y + i, x + j, white_fill, m);
                } else {
                    stamp_pixel(frame, y + i, x + j, black_fill, m);
                }
                j += 1;
            }
            i += 1;
        }
        Ok(())
    }

}

/// Whether the plain stamper refuses a frame: one that is neither RGB
/// nor YUV, or one whose time code is refused.
pub open spec fn stamp_refused(frame: FrameView, t: u64, config: StamperConfig) -> bool {
    match fill_values(frame.flags) {
        Some((white, black)) => time_code_refused(
            frame,
            time_code(t, config, white, black, frame.components.len() as int),
        ),
        None => true,
    }
}

/// The frame after the plain stamper stamped a timestamp.
pub open spec fn stamp_spec(frame: FrameView, t: u64, config: StamperConfig) -> FrameView {
    match fill_values(frame.flags) {
        Some((white, black)) => stamp_time_code_spec(
            frame,
            time_code(t, config, white, black, frame.components.len() as int),
        ),
        None => frame,
    }
}

impl TimestampStamper for OriginalStamper {
    open spec fn wf(&self) -> bool {
        true
    }

    open spec fn stamped(&self, frame: FrameView, timestamp_usecs: u64, config: StamperConfig)
        -> FrameView {
        stamp_spec(frame, timestamp_usecs, config)
    }

    open spec fn refuses(&self, frame: FrameView, timestamp_usecs: u64, config: StamperConfig)
        -> bool {
        stamp_refused(frame, timestamp_usecs, config)
    }

    open spec fn profile(&self) -> StamperType {
        StamperType::Original
    }

    fn stamp(&self, frame: &mut Frame, timestamp_usecs: u64, config: &StamperConfig) -> (r: Result<
        (),
        CodecError,
    >) {
        match get_fill_values(frame.flags) {
            Ok((white_fill, black_fill)) => self.stamp_time_code(
                frame,
                timestamp_usecs,
                config,
                white_fill.as_slice(),
                black_fill.as_slice(),
            ),
            Err(e) => {
                proof {
                    assert(frame@.planes =~= old(frame)@.planes);
                }
                Err(e)
            },
        }
    }

    fn name(&self) -> (s: &'static str) {
        "original"
    }

    fn description(&self) -> (s: &'static str) {
        "Original 8x8 binary timestamp encoder"
    }
}

/// The distance of two levels.
pub open spec fn abs_diff_spec(a: u8, b: u8) -> int {
    if a >= b {
        a - b
    } else {
        b - a
    }
}

/// Whether each of the first `m` components of pixel `(col, row)` lies in
/// its plane and closer than `tolerance` to its reference value.
pub open spec fn pixel_matches(
    planes: Seq<PlaneView>,
    comps: Seq<Component>,
    row: int,
    col: int,
    fill: Seq<u8>,
    tolerance: int,
    m: nat,
) -> bool
    decreases m,
{
    if m == 0 {
        true
    } else {
        &&& pixel_matches(planes, comps, row, col, fill, tolerance, (m - 1) as nat)
        &&& sample_in_plane(planes, comps[m - 1], row, col)
        &&& abs_diff_spec(sample_at(planes, comps[m - 1], row, col), fill[m - 1]) < tolerance
    }
}

/// What is read where: the region, the reference colors, the tolerance,
/// and the number of components that take part.
pub struct Window {
    pub x: int,
    pub y: int,
    pub width: int,
    pub height: int,
    pub white: Seq<u8>,
    pub black: Seq<u8>,
    pub tolerance: int,
    pub m: nat,
}

/// The window that a reader lays over a frame of `components` components.
pub open spec fn window(config: ReaderConfig, white: Seq<u8>, black: Seq<u8>, components: int)
    -> Window {
    Window {
        x: config.x as int,
        y: config.y as int,
        width: config.width as int,
        height: config.height as int,
        white,
        black,
        tolerance: config.tolerance as int,
        m: least_of(components, white.len() as int, black.len() as int) as nat,
    }
}

/// The pixels `(j, i)` of a window that fall into cell `(br, bc)` and
/// match a reference color in every component.
pub open spec fn votes_for(frame: FrameView, w: Window, fill: Seq<u8>, br: int, bc: int)
    -> spec_fn(int, int) -> bool {
    |i: int, j: int|
        grid_coord(i, w.height) == br && grid_coord(j, w.width) == bc && pixel_matches(
            frame.planes,
            frame.components,
            w.y + i,
            w.x + j,
            fill,
            w.tolerance,
            w.m,
        )
}

/// How many of the first `n` pixels of row `i` satisfy `pred`.
pub open spec fn count_row(pred: spec_fn(int, int) -> bool, i: int, n: nat) -> nat
    decreases n,
{
    if n == 0 {
        0
    } else {
        count_row(pred, i, (n - 1) as nat) + if pred(i, n - 1) {
            1nat
        } else {
            0nat
        }
    }
}

/// How many pixels of the first `n` rows of `width` pixels satisfy
/// `pred`.
pub open spec fn count_rows(pred: spec_fn(int, int) -> bool, width: nat, n: nat) -> nat
    decreases n,
{
    if n == 0 {
        0
    } else {
        count_rows(pred, width, (n - 1) as nat) + count_row(pred, n - 1, width)
    }
}

/// Whether cell `(br, bc)` shows a one: more of its pixels match white
/// than match black.
pub open spec fn cell_shows_one(frame: FrameView, w: Window, br: int, bc: int) -> bool {
    count_rows(votes_for(frame, w, w.white, br, bc), w.width as nat, w.height as nat) > count_rows(
        votes_for(frame, w, w.black, br, bc),
        w.width as nat,
        w.height as nat,
    )
}

/// The 64 cells in the order of the bits of the timestamp, most
/// significant first: byte `r` is row `r`, and its bit `c` is column `c`.
pub open spec fn cells_msb_first(frame: FrameView, w: Window) -> Seq<bool> {
    Seq::new(64, |k: int| cell_shows_one(frame, w, k / 8, 7 - k % 8))
}

/// The timestamp that the 64 cells of a window spell.
pub open spec fn read_time_code(frame: FrameView, w: Window) -> u64 {
    pack_msb(cells_msb_first(frame, w), 0, 64) as u64
}

/// At most `n` pixels of a row satisfy a predicate.
pub proof fn lemma_count_row_bound(pred: spec_fn(int, int) -> bool, i: int, n: nat)
    ensures
        count_row(pred, i, n) <= n,
    decreases n,
{
    if n > 0 {
        lemma_count_row_bound(pred, i, (n - 1) as nat);
    }
}

/// At most `n * width` pixels of `n` rows satisfy a predicate.
pub proof fn lemma_count_rows_bound(pred: spec_fn(int, int) -> bool, width: nat, n: nat)
    ensures
        count_rows(pred, width, n) <= n * width,
    decreases n,
{
    if n > 0 {
        lemma_count_rows_bound(pred, width, (n - 1) as nat);
        lemma_count_row_bound(pred, n - 1, width);
        assert(n * width == (n - 1) * width + width) by (nonlinear_arith);
    } else {
        assert(n * width == 0) by (nonlinear_arith)
            requires
                n == 0,
        ;
    }
}

/// The reader of the plain profile.
#[derive(Clone, Copy, Debug)]
pub struct OriginalReader;

impl Default for OriginalReader {
    fn default() -> Self {
        Self
    }
}

/// Computes the distance of two levels.
pub fn abs_diff(a: u8, b: u8) -> (d: u8)
    ensures
        d == abs_diff_spec(a, b),
{
    if a >= b {
        a - b
    } else {
        b - a
    }
}

/// Says whether each of the first `m` components of a pixel lies in its
/// plane and closer than `tolerance` to its reference value.
pub fn pixel_votes(frame: &Frame, row: u64, col: u64, fill: &[u8], tolerance: u32, m: usize) -> (all:
    bool)
    requires
        frame@.wf(),
        m <= frame.components@.len(),
        m <= fill@.len(),
        row <= COORD_LIMIT,
        col <= COORD_LIMIT,
    ensures
        all == pixel_matches(
            frame@.planes,
            frame@.components,
            row as int,
            col as int,
            fill@,
            tolerance as int,
            m as nat,
        ),
{
    let mut votes: usize = 0;
    let mut k: usize = 0;
    while k < m
        invariant
            k <= m,
            m <= frame.components@.len(),
            m <= fill@.len(),
            row <= COORD_LIMIT,
            col <= COORD_LIMIT,
            frame@.wf(),
            votes <= k,
            (votes == k) == pixel_matches(
                frame@.planes,
                frame@.components,
                row as int,
                col as int,
                fill@,
                tolerance as int,
                k as nat,
            ),
        decreases m - k,
    {
        let plane = frame.components[k].plane;
        assert(frame@.components[k as int] == frame.components@[k as int]);
        match locate_sample(frame, k, row, col) {
            Some(offset) => {
                let component = frame.planes[plane].data[offset];
                if (abs_diff(component, fill[k]) as u32) < tolerance {
                    votes += 1;
                }
            },
            None => {},
        }
        k += 1;
    }
    votes == m
}

impl OriginalReader {
    /// Reads the 8x8 grid of a region: each pixel that matches white in
    /// every component votes for a one in its cell, each that matches
    /// black for a zero, and a cell shows a one where the ones outnumber
    /// the zeros. A frame whose format is not of 8 bits is refused.
    pub fn measure_latency_using_time_code(
        &self,
        frame: &Frame,
        config: &ReaderConfig,
        white_fill: &[u8],
        black_fill: &[u8],
    ) -> (r: Result<Option<u64>, CodecError>)
        requires
            frame@.wf(),
        ensures
            r == if frame@.bits != 8 {
                Err::<Option<u64>, CodecError>(CodecError::UnsupportedFormat)
            } else {
                Ok::<Option<u64>, CodecError>(
                    Some(
                        read_time_code(
                            frame@,
                            window(
                                *config,
                                white_fill@,
                                black_fill@,
                                frame@.components.len() as int,
                            ),
                        ),
                    ),
                )
            },
    {
        if frame.bits != 8 {
            return Err(CodecError::UnsupportedFormat);
        }
        let ghost w = window(*config, white_fill@, black_fill@, frame@.components.len() as int);
        let m = least(frame.components.len(), white_fill.len(), black_fill.len());
        let width = config.width as u64;
        let height = config.height as u64;
        let x = config.x as u64;
        let y = config.y as u64;
        let mut whites: Vec<u64> = Vec::new();
        let mut blacks: Vec<u64> = Vec::new();
        let mut b: usize = 0;
        while b < 64
            invariant
                b <= 64,
                whites@.len() == b,
                blacks@.len() == b,
                forall|c: int| 0 <= c < b ==> whites@[c] == 0 && blacks@[c] == 0,
            decreases 64 - b,
        {
            whites.push(0);
            blacks.push(0);
            b += 1;
        }
        let mut i: u64 = 0;
        while i < height
            invariant
                i <= height,
                width == config.width,
                height == config.height,
                x == config.x,
                y == config.y,
                m == w.m,
                m <= frame.components@.len(),
                m <= white_fill@.len(),
                m <= black_fill@.len(),
                w == window(*config, white_fill@, black_fill@, frame@.components.len() as int),
                frame@.wf(),
                whites@.len() == 64,
                blacks@.len() == 64,
                forall|c: int|
                    0 <= c < 64 ==> #[trigger] whites@[c] == count_rows(
                        votes_for(frame@, w, w.white, c / 8, c % 8),
                        width as nat,
                        i as nat,
                    ),
                forall|c: int|
                    0 <= c < 64 ==> #[trigger] blacks@[c] == count_rows(
                        votes_for(frame@, w, w.black, c / 8, c % 8),
                        width as nat,
                        i as nat,
                    ),
            decreases height - i,
        {
            let br = grid_cell(i, height);
            let mut j: u64 = 0;
            while j < width
                invariant
                    j <= width,
                    i < height,
                    br == grid_coord(i as int, height as int),
                    br < 8,
                    width == config.width,
                    height == config.height,
                    x == config.x,
                    y == config.y,
                    m == w.m,
                    m <= frame.components@.len(),
                    m <= white_fill@.len(),
                    m <= black_fill@.len(),
                    w == window(
                        *config,
                        white_fill@,
                        black_fill@,
                        frame@.components.len() as int,
                    ),
                    frame@.wf(),
                    whites@.len() == 64,
                    blacks@.len() == 64,
                    forall|c: int|
                        0 <= c < 64 ==> #[trigger] whites@[c] == count_rows(
                            votes_for(frame@, w, w.white, c / 8, c % 8),
                            width as nat,
                            i as nat,
                        ) + count_row(
                            votes_for(frame@, w, w.white, c / 8, c % 8),
                            i as int,
                            j as nat,
                        ),
                    forall|c: int|
                        0 <= c < 64 ==> #[trigger] blacks@[c] == count_rows(
                            votes_for(frame@, w, w.black, c / 8, c % 8),
                            width as nat,
                            i as nat,
                        ) + count_row(
                            votes_for(frame@, w, w.black, c / 8, c % 8),
                            i as int,
                            j as nat,
                        ),
                decreases width - j,
            {
                let bc = grid_cell(j, width);
                let cell = (8 * br + bc) as usize;
                let white_vote = pixel_votes(frame, y + i, x + j, white_fill, config.tolerance, m);
                let black_vote = pixel_votes(frame, y + i, x + j, black_fill, config.tolerance, m);
                proof {
                    let wp = votes_for(frame@, w, w.white, cell as int / 8, cell as int % 8);
                    let bp = votes_for(frame@, w, w.black, cell as int / 8, cell as int % 8);
                    lemma_count_rows_bound(wp, width as nat, i as nat);
                    lemma_count_row_bound(wp, i as int, j as nat);
                    lemma_count_rows_bound(bp, width as nat, i as nat);
                    lemma_count_row_bound(bp, i as int, j as nat);
                    assert(i * width + j + 1 < 0x1_0000_0000 * 0x1_0000_0000) by (nonlinear_arith)
                        requires
                            i + 1 < 0x1_0000_0000,
                            j < width,
                            width < 0x1_0000_0000,
                    ;
                    assert(whites@[cell as int] <= i * width + j);
                    assert(blacks@[cell as int] <= i * width + j);
                }
                if white_vote {
                    let old_count = whites[cell];
                    whites[cell] = old_count + 1;
                }
                if black_vote {
                    let old_count = blacks[cell];
                    blacks[cell] = old_count + 1;
                }
                j += 1;
            }
            i += 1;
        }
        let mut bits: Vec<bool> = Vec::new();
        let mut k: usize = 0;
        while k < 64
            invariant
                k <= 64,
                whites@.len() == 64,
                blacks@.len() == 64,
                bits@.len() == k,
                forall|c: int|
                    0 <= c < 64 ==> #[trigger] whites@[c] == count_rows(
                        votes_for(frame@, w, w.white, c / 8, c % 8),
                        w.width as nat,
                        w.height as nat,
                    ),
                forall|c: int|
                    0 <= c < 64 ==> #[trigger] blacks@[c] == count_rows(
                        votes_for(frame@, w, w.black, c / 8, c % 8),
                        w.width as nat,
                        w.height as nat,
                    ),
                forall|c: int| 0 <= c < k ==> bits@[c] == cells_msb_first(frame@, w)[c],
            decreases 64 - k,
        {
            let cell = 8 * (k / 8) + (7 - k % 8);
            bits.push(whites[cell] > blacks[cell]);
            k += 1;
        }
        proof {
            assert(bits@ =~= cells_msb_first(frame@, w));
        }
        let value = pack_word(&bits);
        Ok(Some(value))
    }
}

/// What the plain reader returns for a frame: a refusal for a frame
/// that is neither RGB nor YUV or whose format is not of 8 bits, else the
/// timestamp that the cells spell.
pub open spec fn read_spec(frame: FrameView, config: ReaderConfig) -> Result<
    Option<u64>,
    CodecError,
> {
    match fill_values(frame.flags) {
        Some((white, black)) => if frame.bits != 8 {
            Err(CodecError::UnsupportedFormat)
        } else {
            Ok(
                Some(
                    read_time_code(
                        frame,
                        window(config, white, black, frame.components.len() as int),
                    ),
                ),
            )
        },
        None => Err(CodecError::UnsupportedFormat),
    }
}

impl TimestampReader for OriginalReader {
    open spec fn wf(&self) -> bool {
        true
    }

    open spec fn reading(&self, frame: FrameView, config: ReaderConfig) -> Result<
        Option<u64>,
        CodecError,
    > {
        read_spec(frame, config)
    }

    open spec fn profile(&self) -> StamperType {
        StamperType::Original
    }

    fn read(&self, frame: &Frame, config: &ReaderConfig) -> (r: Result<Option<u64>, CodecError>) {
        match get_fill_values(frame.flags) {
            Ok((white_fill, black_fill)) => self.measure_latency_using_time_code(
                frame,
                config,
                white_fill.as_slice(),
                black_fill.as_slice(),
            ),
            Err(e) => Err(e),
        }
    }

    fn name(&self) -> (s: &'static str) {
        "original"
    }

    fn description(&self) -> (s: &'static str) {
        "Original 8x8 binary timestamp decoder with voting"
    }
}

} // verus!
