//! What holds of the plain profile: a region stamped into a frame
//! reads back, where every cell of the grid has a pixel that lies in the
//! frame and samples that share a byte agree on what to write there.

use crate::bits::{lemma_pack_eight, lemma_pack_msb_joins, msb_bit, pack_msb};
use crate::frame::{CodecError, Component, FrameView, PlaneView};
use crate::raster::lemma_offset_injective;
use crate::stamper::original::{
    abs_diff_spec, cell_shows_one, cells_msb_first, count_row, count_rows, fill_values,
    first_unsupported, grid_coord, pixel_matches, put_sample, read_spec, sample_at,
    sample_in_plane, sample_offset, stamp_pixel_spec, stamp_refused, stamp_row_spec,
    stamp_rows_spec, stamp_spec, sub_scale_spec, supported, time_code, time_code_bit, votes_for,
    window, TimeCode,
};
use crate::stamper::traits::{ReaderConfig, StamperConfig};
use vstd::arithmetic::power2::{lemma2_to64, lemma_pow2_pos, pow2};
use vstd::prelude::*;

verus! {

/// Whether two sets of planes have the same strides and lengths.
pub open spec fn same_shape(a: Seq<PlaneView>, b: Seq<PlaneView>) -> bool {
    &&& a.len() == b.len()
    &&& forall|p: int|
        0 <= p < a.len() ==> (#[trigger] a[p]).stride == b[p].stride && a[p].data.len()
            == b[p].data.len()
}

/// Whether `(i, j, k)` names a component of a pixel of the region.
pub open spec fn in_region(code: TimeCode, i: int, j: int, k: int) -> bool {
    0 <= i < code.height && 0 <= j < code.width && 0 <= k < code.m
}

/// Whether each component that takes part names one of the planes.
pub open spec fn planes_named(planes: Seq<PlaneView>, comps: Seq<Component>, code: TimeCode)
    -> bool {
    &&& code.m <= comps.len()
    &&& code.m <= code.white.len()
    &&& code.m <= code.black.len()
    &&& forall|k: int| 0 <= k < code.m ==> (#[trigger] comps[k]).plane < planes.len()
}

/// The plane and the byte at which component `k` of pixel `(j, i)` of
/// the region lies.
pub open spec fn sample_byte(
    planes: Seq<PlaneView>,
    comps: Seq<Component>,
    code: TimeCode,
    i: int,
    j: int,
    k: int,
) -> (int, int) {
    (
        comps[k].plane as int,
        sample_offset(comps[k], planes[comps[k].plane as int].stride, code.y + i, code.x + j),
    )
}

/// Whether component `k` of pixel `(j, i)` of the region lies in its
/// plane.
pub open spec fn sample_seen(
    planes: Seq<PlaneView>,
    comps: Seq<Component>,
    code: TimeCode,
    i: int,
    j: int,
    k: int,
) -> bool {
    sample_in_plane(planes, comps[k], code.y + i, code.x + j)
}

/// Whether component `k` of pixel `(j, i)` of the region holds the value
/// that the time code gives it.
pub open spec fn sample_holds(
    planes: Seq<PlaneView>,
    comps: Seq<Component>,
    code: TimeCode,
    i: int,
    j: int,
    k: int,
) -> bool {
    sample_at(planes, comps[k], code.y + i, code.x + j) == code.fill(i, j)[k]
}

/// Whether every component of pixel `(j, i)` of the region lies in its
/// plane, and the pixel falls into cell `(br, bc)`.
pub open spec fn whole_pixel_of(
    planes: Seq<PlaneView>,
    comps: Seq<Component>,
    code: TimeCode,
    br: int,
    bc: int,
    i: int,
    j: int,
) -> bool {
    &&& 0 <= i < code.height
    &&& 0 <= j < code.width
    &&& grid_coord(i, code.height) == br
    &&& grid_coord(j, code.width) == bc
    &&& forall|k: int| 0 <= k < code.m ==> #[trigger] sample_seen(planes, comps, code, i, j, k)
}

/// Whether cell `(br, bc)` has a pixel all of whose components lie in
/// their planes.
pub open spec fn cell_seen(
    planes: Seq<PlaneView>,
    comps: Seq<Component>,
    code: TimeCode,
    br: int,
    bc: int,
) -> bool {
    exists|i: int, j: int| #[trigger] whole_pixel_of(planes, comps, code, br, bc, i, j)
}

/// Whether each of the 64 cells has a pixel all of whose components lie
/// in their planes.
pub open spec fn every_cell_seen(planes: Seq<PlaneView>, comps: Seq<Component>, code: TimeCode)
    -> bool {
    forall|br: int, bc: int|
        0 <= br < 8 && 0 <= bc < 8 ==> #[trigger] cell_seen(planes, comps, code, br, bc)
}

/// Whether samples in the planes that share a byte agree on what to
/// write there: they have the same reference values, and they fall into
/// the same cell unless white and black are one value for them.
pub open spec fn shares_fairly(planes: Seq<PlaneView>, comps: Seq<Component>, code: TimeCode)
    -> bool {
    forall|i: int, j: int, k: int, i2: int, j2: int, k2: int|
        in_region(code, i, j, k) && in_region(code, i2, j2, k2) && sample_seen(
            planes,
            comps,
            code,
            i,
            j,
            k,
        ) && #[trigger] sample_byte(planes, comps, code, i, j, k) == #[trigger] sample_byte(
            planes,
            comps,
            code,
            i2,
            j2,
            k2,
        ) ==> {
            &&& code.white[k] == code.white[k2]
            &&& code.black[k] == code.black[k2]
            &&& (code.white[k] == code.black[k] || (grid_coord(i, code.height) == grid_coord(
                i2,
                code.height,
            ) && grid_coord(j, code.width) == grid_coord(j2, code.width)))
        }
}

/// Whether sample `(i2, j2, k2)` comes before sample `(i, j, n)` in the
/// order of stamping: row by row, pixel by pixel, component by component.
pub open spec fn stamped_before(i: int, j: int, n: int, i2: int, j2: int, k2: int) -> bool {
    i2 < i || (i2 == i && (j2 < j || (j2 == j && k2 < n)))
}

/// Whether `now` has the shape of `base` and every sample of the region
/// that lies in its plane and comes before `(i, j, n)` holds its value.
pub open spec fn stamped_up_to(
    base: Seq<PlaneView>,
    now: Seq<PlaneView>,
    comps: Seq<Component>,
    code: TimeCode,
    i: int,
    j: int,
    n: int,
) -> bool {
    &&& same_shape(now, base)
    &&& forall|i2: int, j2: int, k2: int|
        in_region(code, i2, j2, k2) && stamped_before(i, j, n, i2, j2, k2) && sample_seen(
            base,
            comps,
            code,
            i2,
            j2,
            k2,
        ) ==> #[trigger] sample_holds(now, comps, code, i2, j2, k2)
}

/// Stamping one more component keeps what was stamped before.
pub proof fn lemma_stamp_step(
    base: Seq<PlaneView>,
    now: Seq<PlaneView>,
    comps: Seq<Component>,
    code: TimeCode,
    i: int,
    j: int,
    n: int,
)
    requires
        planes_named(base, comps, code),
        shares_fairly(base, comps, code),
        in_region(code, i, j, n),
        stamped_up_to(base, now, comps, code, i, j, n),
    ensures
        stamped_up_to(
            base,
            put_sample(now, comps[n], code.y + i, code.x + j, code.fill(i, j)[n]),
            comps,
            code,
            i,
            j,
            n + 1,
        ),
{
    let next = put_sample(now, comps[n], code.y + i, code.x + j, code.fill(i, j)[n]);
    let at = sample_byte(base, comps, code, i, j, n);
    assert(0 <= at.0 < base.len());
    assert(now[at.0].stride == base[at.0].stride);
    assert(sample_in_plane(now, comps[n], code.y + i, code.x + j) == sample_seen(
        base,
        comps,
        code,
        i,
        j,
        n,
    ));
    assert(same_shape(next, base)) by {
        assert forall|p: int| 0 <= p < next.len() implies (#[trigger] next[p]).stride
            == base[p].stride && next[p].data.len() == base[p].data.len() by {
            assert(now[p].stride == base[p].stride);
        }
    }
    assert forall|i2: int, j2: int, k2: int|
        in_region(code, i2, j2, k2) && stamped_before(i, j, n + 1, i2, j2, k2) && sample_seen(
            base,
            comps,
            code,
            i2,
            j2,
            k2,
        ) implies #[trigger] sample_holds(next, comps, code, i2, j2, k2) by {
        let at2 = sample_byte(base, comps, code, i2, j2, k2);
        assert(0 <= at2.0 < base.len());
        assert(now[at2.0].stride == base[at2.0].stride);
        if i2 == i && j2 == j && k2 == n {
        } else {
            assert(stamped_before(i, j, n, i2, j2, k2));
            assert(sample_holds(now, comps, code, i2, j2, k2));
            if at2 == at && sample_seen(base, comps, code, i, j, n) {
                assert(code.fill(i2, j2)[k2] == code.fill(i, j)[n]);
            }
        }
    }
}

/// Stamping the components of a pixel keeps what was stamped before.
pub proof fn lemma_stamp_pixel(
    base: Seq<PlaneView>,
    now: Seq<PlaneView>,
    comps: Seq<Component>,
    code: TimeCode,
    i: int,
    j: int,
    n: nat,
)
    requires
        planes_named(base, comps, code),
        shares_fairly(base, comps, code),
        0 <= i < code.height,
        0 <= j < code.width,
        n <= code.m,
        stamped_up_to(base, now, comps, code, i, j, 0),
    ensures
        stamped_up_to(
            base,
            stamp_pixel_spec(now, comps, code.y + i, code.x + j, code.fill(i, j), n),
            comps,
            code,
            i,
            j,
            n as int,
        ),
    decreases n,
{
    if n > 0 {
        lemma_stamp_pixel(base, now, comps, code, i, j, (n - 1) as nat);
        lemma_stamp_step(
            base,
            stamp_pixel_spec(now, comps, code.y + i, code.x + j, code.fill(i, j), (n - 1) as nat),
            comps,
            code,
            i,
            j,
            n - 1,
        );
    }
}

/// Stamping the pixels of a row keeps what was stamped before.
pub proof fn lemma_stamp_row(
    base: Seq<PlaneView>,
    now: Seq<PlaneView>,
    comps: Seq<Component>,
    code: TimeCode,
    i: int,
    n: nat,
)
    requires
        planes_named(base, comps, code),
        shares_fairly(base, comps, code),
        0 <= i < code.height,
        n <= code.width,
        stamped_up_to(base, now, comps, code, i, 0, 0),
    ensures
        stamped_up_to(base, stamp_row_spec(now, comps, code, i, n), comps, code, i, n as int, 0),
    decreases n,
{
    if n > 0 {
        let prev = stamp_row_spec(now, comps, code, i, (n - 1) as nat);
        lemma_stamp_row(base, now, comps, code, i, (n - 1) as nat);
        lemma_stamp_pixel(base, prev, comps, code, i, n - 1, code.m);
        let next = stamp_row_spec(now, comps, code, i, n);
        assert forall|i2: int, j2: int, k2: int|
            in_region(code, i2, j2, k2) && stamped_before(i, n as int, 0, i2, j2, k2)
                && sample_seen(
                base,
                comps,
                code,
                i2,
                j2,
                k2,
            ) implies #[trigger] sample_holds(next, comps, code, i2, j2, k2) by {
            assert(stamped_before(i, n - 1, code.m as int, i2, j2, k2));
        }
    }
}

/// Stamping the rows of a region gives every sample that lies in its
/// plane its value.
pub proof fn lemma_stamp_rows(
    base: Seq<PlaneView>,
    comps: Seq<Component>,
    code: TimeCode,
    n: nat,
)
    requires
        planes_named(base, comps, code),
        shares_fairly(base, comps, code),
        0 <= code.width,
        n <= code.height,
    ensures
        stamped_up_to(base, stamp_rows_spec(base, comps, code, n), comps, code, n as int, 0, 0),
    decreases n,
{
    if n > 0 {
        let prev = stamp_rows_spec(base, comps, code, (n - 1) as nat);
        lemma_stamp_rows(base, comps, code, (n - 1) as nat);
        lemma_stamp_row(base, prev, comps, code, n - 1, code.width as nat);
        let next = stamp_rows_spec(base, comps, code, n);
        assert forall|i2: int, j2: int, k2: int|
            in_region(code, i2, j2, k2) && stamped_before(n as int, 0, 0, i2, j2, k2)
                && sample_seen(
                base,
                comps,
                code,
                i2,
                j2,
                k2,
            ) implies #[trigger] sample_holds(next, comps, code, i2, j2, k2) by {
            assert(stamped_before(n - 1, code.width, 0, i2, j2, k2));
        }
    }
}

/// A pixel whose components all lie in their planes and hold their
/// reference values matches the reference color at any tolerance above
/// zero.
pub proof fn lemma_pixel_matches_same(
    planes: Seq<PlaneView>,
    comps: Seq<Component>,
    row: int,
    col: int,
    fill: Seq<u8>,
    tolerance: int,
    m: nat,
)
    requires
        tolerance >= 1,
        forall|k: int|
            0 <= k < m ==> sample_in_plane(planes, #[trigger] comps[k], row, col) && sample_at(
                planes,
                comps[k],
                row,
                col,
            ) == fill[k],
    ensures
        pixel_matches(planes, comps, row, col, fill, tolerance, m),
    decreases m,
{
    if m > 0 {
        lemma_pixel_matches_same(planes, comps, row, col, fill, tolerance, (m - 1) as nat);
        assert(sample_in_plane(planes, comps[m - 1], row, col));
    }
}

/// A pixel with a component that lies beyond its plane, or at the
/// tolerance or farther from its reference value, does not match the
/// reference color.
pub proof fn lemma_pixel_matches_differs(
    planes: Seq<PlaneView>,
    comps: Seq<Component>,
    row: int,
    col: int,
    fill: Seq<u8>,
    tolerance: int,
    m: nat,
    k: int,
)
    requires
        0 <= k < m,
        !sample_in_plane(planes, comps[k], row, col) || abs_diff_spec(
            sample_at(planes, comps[k], row, col),
            fill[k],
        ) >= tolerance,
    ensures
        !pixel_matches(planes, comps, row, col, fill, tolerance, m),
    decreases m,
{
    if m - 1 > k {
        lemma_pixel_matches_differs(planes, comps, row, col, fill, tolerance, (m - 1) as nat, k);
    }
}

/// No pixel of a row counts where none satisfies the predicate.
pub proof fn lemma_count_row_none(pred: spec_fn(int, int) -> bool, i: int, n: nat)
    requires
        forall|j: int| 0 <= j < n ==> !#[trigger] pred(i, j),
    ensures
        count_row(pred, i, n) == 0,
    decreases n,
{
    if n > 0 {
        lemma_count_row_none(pred, i, (n - 1) as nat);
        assert(!pred(i, n - 1));
    }
}

/// No pixel of a region counts where none satisfies the predicate.
pub proof fn lemma_count_rows_none(pred: spec_fn(int, int) -> bool, width: nat, n: nat)
    requires
        forall|i: int, j: int| 0 <= i < n && 0 <= j < width ==> !#[trigger] pred(i, j),
    ensures
        count_rows(pred, width, n) == 0,
    decreases n,
{
    if n > 0 {
        lemma_count_rows_none(pred, width, (n - 1) as nat);
        lemma_count_row_none(pred, n - 1, width);
    }
}

/// A pixel of a row that satisfies the predicate counts.
pub proof fn lemma_count_row_some(pred: spec_fn(int, int) -> bool, i: int, n: nat, j: int)
    requires
        0 <= j < n,
        pred(i, j),
    ensures
        count_row(pred, i, n) >= 1,
    decreases n,
{
    if n - 1 > j {
        lemma_count_row_some(pred, i, (n - 1) as nat, j);
    }
}

/// A pixel of a region that satisfies the predicate counts.
pub proof fn lemma_count_rows_some(
    pred: spec_fn(int, int) -> bool,
    width: nat,
    n: nat,
    i: int,
    j: int,
)
    requires
        0 <= i < n,
        0 <= j < width,
        pred(i, j),
    ensures
        count_rows(pred, width, n) >= 1,
    decreases n,
{
    if n - 1 > i {
        lemma_count_rows_some(pred, width, (n - 1) as nat, i, j);
    } else {
        lemma_count_row_some(pred, i, width, j);
    }
}

/// The pixel of an extent of eight or more that falls into cell `b`.
pub open spec fn pixel_of_cell(b: int, extent: int) -> int {
    (b * extent + 3) / 8
}

/// Every row and column of the 8x8 grid has a pixel in an extent of
/// eight pixels or more.
pub proof fn lemma_cell_has_pixel(b: int, extent: int)
    requires
        0 <= b < 8,
        extent >= 8,
    ensures
        0 <= pixel_of_cell(b, extent) < extent,
        grid_coord(pixel_of_cell(b, extent), extent) == b,
{
    let i = pixel_of_cell(b, extent);
    let v = b * extent;
    assert(0 <= v <= 7 * extent) by (nonlinear_arith)
        requires
            0 <= b <= 7,
            extent >= 8,
            v == b * extent,
    ;
    assert(v <= 8 * i + 4 && 8 * i + 4 <= v + 7);
    assert((8 * i + 4) / extent == b) by (nonlinear_arith)
        requires
            b * extent <= 8 * i + 4,
            8 * i + 4 < b * extent + extent,
            extent > 0,
    ;
}

/// The first `r` bytes that the bits of a timestamp spell are its `r`
/// high bytes.
pub proof fn lemma_pack_time_code_prefix(bits: Seq<bool>, t: u64, r: nat)
    requires
        1 <= r <= 8,
        forall|k: int| 0 <= k < 64 ==> #[trigger] bits[k] == time_code_bit(t, k / 8, 7 - k % 8),
    ensures
        pack_msb(bits, 0, 8 * r) == t >> ((64 - 8 * r) as u64),
    decreases r,
{
    let s = (64 - 8 * r) as u64;
    let byte = ((t >> s) & 0xFF) as u8;
    assert forall|p: int| 8 * (r - 1) <= p < 8 * (r - 1) + 8 implies #[trigger] bits[p] == msb_bit(
        byte,
        8,
        (p - 8 * (r - 1)) as u8,
    ) by {
        let j = (p - 8 * (r - 1)) as u8;
        assert(p / 8 == r - 1);
        assert(p % 8 == j);
        let sj = (8 * (7 - p / 8) + (7 - p % 8)) as u64;
        assert(bits[p] == ((t >> sj) & 1 == 1));
        assert(msb_bit(((t >> s) & 0xFF) as u8, 8, j) == ((t >> sj) & 1 == 1)) by (bit_vector)
            requires
                s <= 56,
                j <= 7,
                sj == s + 7 - j,
        ;
    }
    lemma_pack_eight(bits, 8 * (r - 1), byte);
    lemma_pack_msb_joins(bits, 0, (8 * (r - 1)) as nat, 8);
    lemma2_to64();
    if r == 1 {
        assert(pack_msb(bits, 0, 0) == 0);
        assert((((t >> 56) & 0xFF) as u8) == t >> 56) by (bit_vector);
    } else {
        lemma_pack_time_code_prefix(bits, t, (r - 1) as nat);
        let s8 = (64 - 8 * (r - 1)) as u64;
        assert((t >> s8) * 256 + (((t >> s) & 0xFF) as u8) == t >> s) by (bit_vector)
            requires
                s <= 48,
                s8 == s + 8,
        ;
    }
}

/// The 64 bits of a timestamp, most significant first, spell the
/// timestamp.
pub proof fn lemma_pack_time_code(bits: Seq<bool>, t: u64)
    requires
        forall|k: int| 0 <= k < 64 ==> #[trigger] bits[k] == time_code_bit(t, k / 8, 7 - k % 8),
    ensures
        pack_msb(bits, 0, 64) == t,
{
    lemma_pack_time_code_prefix(bits, t, 8);
    assert(t >> 0 == t) by (bit_vector);
}

/// Where all of the first `m` components are supported, none is found
/// unsupported.
pub proof fn lemma_all_supported(comps: Seq<Component>, m: nat)
    requires
        forall|k: int| 0 <= k < m ==> supported(#[trigger] comps[k]),
    ensures
        first_unsupported(comps, m) == m,
    decreases m,
{
    if m > 0 {
        lemma_all_supported(comps, (m - 1) as nat);
    }
}

/// The time code that the plain stamper writes into a frame with an
/// RGB or a YUV color model.
pub open spec fn original_code(frame: FrameView, t: u64, region: StamperConfig) -> TimeCode {
    time_code(
        t,
        region,
        fill_values(frame.flags).unwrap().0,
        fill_values(frame.flags).unwrap().1,
        frame.components.len() as int,
    )
}

/// Whether pixel `(j, i)` of the region matches the color of its bit and
/// no other, if all of its components lie in their planes, and no color
/// if not.
pub open spec fn votes(
    base: Seq<PlaneView>,
    now: Seq<PlaneView>,
    comps: Seq<Component>,
    code: TimeCode,
    tolerance: int,
    i: int,
    j: int,
) -> bool {
    let whole = forall|k: int|
        0 <= k < code.m ==> #[trigger] sample_seen(base, comps, code, i, j, k);
    &&& pixel_matches(now, comps, code.y + i, code.x + j, code.white, tolerance, code.m) == (
    whole && code.bit(i, j))
    &&& pixel_matches(now, comps, code.y + i, code.x + j, code.black, tolerance, code.m) == (
    whole && !code.bit(i, j))
}

/// A timestamp stamped over a region is read back from the
/// untouched frame at any tolerance from 1 to 255, where the frame has an
/// RGB or a YUV color model and 8-bit components without shift, each cell
/// of the grid has a pixel all of whose components lie in their planes,
/// and samples that share a byte agree on what to write there.
pub proof fn lemma_original_round_trip(
    frame: FrameView,
    t: u64,
    region: StamperConfig,
    reading: ReaderConfig,
)
    requires
        frame.wf(),
        frame.bits == 8,
        frame.flags.rgb || frame.flags.yuv,
        frame.components.len() >= 1,
        forall|k: int|
            0 <= k < frame.components.len() && k < 3 ==> supported(#[trigger] frame.components[k]),
        reading.x == region.x,
        reading.y == region.y,
        reading.width == region.width,
        reading.height == region.height,
        1 <= reading.tolerance <= 255,
        every_cell_seen(frame.planes, frame.components, original_code(frame, t, region)),
        shares_fairly(frame.planes, frame.components, original_code(frame, t, region)),
    ensures
        !stamp_refused(frame, t, region),
        read_spec(stamp_spec(frame, t, region), reading) == Ok::<Option<u64>, CodecError>(Some(t)),
{
    let code = original_code(frame, t, region);
    let comps = frame.components;
    let base = frame.planes;
    let white = code.white;
    let black = code.black;
    let m = code.m;
    assert(white.len() == 3 && black.len() == 3);
    assert(1 <= m <= 3);
    assert(planes_named(base, comps, code));
    lemma_all_supported(comps, m);
    lemma_stamp_rows(base, comps, code, code.height as nat);
    let now = stamp_rows_spec(base, comps, code, code.height as nat);
    let after = stamp_spec(frame, t, region);
    assert(cell_seen(base, comps, code, 0, 0));
    let seen = choose|i: int, j: int| whole_pixel_of(base, comps, code, 0, 0, i, j);
    assert(whole_pixel_of(base, comps, code, 0, 0, seen.0, seen.1));
    assert(code.height > 0 && code.width > 0);
    assert(after == frame.with_planes(now));
    let w = window(reading, white, black, comps.len() as int);
    let tolerance = reading.tolerance as int;
    assert(abs_diff_spec(white[0], black[0]) == 255);
    assert forall|i: int, j: int, k: int| in_region(code, i, j, k) implies sample_in_plane(
        now,
        comps[k],
        code.y + i,
        code.x + j,
    ) == #[trigger] sample_seen(base, comps, code, i, j, k) by {
        let at = sample_byte(base, comps, code, i, j, k);
        assert(0 <= at.0 < base.len());
        assert(now[at.0].stride == base[at.0].stride);
    }
    assert forall|i: int, j: int| 0 <= i < code.height && 0 <= j < code.width implies #[trigger] votes(
        base,
        now,
        comps,
        code,
        tolerance,
        i,
        j,
    ) by {
        if forall|k: int| 0 <= k < m ==> #[trigger] sample_seen(base, comps, code, i, j, k) {
            assert forall|k: int| 0 <= k < m implies sample_in_plane(
                now,
                #[trigger] comps[k],
                code.y + i,
                code.x + j,
            ) && sample_at(now, comps[k], code.y + i, code.x + j) == code.fill(i, j)[k] by {
                assert(sample_seen(base, comps, code, i, j, k));
                assert(stamped_before(code.height, 0, 0, i, j, k));
                assert(sample_holds(now, comps, code, i, j, k));
            }
            assert(sample_at(now, comps[0], code.y + i, code.x + j) == code.fill(i, j)[0]);
            if code.bit(i, j) {
                lemma_pixel_matches_same(now, comps, code.y + i, code.x + j, white, tolerance, m);
                lemma_pixel_matches_differs(
                    now,
                    comps,
                    code.y + i,
                    code.x + j,
                    black,
                    tolerance,
                    m,
                    0,
                );
            } else {
                lemma_pixel_matches_same(now, comps, code.y + i, code.x + j, black, tolerance, m);
                lemma_pixel_matches_differs(
                    now,
                    comps,
                    code.y + i,
                    code.x + j,
                    white,
                    tolerance,
                    m,
                    0,
                );
            }
        } else {
            let k = choose|k: int| 0 <= k < m && !sample_seen(base, comps, code, i, j, k);
            assert(!sample_in_plane(now, comps[k], code.y + i, code.x + j));
            lemma_pixel_matches_differs(now, comps, code.y + i, code.x + j, white, tolerance, m, k);
            lemma_pixel_matches_differs(now, comps, code.y + i, code.x + j, black, tolerance, m, k);
        }
    }
    assert forall|br: int, bc: int| 0 <= br < 8 && 0 <= bc < 8 implies #[trigger] cell_shows_one(
        after,
        w,
        br,
        bc,
    ) == time_code_bit(t, br, bc) by {
        let whites = votes_for(after, w, white, br, bc);
        let blacks = votes_for(after, w, black, br, bc);
        let width = w.width as nat;
        let height = w.height as nat;
        assert(cell_seen(base, comps, code, br, bc));
        let at = choose|i: int, j: int| whole_pixel_of(base, comps, code, br, bc, i, j);
        let i0 = at.0;
        let j0 = at.1;
        assert(whole_pixel_of(base, comps, code, br, bc, i0, j0));
        assert(votes(base, now, comps, code, tolerance, i0, j0));
        if time_code_bit(t, br, bc) {
            assert(whites(i0, j0));
            lemma_count_rows_some(whites, width, height, i0, j0);
            assert forall|i: int, j: int| 0 <= i < height && 0 <= j < width implies !#[trigger] blacks(
                i,
                j,
            ) by {
                assert(votes(base, now, comps, code, tolerance, i, j));
            }
            lemma_count_rows_none(blacks, width, height);
        } else {
            assert forall|i: int, j: int| 0 <= i < height && 0 <= j < width implies !#[trigger] whites(
                i,
                j,
            ) by {
                assert(votes(base, now, comps, code, tolerance, i, j));
            }
            lemma_count_rows_none(whites, width, height);
        }
    }
    let cells = cells_msb_first(after, w);
    assert forall|k: int| 0 <= k < 64 implies #[trigger] cells[k] == time_code_bit(
        t,
        k / 8,
        7 - k % 8,
    ) by {
        assert(cell_shows_one(after, w, k / 8, 7 - k % 8) == time_code_bit(t, k / 8, 7 - k % 8));
    }
    lemma_pack_time_code(cells, t);
}

/// Whether the components that take part are packed into the first
/// plane: none is subsampled, each has its own place among the
/// `pixel_stride` bytes of a pixel, a row of the plane holds the pixels
/// up to the right edge of the region, and the plane holds the rows down
/// to its lower edge.
pub open spec fn packed_layout(planes: Seq<PlaneView>, comps: Seq<Component>, code: TimeCode)
    -> bool {
    &&& planes.len() >= 1
    &&& code.m <= comps.len()
    &&& 0 <= code.x
    &&& 0 <= code.y
    &&& forall|k: int|
        0 <= k < code.m ==> {
            &&& (#[trigger] comps[k]).plane == 0
            &&& comps[k].h_sub == 0
            &&& comps[k].w_sub == 0
            &&& comps[k].pixel_stride == comps[0].pixel_stride
            &&& comps[k].poffset < comps[0].pixel_stride
        }
    &&& forall|k: int, k2: int|
        0 <= k < code.m && 0 <= k2 < code.m && k != k2 ==> (#[trigger] comps[k]).poffset != (
        #[trigger] comps[k2]).poffset
    &&& (code.x + code.width) * comps[0].pixel_stride <= planes[0].stride
    &&& (code.y + code.height) * planes[0].stride <= planes[0].data.len()
}

/// In a packed layout, component `k` of pixel `(j, i)` of the region lies
/// in the row of its pixel, at the pixel's place plus the component's.
pub proof fn lemma_packed_sample(
    planes: Seq<PlaneView>,
    comps: Seq<Component>,
    code: TimeCode,
    i: int,
    j: int,
    k: int,
)
    requires
        packed_layout(planes, comps, code),
        in_region(code, i, j, k),
    ensures
        sample_byte(planes, comps, code, i, j, k) == (
            0int,
            (code.y + i) * planes[0].stride + ((code.x + j) * comps[0].pixel_stride
                + comps[k].poffset),
        ),
        0 <= (code.x + j) * comps[0].pixel_stride + comps[k].poffset < planes[0].stride,
        sample_seen(planes, comps, code, i, j, k),
{
    let ps = comps[0].pixel_stride as int;
    let stride = planes[0].stride;
    let col = code.x + j;
    let row = code.y + i;
    assert(comps[k].plane == 0);
    lemma_sub_scale_zero(row);
    lemma_sub_scale_zero(col);
    assert(0 <= col * ps && col * ps + ps <= (code.x + code.width) * ps) by (nonlinear_arith)
        requires
            0 <= col,
            col + 1 <= code.x + code.width,
            0 <= ps,
    ;
    assert(0 <= row * stride && row * stride + stride <= (code.y + code.height) * stride)
        by (nonlinear_arith)
        requires
            0 <= row,
            row + 1 <= code.y + code.height,
            0 <= stride,
    ;
}

/// In a packed layout that holds a region of 8 by 8 pixels or more,
/// every cell has a pixel in the plane, and no two samples share a byte.
pub proof fn lemma_packed_layout(planes: Seq<PlaneView>, comps: Seq<Component>, code: TimeCode)
    requires
        packed_layout(planes, comps, code),
        code.width >= 8,
        code.height >= 8,
    ensures
        every_cell_seen(planes, comps, code),
        shares_fairly(planes, comps, code),
{
    let ps = comps[0].pixel_stride as int;
    let stride = planes[0].stride;
    assert forall|br: int, bc: int| 0 <= br < 8 && 0 <= bc < 8 implies #[trigger] cell_seen(
        planes,
        comps,
        code,
        br,
        bc,
    ) by {
        lemma_cell_has_pixel(br, code.height);
        lemma_cell_has_pixel(bc, code.width);
        let i = pixel_of_cell(br, code.height);
        let j = pixel_of_cell(bc, code.width);
        assert forall|k: int| 0 <= k < code.m implies #[trigger] sample_seen(
            planes,
            comps,
            code,
            i,
            j,
            k,
        ) by {
            lemma_packed_sample(planes, comps, code, i, j, k);
        }
        assert(whole_pixel_of(planes, comps, code, br, bc, i, j));
    }
    assert forall|i: int, j: int, k: int, i2: int, j2: int, k2: int|
        in_region(code, i, j, k) && in_region(code, i2, j2, k2) && sample_seen(
            planes,
            comps,
            code,
            i,
            j,
            k,
        ) && #[trigger] sample_byte(planes, comps, code, i, j, k) == #[trigger] sample_byte(
            planes,
            comps,
            code,
            i2,
            j2,
            k2,
        ) implies {
        &&& code.white[k] == code.white[k2]
        &&& code.black[k] == code.black[k2]
        &&& (code.white[k] == code.black[k] || (grid_coord(i, code.height) == grid_coord(
            i2,
            code.height,
        ) && grid_coord(j, code.width) == grid_coord(j2, code.width)))
    } by {
        lemma_packed_sample(planes, comps, code, i, j, k);
        lemma_packed_sample(planes, comps, code, i2, j2, k2);
        let a = (code.x + j) * ps + comps[k].poffset;
        let b = (code.x + j2) * ps + comps[k2].poffset;
        lemma_offset_injective(stride, a, code.y + i, b, code.y + i2);
        lemma_offset_injective(
            ps,
            comps[k].poffset as int,
            code.x + j,
            comps[k2].poffset as int,
            code.x + j2,
        );
    }
}

/// In a packed layout, a timestamp stamped over a region of 8
/// by 8 pixels or more is read back from the untouched frame at any
/// tolerance from 1 to 255, where the frame has an RGB or a YUV color
/// model and 8-bit components without shift, packed into a first plane
/// that holds the region.
pub proof fn lemma_original_round_trip_packed(
    frame: FrameView,
    t: u64,
    region: StamperConfig,
    reading: ReaderConfig,
)
    requires
        frame.wf(),
        frame.bits == 8,
        frame.flags.rgb || frame.flags.yuv,
        frame.components.len() >= 1,
        forall|k: int|
            0 <= k < frame.components.len() && k < 3 ==> supported(#[trigger] frame.components[k]),
        reading.x == region.x,
        reading.y == region.y,
        reading.width == region.width,
        reading.height == region.height,
        region.width >= 8,
        region.height >= 8,
        1 <= reading.tolerance <= 255,
        packed_layout(frame.planes, frame.components, original_code(frame, t, region)),
    ensures
        !stamp_refused(frame, t, region),
        read_spec(stamp_spec(frame, t, region), reading) == Ok::<Option<u64>, CodecError>(Some(t)),
{
    lemma_packed_layout(frame.planes, frame.components, original_code(frame, t, region));
    lemma_original_round_trip(frame, t, region, reading);
}

/// Whether each component that takes part has a plane of its own that
/// holds its samples of the region, and no component that tells white
/// from black is subsampled.
pub open spec fn planar_layout(planes: Seq<PlaneView>, comps: Seq<Component>, code: TimeCode)
    -> bool {
    &&& code.m <= comps.len()
    &&& code.m <= code.white.len()
    &&& code.m <= code.black.len()
    &&& 0 <= code.x
    &&& 0 <= code.y
    &&& forall|k: int, k2: int|
        0 <= k < code.m && 0 <= k2 < code.m && k != k2 ==> (#[trigger] comps[k]).plane != (
        #[trigger] comps[k2]).plane
    &&& forall|k: int|
        0 <= k < code.m ==> {
            let plane = planes[(#[trigger] comps[k]).plane as int];
            &&& comps[k].plane < planes.len()
            &&& 0 <= plane.stride
            &&& code.white[k] != code.black[k] ==> comps[k].h_sub == 0 && comps[k].w_sub == 0
                && comps[k].pixel_stride >= 1
            &&& sub_scale_spec(code.x + code.width - 1, comps[k].w_sub as nat)
                * comps[k].pixel_stride + comps[k].poffset < plane.stride
            &&& (sub_scale_spec(code.y + code.height - 1, comps[k].h_sub as nat) + 1)
                * plane.stride <= plane.data.len()
        }
}

/// Without subsampling a coordinate in the plane is the coordinate in the
/// frame.
pub proof fn lemma_sub_scale_zero(v: int)
    ensures
        sub_scale_spec(v, 0) == v,
{
    lemma2_to64();
}

/// A coordinate in a subsampled plane is not negative and does not
/// decrease with the coordinate in the frame.
pub proof fn lemma_sub_scale_grows(a: int, b: int, factor: nat)
    requires
        0 <= a <= b,
    ensures
        0 <= sub_scale_spec(a, factor) <= sub_scale_spec(b, factor),
{
    let d = pow2(factor) as int;
    lemma_pow2_pos(factor);
    assert(0 <= (a + d - 1) / d <= (b + d - 1) / d) by (nonlinear_arith)
        requires
            0 <= a <= b,
            d > 0,
    ;
}

/// In a planar layout, every sample of the region lies in its plane, in
/// the row of its pixel.
pub proof fn lemma_planar_sample(
    planes: Seq<PlaneView>,
    comps: Seq<Component>,
    code: TimeCode,
    i: int,
    j: int,
    k: int,
)
    requires
        planar_layout(planes, comps, code),
        in_region(code, i, j, k),
    ensures
        sample_seen(planes, comps, code, i, j, k),
        0 <= sub_scale_spec(code.x + j, comps[k].w_sub as nat) * comps[k].pixel_stride
            + comps[k].poffset < planes[comps[k].plane as int].stride,
{
    let comp = comps[k];
    let plane = planes[comp.plane as int];
    let row = sub_scale_spec(code.y + i, comp.h_sub as nat);
    let last_row = sub_scale_spec(code.y + code.height - 1, comp.h_sub as nat);
    let col = sub_scale_spec(code.x + j, comp.w_sub as nat);
    let last_col = sub_scale_spec(code.x + code.width - 1, comp.w_sub as nat);
    let ps = comp.pixel_stride as int;
    let stride = plane.stride;
    lemma_sub_scale_grows(code.y + i, code.y + code.height - 1, comp.h_sub as nat);
    lemma_sub_scale_grows(code.x + j, code.x + code.width - 1, comp.w_sub as nat);
    assert(0 <= col * ps <= last_col * ps) by (nonlinear_arith)
        requires
            0 <= col <= last_col,
            0 <= ps,
    ;
    assert(0 <= row * stride && row * stride + stride <= (last_row + 1) * stride)
        by (nonlinear_arith)
        requires
            0 <= row <= last_row,
            0 <= stride,
    ;
}

/// In a planar layout that holds a region of 8 by 8 pixels or more,
/// every cell has a pixel in the planes, and samples that share a byte
/// agree on what to write there.
pub proof fn lemma_planar_layout(planes: Seq<PlaneView>, comps: Seq<Component>, code: TimeCode)
    requires
        planar_layout(planes, comps, code),
        code.width >= 8,
        code.height >= 8,
    ensures
        every_cell_seen(planes, comps, code),
        shares_fairly(planes, comps, code),
{
    assert forall|br: int, bc: int| 0 <= br < 8 && 0 <= bc < 8 implies #[trigger] cell_seen(
        planes,
        comps,
        code,
        br,
        bc,
    ) by {
        lemma_cell_has_pixel(br, code.height);
        lemma_cell_has_pixel(bc, code.width);
        let i = pixel_of_cell(br, code.height);
        let j = pixel_of_cell(bc, code.width);
        assert forall|k: int| 0 <= k < code.m implies #[trigger] sample_seen(
            planes,
            comps,
            code,
            i,
            j,
            k,
        ) by {
            lemma_planar_sample(planes, comps, code, i, j, k);
        }
        assert(whole_pixel_of(planes, comps, code, br, bc, i, j));
    }
    assert forall|i: int, j: int, k: int, i2: int, j2: int, k2: int|
        in_region(code, i, j, k) && in_region(code, i2, j2, k2) && sample_seen(
            planes,
            comps,
            code,
            i,
            j,
            k,
        ) && #[trigger] sample_byte(planes, comps, code, i, j, k) == #[trigger] sample_byte(
            planes,
            comps,
            code,
            i2,
            j2,
            k2,
        ) implies {
        &&& code.white[k] == code.white[k2]
        &&& code.black[k] == code.black[k2]
        &&& (code.white[k] == code.black[k] || (grid_coord(i, code.height) == grid_coord(
            i2,
            code.height,
        ) && grid_coord(j, code.width) == grid_coord(j2, code.width)))
    } by {
        assert(comps[k].plane == comps[k2].plane);
        assert(k == k2);
        if code.white[k] != code.black[k] {
            let ps = comps[k].pixel_stride as int;
            let stride = planes[comps[k].plane as int].stride;
            lemma_planar_sample(planes, comps, code, i, j, k);
            lemma_planar_sample(planes, comps, code, i2, j2, k);
            lemma_sub_scale_zero(code.y + i);
            lemma_sub_scale_zero(code.y + i2);
            lemma_sub_scale_zero(code.x + j);
            lemma_sub_scale_zero(code.x + j2);
            let a = (code.x + j) * ps + comps[k].poffset;
            let b = (code.x + j2) * ps + comps[k].poffset;
            lemma_offset_injective(stride, a, code.y + i, b, code.y + i2);
            assert(j == j2) by (nonlinear_arith)
                requires
                    (code.x + j) * ps == (code.x + j2) * ps,
                    ps >= 1,
            ;
        }
    }
}

/// In a planar layout, a timestamp stamped over a region of 8 by 8 pixels
/// or more is read back from the untouched frame at any tolerance from 1
/// to 255, where the frame has an RGB or a YUV color model and 8-bit
/// components without shift, each in a plane of its own that holds its
/// samples of the region.
pub proof fn lemma_original_round_trip_planar(
    frame: FrameView,
    t: u64,
    region: StamperConfig,
    reading: ReaderConfig,
)
    requires
        frame.wf(),
        frame.bits == 8,
        frame.flags.rgb || frame.flags.yuv,
        frame.components.len() >= 1,
        forall|k: int|
            0 <= k < frame.components.len() && k < 3 ==> supported(#[trigger] frame.components[k]),
        reading.x == region.x,
        reading.y == region.y,
        reading.width == region.width,
        reading.height == region.height,
        region.width >= 8,
        region.height >= 8,
        1 <= reading.tolerance <= 255,
        planar_layout(frame.planes, frame.components, original_code(frame, t, region)),
    ensures
        !stamp_refused(frame, t, region),
        read_spec(stamp_spec(frame, t, region), reading) == Ok::<Option<u64>, CodecError>(Some(t)),
{
    lemma_planar_layout(frame.planes, frame.components, original_code(frame, t, region));
    lemma_original_round_trip(frame, t, region, reading);
}

} // verus!
