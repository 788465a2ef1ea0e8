use tslatency::frame::{Component, FormatFlags, Frame, PixelFormat, Plane};
use tslatency::geometry::CellGrid;
use tslatency::raster::{fill_block, plane_offset, sample_rect};

#[test]
fn grid_of_the_default_region() {
    let grid = CellGrid::for_region(0, 0, 64, 64, 4, 0);
    assert_eq!(grid.cols, 16);
    assert_eq!(grid.rows, 16);
    assert_eq!(grid.cell, 4);
    assert_eq!(grid.pitch, 4);
    assert_eq!(grid.capacity(), 256);
    assert_eq!(grid.origin(0), (0, 0));
    assert_eq!(grid.origin(15), (60, 0));
    assert_eq!(grid.origin(16), (0, 4));
    assert_eq!(grid.origin(17), (4, 4));
    assert_eq!(grid.origin(255), (60, 60));
}

#[test]
fn grid_with_guard_band_and_offset() {
    let grid = CellGrid::for_region(10, 20, 64, 50, 4, 2);
    assert_eq!(grid.pitch, 6);
    assert_eq!(grid.cols, 10);
    assert_eq!(grid.rows, 8);
    assert_eq!(grid.capacity(), 80);
    assert_eq!(grid.origin(0), (10, 20));
    assert_eq!(grid.origin(11), (16, 26));
    assert_eq!(grid.origin(79), (10 + 9 * 6, 20 + 7 * 6));
}

#[test]
fn grid_of_a_region_of_eight_pixels_holds_four_bits() {
    let grid = CellGrid::for_region(0, 0, 8, 8, 4, 0);
    assert_eq!(grid.capacity(), 4);
    assert_eq!(grid.origin(3), (4, 4));
}

#[test]
fn grid_of_a_region_smaller_than_a_cell_is_empty() {
    let grid = CellGrid::for_region(5, 5, 3, 100, 4, 0);
    assert_eq!(grid.cols, 0);
    assert_eq!(grid.capacity(), 0);
    let flat = CellGrid::for_region(0, 0, 0, 0, 1, 0);
    assert_eq!(flat.capacity(), 0);
}

#[test]
fn grid_of_the_largest_region() {
    let grid = CellGrid::for_region(u32::MAX, u32::MAX, u32::MAX, u32::MAX, 1, 0);
    assert_eq!(grid.capacity(), (u32::MAX as u64) * (u32::MAX as u64));
    let last = grid.capacity() - 1;
    assert_eq!(
        grid.origin(last),
        (2 * (u32::MAX as u64) - 1, 2 * (u32::MAX as u64) - 1)
    );
}

#[test]
fn grid_of_a_fixed_shape() {
    assert!(CellGrid::shape_fits(8, 12, 8));
    assert!(!CellGrid::shape_fits(0, 12, 8));
    assert!(CellGrid::shape_fits(1, 0xFFFF_FFFF, 0));
    assert!(!CellGrid::shape_fits(2, 0x8000_0000, 1));
    assert!(!CellGrid::shape_fits(2, 1, 0x8000_0000));
    let grid = CellGrid::with_shape(3, 5, 8, 12, 8);
    assert_eq!(grid.capacity(), 96);
    assert_eq!(grid.origin(13), (3 + 8, 5 + 8));
    assert_eq!(grid.origin(95), (3 + 11 * 8, 5 + 7 * 8));
}

#[test]
fn pixel_lies_at_row_times_stride_plus_column() {
    assert_eq!(plane_offset(64, 3, 2), 131);
    assert_eq!(plane_offset(0, 7, 1000), 7);
    assert_eq!(
        plane_offset(usize::MAX, 1, 0x4_0000_0000),
        0x4_0000_0000u128 * (usize::MAX as u128) + 1
    );
}

#[test]
fn block_fill_sets_the_block_and_nothing_else() {
    let mut data = vec![0u8; 8 * 8];
    fill_block(&mut data, 8, 2, 3, 4, 9);
    for y in 0..8usize {
        for x in 0..8usize {
            let inside = (2..6).contains(&x) && (3..7).contains(&y);
            assert_eq!(data[y * 8 + x], if inside { 9 } else { 0 });
        }
    }
}

#[test]
fn block_fill_skips_rows_that_leave_the_plane() {
    // Six rows of eight bytes: rows 4 and 5 of the block at y = 4 lie in the
    // plane, rows 6 and 7 do not.
    let mut data = vec![0u8; 6 * 8];
    fill_block(&mut data, 8, 4, 4, 4, 7);
    assert_eq!(data.len(), 48);
    assert_eq!(&data[36..40], &[7, 7, 7, 7]);
    assert_eq!(&data[44..48], &[7, 7, 7, 7]);
    assert_eq!(data.iter().filter(|&&v| v == 7).count(), 8);
    // A row whose end lies beyond the plane is skipped whole.
    let mut short = vec![0u8; 47];
    fill_block(&mut short, 8, 4, 4, 4, 7);
    assert_eq!(short.iter().filter(|&&v| v == 7).count(), 4);
    let mut empty: Vec<u8> = Vec::new();
    fill_block(&mut empty, 8, 0, 0, 4, 7);
    assert!(empty.is_empty());
}

#[test]
fn rectangle_samples_are_summed_and_counted() {
    let data: Vec<u8> = (0u8..64).collect();
    assert_eq!(sample_rect(&data, 8, 1, 1, 2, 2), (9 + 10 + 17 + 18, 4));
    assert_eq!(sample_rect(&data, 8, 0, 0, 0, 5), (0, 0));
    assert_eq!(sample_rect(&data, 8, 0, 0, 5, 0), (0, 0));
    // Row 8 lies beyond the plane: only row 7 is sampled.
    assert_eq!(sample_rect(&data, 8, 6, 7, 2, 2), (62 + 63, 2));
    assert_eq!(sample_rect(&data, 8, 0, 9, 2, 2), (0, 0));
}

#[test]
fn frame_is_well_formed_when_components_name_planes() {
    let component = Component {
        plane: 0,
        pixel_stride: 1,
        poffset: 0,
        depth: 8,
        shift: 0,
        h_sub: 0,
        w_sub: 0,
    };
    let mut frame = Frame {
        format: PixelFormat::Other,
        flags: FormatFlags { rgb: false, yuv: true },
        bits: 8,
        components: vec![component],
        planes: vec![Plane { stride: 4, data: vec![0; 16] }],
    };
    assert!(frame.is_well_formed());
    frame.components[0].plane = 1;
    assert!(!frame.is_well_formed());
    frame.components[0].plane = 0;
    frame.components[0].h_sub = 32;
    assert!(!frame.is_well_formed());
    frame.components[0].h_sub = 31;
    frame.components[0].w_sub = 32;
    assert!(!frame.is_well_formed());
    frame.components[0].w_sub = 0;
    frame.planes.clear();
    assert!(!frame.is_well_formed());
    frame.components.clear();
    assert!(!frame.is_well_formed());
}
