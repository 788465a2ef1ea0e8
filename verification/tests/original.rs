use tslatency::frame::{CodecError, Component, FormatFlags, Frame, PixelFormat, Plane};
use tslatency::stamper::original::{
    abs_diff, find_unsupported, grid_cell, least, locate_sample, pixel_votes, stamp_component,
    stamp_pixel, sub_scale, time_code_bit_at, OriginalReader, OriginalStamper,
};
use tslatency::stamper::traits::{
    ReaderConfig, StamperConfig, TimestampReader, TimestampStamper,
};

fn component(plane: usize, pixel_stride: usize, poffset: usize, sub: u32) -> Component {
    Component { plane, pixel_stride, poffset, depth: 8, shift: 0, h_sub: sub, w_sub: sub }
}

fn rgb_frame(width: usize, height: usize, fill: u8) -> Frame {
    Frame {
        format: PixelFormat::Other,
        flags: FormatFlags { rgb: true, yuv: false },
        bits: 8,
        components: vec![component(0, 3, 0, 0), component(0, 3, 1, 0), component(0, 3, 2, 0)],
        planes: vec![Plane { stride: 3 * width, data: vec![fill; 3 * width * height] }],
    }
}

fn rgba_frame(width: usize, height: usize, fill: u8) -> Frame {
    Frame {
        format: PixelFormat::Other,
        flags: FormatFlags { rgb: true, yuv: false },
        bits: 8,
        components: vec![
            component(0, 4, 0, 0),
            component(0, 4, 1, 0),
            component(0, 4, 2, 0),
            component(0, 4, 3, 0),
        ],
        planes: vec![Plane { stride: 4 * width, data: vec![fill; 4 * width * height] }],
    }
}

fn i420_frame(width: usize, height: usize, fill: u8) -> Frame {
    Frame {
        format: PixelFormat::I420,
        flags: FormatFlags { rgb: false, yuv: true },
        bits: 8,
        components: vec![component(0, 1, 0, 0), component(1, 1, 0, 1), component(2, 1, 0, 1)],
        planes: vec![
            Plane { stride: width, data: vec![fill; width * height] },
            Plane { stride: width / 2, data: vec![fill; (width / 2) * (height / 2)] },
            Plane { stride: width / 2, data: vec![fill; (width / 2) * (height / 2)] },
        ],
    }
}

fn region(x: u32, y: u32, width: u32, height: u32) -> StamperConfig {
    StamperConfig { x, y, width, height }
}

fn window(x: u32, y: u32, width: u32, height: u32, tolerance: u32) -> ReaderConfig {
    ReaderConfig { x, y, width, height, tolerance }
}

const TIMESTAMPS: [u64; 7] = [
    0,
    1,
    0x8000_0000_0000_0000,
    0x0123_4567_89AB_CDEF,
    0xFEDC_BA98_7654_3210,
    u64::MAX,
    1_700_000_000_000_000,
];

#[test]
fn original_names() {
    assert_eq!(OriginalStamper.name(), "original");
    assert_eq!(OriginalReader.name(), "original");
    assert_eq!(OriginalStamper.description(), "Original 8x8 binary timestamp encoder");
    assert_eq!(
        OriginalReader.description(),
        "Original 8x8 binary timestamp decoder with voting"
    );
}

#[test]
fn original_pixel_to_cell() {
    // 64 pixels: eight to a cell.
    assert_eq!(grid_cell(0, 64), 0);
    assert_eq!(grid_cell(7, 64), 0);
    assert_eq!(grid_cell(8, 64), 1);
    assert_eq!(grid_cell(63, 64), 7);
    // Ten pixels: round((i + 0.5) * 0.8 - 0.5).
    let cells: Vec<u64> = (0..10).map(|i| grid_cell(i, 10)).collect();
    assert_eq!(cells, vec![0, 1, 2, 2, 3, 4, 5, 6, 6, 7]);
    // Fewer pixels than cells.
    assert_eq!(grid_cell(0, 1), 4);
    assert_eq!(grid_cell(0, 2), 2);
    assert_eq!(grid_cell(1, 2), 6);
    let cells: Vec<u64> = (0..5).map(|i| grid_cell(i, 5)).collect();
    assert_eq!(cells, vec![0, 2, 4, 5, 7]);
    assert_eq!(grid_cell(0xFFFF_FFFE, 0xFFFF_FFFF), 7);
    assert_eq!(grid_cell(0x7FFF_FFFF, 0xFFFF_FFFF), 4);
}

#[test]
fn original_bit_of_a_cell() {
    // Bit c of byte r, byte 0 the most significant.
    assert!(time_code_bit_at(0x8000_0000_0000_0000, 0, 7));
    assert!(!time_code_bit_at(0x8000_0000_0000_0000, 0, 6));
    assert!(time_code_bit_at(0x0000_0000_0000_0001, 7, 0));
    assert!(time_code_bit_at(0x0000_0400_0000_0000, 2, 2));
    for r in 0..8 {
        for c in 0..8 {
            let byte = 0x0123_4567_89AB_CDEFu64.to_be_bytes()[r as usize];
            assert_eq!(time_code_bit_at(0x0123_4567_89AB_CDEF, r, c), byte & (1 << c) != 0);
        }
    }
}

#[test]
fn original_subsampled_coordinates_round_up() {
    assert_eq!(sub_scale(7, 0), 7);
    assert_eq!(sub_scale(4, 1), 2);
    assert_eq!(sub_scale(5, 1), 3);
    assert_eq!(sub_scale(0, 2), 0);
    assert_eq!(sub_scale(1, 2), 1);
    assert_eq!(sub_scale(9, 2), 3);
    assert_eq!(sub_scale(0x4_0000_0000, 31), 8);
    assert_eq!(sub_scale(0x4_0000_0000, 0), 0x4_0000_0000);
}

#[test]
fn original_small_helpers() {
    assert_eq!(abs_diff(3, 250), 247);
    assert_eq!(abs_diff(250, 3), 247);
    assert_eq!(abs_diff(9, 9), 0);
    assert_eq!(least(3, 4, 5), 3);
    assert_eq!(least(4, 3, 5), 3);
    assert_eq!(least(5, 4, 3), 3);
    assert_eq!(least(0, 0, 0), 0);
    let mut components = vec![component(0, 1, 0, 0); 3];
    assert_eq!(find_unsupported(&components, 3), 3);
    components[1].depth = 10;
    components[2].shift = 2;
    assert_eq!(find_unsupported(&components, 3), 1);
    assert_eq!(find_unsupported(&components, 1), 1);
    assert_eq!(find_unsupported(&components, 0), 0);
}

#[test]
fn original_sample_location() {
    let frame = i420_frame(8, 8, 0);
    assert_eq!(locate_sample(&frame, 0, 3, 5), Some(3 * 8 + 5));
    // Chroma: row 3 and column 5 round up to 2 and 3.
    assert_eq!(locate_sample(&frame, 1, 3, 5), Some(2 * 4 + 3));
    assert_eq!(locate_sample(&frame, 2, 7, 7), None);
    assert_eq!(locate_sample(&frame, 0, 8, 0), None);
    let packed = rgb_frame(4, 4, 0);
    assert_eq!(locate_sample(&packed, 2, 1, 2), Some(12 + 6 + 2));
    assert_eq!(locate_sample(&packed, 0, 0x4_0000_0000, 0x4_0000_0000), None);
}

#[test]
fn original_stamps_components_in_their_planes() {
    let mut frame = i420_frame(8, 8, 0);
    stamp_component(&mut frame, 1, 2, 2, 9);
    assert_eq!(frame.planes[1].data[4 + 1], 9);
    assert_eq!(frame.planes[1].data.iter().filter(|&&v| v != 0).count(), 1);
    assert!(frame.planes[0].data.iter().all(|&v| v == 0));
    stamp_component(&mut frame, 1, 100, 100, 9);
    assert_eq!(frame.planes[1].data.iter().filter(|&&v| v != 0).count(), 1);
    stamp_pixel(&mut frame, 0, 0, &[1, 2, 3], 3);
    assert_eq!(frame.planes[0].data[0], 1);
    assert_eq!(frame.planes[1].data[0], 2);
    assert_eq!(frame.planes[2].data[0], 3);
    stamp_pixel(&mut frame, 1, 1, &[4, 5, 6], 2);
    assert_eq!(frame.planes[0].data[9], 4);
    assert_eq!(frame.planes[1].data[5], 5);
    assert_eq!(frame.planes[2].data[5], 0);
}

#[test]
fn original_pixel_matching() {
    let mut frame = rgb_frame(2, 2, 250);
    assert!(pixel_votes(&frame, 0, 0, &[255, 255, 255], 6, 3));
    assert!(!pixel_votes(&frame, 0, 0, &[255, 255, 255], 5, 3));
    assert!(!pixel_votes(&frame, 0, 0, &[0, 0, 0], 250, 3));
    assert!(pixel_votes(&frame, 0, 0, &[0, 0, 0], 251, 3));
    frame.planes[0].data[2] = 0;
    assert!(!pixel_votes(&frame, 0, 0, &[255, 255, 255], 6, 3));
    assert!(pixel_votes(&frame, 0, 0, &[255, 255, 255], 6, 2));
    assert!(pixel_votes(&frame, 0, 1, &[255, 255, 255], 6, 3));
    // No tolerance matches nothing; no component matches anything.
    assert!(!pixel_votes(&frame, 0, 1, &[250, 250, 250], 0, 3));
    assert!(pixel_votes(&frame, 0, 1, &[250, 250, 250], 0, 0));
    // A pixel beyond the plane does not match.
    assert!(!pixel_votes(&frame, 2, 0, &[250, 250, 250], 6, 3));
}

#[test]
fn original_stamps_an_8x8_grid() {
    let mut frame = rgb_frame(64, 64, 77);
    let t = 0x8000_0000_0000_0001;
    assert_eq!(OriginalStamper.stamp(&mut frame, t, &region(0, 0, 64, 64)), Ok(()));
    for y in 0..64usize {
        for x in 0..64usize {
            // Bit 7 of byte 0 is cell (0, 7); bit 0 of byte 7 is cell (7, 0).
            let white = (y < 8 && x >= 56) || (y >= 56 && x < 8);
            for k in 0..3 {
                assert_eq!(frame.planes[0].data[y * 192 + 3 * x + k], if white { 255 } else { 0 });
            }
        }
    }
}

#[test]
fn original_stamps_yuv_with_neutral_chroma() {
    let mut frame = i420_frame(16, 16, 77);
    assert_eq!(OriginalStamper.stamp(&mut frame, u64::MAX, &region(0, 0, 16, 16)), Ok(()));
    assert!(frame.planes[0].data.iter().all(|&v| v == 255));
    assert!(frame.planes[1].data.iter().all(|&v| v == 128));
    assert!(frame.planes[2].data.iter().all(|&v| v == 128));
    assert_eq!(OriginalStamper.stamp(&mut frame, 0, &region(0, 0, 8, 8)), Ok(()));
    for y in 0..16usize {
        for x in 0..16usize {
            assert_eq!(frame.planes[0].data[y * 16 + x], if x < 8 && y < 8 { 0 } else { 255 });
        }
    }
    assert!(frame.planes[1].data.iter().all(|&v| v == 128));
}

#[test]
fn original_round_trip_rgb() {
    for &t in &TIMESTAMPS {
        let mut frame = rgb_frame(64, 64, 100);
        assert_eq!(OriginalStamper.stamp(&mut frame, t, &region(0, 0, 64, 64)), Ok(()));
        assert_eq!(OriginalReader.read(&frame, &window(0, 0, 64, 64, 5)), Ok(Some(t)));
        assert_eq!(OriginalReader.read(&frame, &window(0, 0, 64, 64, 1)), Ok(Some(t)));
        assert_eq!(OriginalReader.read(&frame, &window(0, 0, 64, 64, 255)), Ok(Some(t)));
    }
}

#[test]
fn original_round_trip_i420() {
    for &t in &TIMESTAMPS {
        let mut frame = i420_frame(64, 64, 100);
        assert_eq!(OriginalStamper.stamp(&mut frame, t, &region(0, 0, 64, 64)), Ok(()));
        assert_eq!(OriginalReader.read(&frame, &window(0, 0, 64, 64, 5)), Ok(Some(t)));
    }
}

#[test]
fn original_round_trip_with_four_components() {
    for &t in &TIMESTAMPS {
        let mut frame = rgba_frame(32, 32, 9);
        assert_eq!(OriginalStamper.stamp(&mut frame, t, &region(0, 0, 32, 32)), Ok(()));
        // The fourth component has no reference value and is left alone.
        assert!(frame.planes[0].data.iter().skip(3).step_by(4).all(|&v| v == 9));
        assert_eq!(OriginalReader.read(&frame, &window(0, 0, 32, 32, 5)), Ok(Some(t)));
    }
}

#[test]
fn original_round_trip_in_odd_regions() {
    for &(x, y, width, height) in &[(3u32, 5u32, 8u32, 8u32), (1, 1, 13, 29), (10, 20, 100, 9)] {
        for &t in &TIMESTAMPS {
            let mut frame = rgb_frame(128, 64, 50);
            assert_eq!(OriginalStamper.stamp(&mut frame, t, &region(x, y, width, height)), Ok(()));
            assert_eq!(
                OriginalReader.read(&frame, &window(x, y, width, height, 5)),
                Ok(Some(t))
            );
        }
    }
}

#[test]
fn original_has_no_error_detection() {
    let t = 0x0123_4567_89AB_CDEF;
    let mut frame = rgb_frame(64, 64, 0);
    OriginalStamper.stamp(&mut frame, t, &region(0, 0, 64, 64)).unwrap();
    // Paint cell (7, 0), which carries bit 0 of the last byte, black.
    for y in 56..64usize {
        for x in 0..8usize {
            for k in 0..3 {
                frame.planes[0].data[y * 192 + 3 * x + k] = 0;
            }
        }
    }
    assert_eq!(OriginalReader.read(&frame, &window(0, 0, 64, 64, 5)), Ok(Some(t ^ 1)));
    // A cell in which neither color has the majority reads as zero.
    for y in 0..8usize {
        for x in 0..8usize {
            for k in 0..3 {
                frame.planes[0].data[y * 192 + 3 * x + k] = 128;
            }
        }
    }
    let without_cell = (t ^ 1) & !(1u64 << 56);
    assert_eq!(OriginalReader.read(&frame, &window(0, 0, 64, 64, 5)), Ok(Some(without_cell)));
    // A flat gray frame reads as zero.
    let gray = rgb_frame(64, 64, 128);
    assert_eq!(OriginalReader.read(&gray, &window(0, 0, 64, 64, 5)), Ok(Some(0)));
    // With a tolerance above 255 every pixel matches both colors.
    assert_eq!(OriginalReader.read(&frame, &window(0, 0, 64, 64, 256)), Ok(Some(0)));
    assert_eq!(OriginalReader.read(&frame, &window(0, 0, 64, 64, 0)), Ok(Some(0)));
}

#[test]
fn original_majority_decides_a_cell() {
    let mut frame = rgb_frame(64, 64, 0);
    // Cell (7, 0): 33 white pixels of 64 make a one, 32 do not.
    let paint = |frame: &mut Frame, pixels: usize| {
        for n in 0..64usize {
            let (x, y) = (n % 8, 56 + n / 8);
            for k in 0..3 {
                frame.planes[0].data[y * 192 + 3 * x + k] = if n < pixels { 255 } else { 0 };
            }
        }
    };
    paint(&mut frame, 33);
    assert_eq!(OriginalReader.read(&frame, &window(0, 0, 64, 64, 5)), Ok(Some(1)));
    paint(&mut frame, 32);
    assert_eq!(OriginalReader.read(&frame, &window(0, 0, 64, 64, 5)), Ok(Some(0)));
    // A pixel with one component off is no white pixel: 31 white pixels
    // against 31 black ones are no majority.
    paint(&mut frame, 33);
    frame.planes[0].data[56 * 192 + 1] = 200;
    assert_eq!(OriginalReader.read(&frame, &window(0, 0, 64, 64, 5)), Ok(Some(1)));
    frame.planes[0].data[56 * 192 + 3 + 2] = 200;
    assert_eq!(OriginalReader.read(&frame, &window(0, 0, 64, 64, 5)), Ok(Some(0)));
    assert_eq!(OriginalReader.read(&frame, &window(0, 0, 64, 64, 56)), Ok(Some(1)));
}

#[test]
fn original_region_smaller_than_the_grid() {
    // Five pixels fall into cells 0, 2, 4, 5 and 7.
    let mut frame = rgb_frame(8, 8, 3);
    assert_eq!(OriginalStamper.stamp(&mut frame, u64::MAX, &region(0, 0, 5, 5)), Ok(()));
    let mut expected = 0u64;
    for r in [0, 2, 4, 5, 7] {
        for c in [0, 2, 4, 5, 7] {
            expected |= 1 << (8 * (7 - r) + c);
        }
    }
    assert_eq!(OriginalReader.read(&frame, &window(0, 0, 5, 5, 5)), Ok(Some(expected)));
    // An empty region stamps nothing and reads zero.
    let before = frame.planes[0].data.clone();
    assert_eq!(OriginalStamper.stamp(&mut frame, 0, &region(0, 0, 0, 5)), Ok(()));
    assert_eq!(OriginalStamper.stamp(&mut frame, 0, &region(0, 0, 5, 0)), Ok(()));
    assert_eq!(frame.planes[0].data, before);
    assert_eq!(OriginalReader.read(&frame, &window(0, 0, 0, 0, 5)), Ok(Some(0)));
}

#[test]
fn original_region_beyond_the_frame_is_skipped() {
    let mut frame = rgb_frame(8, 8, 3);
    assert_eq!(OriginalStamper.stamp(&mut frame, u64::MAX, &region(0, 4, 8, 64)), Ok(()));
    assert_eq!(frame.planes[0].data.len(), 3 * 64);
    assert!(frame.planes[0].data[..3 * 32].iter().all(|&v| v == 3));
    assert!(frame.planes[0].data[3 * 32..].iter().all(|&v| v == 255));
    assert_eq!(OriginalStamper.stamp(&mut frame, 0, &region(1000, 1000, 8, 8)), Ok(()));
    assert!(frame.planes[0].data[3 * 32..].iter().all(|&v| v == 255));
    assert_eq!(OriginalReader.read(&frame, &window(1000, 1000, 8, 8, 5)), Ok(Some(0)));
    assert_eq!(
        OriginalReader.read(&frame, &window(u32::MAX, u32::MAX, 2, 2, 5)),
        Ok(Some(0))
    );
}

#[test]
fn original_refuses_unsupported_formats() {
    let mut frame = rgb_frame(8, 8, 3);
    frame.flags = FormatFlags { rgb: false, yuv: false };
    let before = frame.planes[0].data.clone();
    assert_eq!(
        OriginalStamper.stamp(&mut frame, 1, &region(0, 0, 8, 8)),
        Err(CodecError::UnsupportedFormat)
    );
    assert_eq!(frame.planes[0].data, before);
    assert_eq!(
        OriginalReader.read(&frame, &window(0, 0, 8, 8, 5)),
        Err(CodecError::UnsupportedFormat)
    );
    // The reader goes by the bits of the format.
    let mut deep = rgb_frame(8, 8, 3);
    deep.bits = 10;
    assert_eq!(
        OriginalReader.read(&deep, &window(0, 0, 8, 8, 5)),
        Err(CodecError::UnsupportedFormat)
    );
    assert_eq!(
        OriginalReader.measure_latency_using_time_code(
            &deep,
            &window(0, 0, 8, 8, 5),
            &[255, 255, 255],
            &[0, 0, 0]
        ),
        Err(CodecError::UnsupportedFormat)
    );
    assert_eq!(OriginalStamper.stamp(&mut deep, 1, &region(0, 0, 8, 8)), Ok(()));
}

#[test]
fn original_stamper_stops_at_an_unsupported_component() {
    // The third component is 10 bits deep: the first two of the first pixel
    // are stamped before the stamper gives up.
    let mut frame = rgb_frame(8, 8, 3);
    frame.components[2].depth = 10;
    assert_eq!(
        OriginalStamper.stamp(&mut frame, u64::MAX, &region(1, 1, 6, 6)),
        Err(CodecError::UnsupportedFormat)
    );
    let at = 24 + 3;
    assert_eq!(&frame.planes[0].data[at..at + 3], &[255, 255, 3]);
    assert_eq!(frame.planes[0].data.iter().filter(|&&v| v != 3).count(), 2);
    // A shift is refused as well, before anything is stamped.
    let mut shifted = rgb_frame(8, 8, 3);
    shifted.components[0].shift = 1;
    assert_eq!(
        OriginalStamper.stamp(&mut shifted, 0, &region(0, 0, 8, 8)),
        Err(CodecError::UnsupportedFormat)
    );
    assert!(shifted.planes[0].data.iter().all(|&v| v == 3));
    // An empty region is never refused, and a fourth component is not
    // looked at.
    assert_eq!(OriginalStamper.stamp(&mut shifted, 0, &region(0, 0, 0, 0)), Ok(()));
    let mut alpha = rgba_frame(8, 8, 3);
    alpha.components[3].depth = 16;
    assert_eq!(OriginalStamper.stamp(&mut alpha, 0, &region(0, 0, 8, 8)), Ok(()));
    // The reader does not look at the depth of the components.
    frame.components[2].depth = 8;
    OriginalStamper.stamp(&mut frame, 5, &region(0, 0, 8, 8)).unwrap();
    frame.components[2].depth = 10;
    assert_eq!(OriginalReader.read(&frame, &window(0, 0, 8, 8, 5)), Ok(Some(5)));
}

#[test]
fn original_stamps_with_given_reference_colors() {
    let mut frame = rgb_frame(8, 8, 3);
    // Two reference values: the third component is left alone.
    assert_eq!(
        OriginalStamper.stamp_time_code(
            &mut frame,
            0x0100_0000_0000_0000,
            &region(0, 0, 8, 8),
            &[200, 201],
            &[10, 11, 12]
        ),
        Ok(())
    );
    assert_eq!(&frame.planes[0].data[..6], &[200, 201, 3, 10, 11, 3]);
    assert_eq!(
        OriginalReader.measure_latency_using_time_code(
            &frame,
            &window(0, 0, 8, 8, 1),
            &[200, 201],
            &[10, 11, 12]
        ),
        Ok(Some(0x0100_0000_0000_0000))
    );
    // No reference value at all: nothing is stamped, and every pixel votes
    // for both colors.
    let before = frame.planes[0].data.clone();
    assert_eq!(
        OriginalStamper.stamp_time_code(&mut frame, u64::MAX, &region(0, 0, 8, 8), &[], &[0]),
        Ok(())
    );
    assert_eq!(frame.planes[0].data, before);
    assert_eq!(
        OriginalReader.measure_latency_using_time_code(&frame, &window(0, 0, 8, 8, 1), &[], &[0]),
        Ok(Some(0))
    );
}
