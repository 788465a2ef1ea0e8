use tslatency::bitmap::{bitmap_fits, get_color, parse_time_code, PackedFormat};
use tslatency::frame::{Component, FormatFlags, Frame, PixelFormat, Plane};
use tslatency::stamper::original::OriginalStamper;
use tslatency::stamper::traits::{StamperConfig, TimestampStamper};

fn packed_frame(width: usize, height: usize, channels: usize, fill: u8) -> Frame {
    let component = |poffset: usize| Component {
        plane: 0,
        pixel_stride: channels,
        poffset,
        depth: 8,
        shift: 0,
        h_sub: 0,
        w_sub: 0,
    };
    Frame {
        format: PixelFormat::Other,
        flags: FormatFlags { rgb: true, yuv: false },
        bits: 8,
        components: vec![component(0), component(1), component(2)],
        planes: vec![Plane {
            stride: channels * width,
            data: vec![fill; channels * width * height],
        }],
    }
}

#[test]
fn bitmap_colors() {
    assert_eq!(get_color(&[255, 255, 255], 0, PackedFormat::Rgb), Some(true));
    assert_eq!(get_color(&[0, 0, 0], 0, PackedFormat::Rgb), Some(false));
    assert_eq!(get_color(&[0, 0, 1], 0, PackedFormat::Rgb), None);
    assert_eq!(get_color(&[255, 254, 255], 0, PackedFormat::Rgb), None);
    assert_eq!(get_color(&[9, 0, 0, 0, 7], 1, PackedFormat::Rgb), Some(false));
    assert_eq!(get_color(&[255, 255, 255, 255], 0, PackedFormat::Rgba), Some(true));
    assert_eq!(get_color(&[0, 0, 0, 255], 0, PackedFormat::Rgba), Some(false));
    assert_eq!(get_color(&[0, 0, 0, 0], 0, PackedFormat::Rgba), None);
    assert_eq!(get_color(&[255, 255, 255, 0], 0, PackedFormat::Rgba), None);
    assert_eq!(get_color(&[7, 255, 255, 255], 0, PackedFormat::Xrgb), Some(true));
    assert_eq!(get_color(&[7, 0, 0, 255], 0, PackedFormat::Xrgb), Some(false));
    assert_eq!(get_color(&[7, 0, 0, 0], 0, PackedFormat::Xrgb), None);
    assert_eq!(get_color(&[255, 255, 255, 255], 0, PackedFormat::Argb), Some(true));
    assert_eq!(get_color(&[255, 0, 0, 0], 0, PackedFormat::Argb), Some(false));
    assert_eq!(get_color(&[0, 0, 0, 0], 0, PackedFormat::Argb), None);
    assert_eq!(PackedFormat::Rgb.pixel_bytes(), 3);
    assert_eq!(PackedFormat::Rgba.pixel_bytes(), 4);
    assert_eq!(PackedFormat::Xrgb.pixel_bytes(), 4);
    assert_eq!(PackedFormat::Argb.pixel_bytes(), 4);
}

#[test]
fn bitmap_must_lie_in_the_plane() {
    assert!(bitmap_fits(8 * 24, 24, 3, 0, 0, PackedFormat::Rgb));
    assert!(!bitmap_fits(8 * 24 - 1, 24, 3, 0, 0, PackedFormat::Rgb));
    assert!(!bitmap_fits(8 * 24, 23, 3, 0, 0, PackedFormat::Rgb));
    assert!(!bitmap_fits(8 * 24, 24, 3, 1, 0, PackedFormat::Rgb));
    assert!(!bitmap_fits(8 * 24, 24, 3, 0, 1, PackedFormat::Rgb));
    assert!(bitmap_fits(10 * 30, 30, 3, 2, 2, PackedFormat::Rgb));
    assert!(!bitmap_fits(8 * 24, 24, 3, 0, 0, PackedFormat::Rgba));
    assert!(!bitmap_fits(8 * 24, 24, 2, 0, 0, PackedFormat::Rgb));
    assert!(bitmap_fits(8 * 40, 40, 5, 0, 0, PackedFormat::Argb));
    assert!(!bitmap_fits(0, 0, 0, 0, 0, PackedFormat::Rgb));
    assert!(!bitmap_fits(usize::MAX, usize::MAX, 3, usize::MAX, 0, PackedFormat::Rgb));
    assert!(!bitmap_fits(usize::MAX, usize::MAX, usize::MAX, 0, usize::MAX, PackedFormat::Rgb));
    assert!(!bitmap_fits(usize::MAX, usize::MAX / 2, 3, 0, 0, PackedFormat::Rgb));
}

#[test]
fn bitmap_reads_what_the_plain_stamper_wrote() {
    for &t in &[0u64, 1, 0x8000_0000_0000_0000, 0x0123_4567_89AB_CDEF, u64::MAX] {
        let mut frame = packed_frame(16, 16, 3, 0);
        let region = StamperConfig { x: 4, y: 6, width: 8, height: 8 };
        OriginalStamper.stamp(&mut frame, t, &region).unwrap();
        let plane = &frame.planes[0];
        assert_eq!(parse_time_code(&plane.data, plane.stride, 3, 4, 6, PackedFormat::Rgb), Some(t));
    }
}

#[test]
fn bitmap_bit_order() {
    // One white pixel at row 0, column 0: bit 0 of the first byte.
    let mut data = vec![0u8; 8 * 24];
    data[..3].fill(255);
    assert_eq!(parse_time_code(&data, 24, 3, 0, 0, PackedFormat::Rgb), Some(1 << 56));
    // One more at row 7, column 7: bit 7 of the last byte.
    data[7 * 24 + 21..].fill(255);
    assert_eq!(parse_time_code(&data, 24, 3, 0, 0, PackedFormat::Rgb), Some((1 << 56) | 0x80));
}

#[test]
fn bitmap_with_another_color_is_not_read() {
    let mut frame = packed_frame(8, 8, 3, 0);
    let region = StamperConfig { x: 0, y: 0, width: 8, height: 8 };
    OriginalStamper.stamp(&mut frame, 0xFFFF, &region).unwrap();
    let mut data = frame.planes[0].data.clone();
    assert_eq!(parse_time_code(&data, 24, 3, 0, 0, PackedFormat::Rgb), Some(0xFFFF));
    data[8 * 24 - 1] = 254;
    assert_eq!(parse_time_code(&data, 24, 3, 0, 0, PackedFormat::Rgb), None);
    data[8 * 24 - 1] = 255;
    data[0] = 1;
    assert_eq!(parse_time_code(&data, 24, 3, 0, 0, PackedFormat::Rgb), None);
    // Outside the plane nothing is read.
    assert_eq!(parse_time_code(&data, 24, 3, 1, 0, PackedFormat::Rgb), None);
    assert_eq!(parse_time_code(&data, 24, 3, 0, 1, PackedFormat::Rgb), None);
    assert_eq!(parse_time_code(&data[..191], 24, 3, 0, 0, PackedFormat::Rgb), None);
    assert_eq!(parse_time_code(&[], 0, 0, 0, 0, PackedFormat::Rgb), None);
}

#[test]
fn bitmap_with_alpha() {
    // Four bytes to a pixel, opaque black and white.
    let mut data = vec![0u8; 8 * 32];
    for pixel in data.chunks_mut(4) {
        pixel[3] = 255;
    }
    assert_eq!(parse_time_code(&data, 32, 4, 0, 0, PackedFormat::Rgba), Some(0));
    assert_eq!(parse_time_code(&data, 32, 4, 0, 0, PackedFormat::Xrgb), Some(0));
    assert_eq!(parse_time_code(&data, 32, 4, 0, 0, PackedFormat::Argb), None);
    data[4..8].fill(255);
    assert_eq!(parse_time_code(&data, 32, 4, 0, 0, PackedFormat::Rgba), Some(2 << 56));
    assert_eq!(parse_time_code(&data, 32, 4, 0, 0, PackedFormat::Xrgb), Some(2 << 56));
    // The first three bytes alone are looked at where the format says so.
    for pixel in data.chunks_mut(4) {
        pixel[3] = 9;
    }
    data[7] = 255;
    assert_eq!(parse_time_code(&data, 32, 4, 0, 0, PackedFormat::Rgb), Some(2 << 56));
    assert_eq!(parse_time_code(&data, 32, 4, 0, 0, PackedFormat::Rgba), None);
}
