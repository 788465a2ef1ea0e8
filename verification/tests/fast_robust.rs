use tslatency::frame::{Component, FormatFlags, Frame, PixelFormat, Plane};
use tslatency::stamper::fast_robust::{
    accept, EncodedTimestamp64, FastRobustReader, FastRobustStamper,
};
use tslatency::stamper::traits::{
    ReaderConfig, StamperConfig, TimestampReader, TimestampStamper,
};

fn luma_frame(width: usize, height: usize, fill: u8) -> Frame {
    Frame {
        format: PixelFormat::Other,
        flags: FormatFlags { rgb: false, yuv: true },
        bits: 8,
        components: vec![Component {
            plane: 0,
            pixel_stride: 1,
            poffset: 0,
            depth: 8,
            shift: 0,
            h_sub: 0,
            w_sub: 0,
        }],
        planes: vec![Plane { stride: width, data: vec![fill; width * height] }],
    }
}

fn region(x: u32, y: u32, width: u32, height: u32) -> StamperConfig {
    StamperConfig { x, y, width, height }
}

fn window(x: u32, y: u32, width: u32, height: u32) -> ReaderConfig {
    ReaderConfig { x, y, width, height, tolerance: 5 }
}

/// Overwrites the block of cell `cell` of the default 16x16 grid at the
/// origin of a plane of 64 bytes per row with the other gray level.
fn flip_cell(frame: &mut Frame, cell: usize) {
    let x0 = (cell % 16) * 4;
    let y0 = (cell / 16) * 4;
    let old = frame.planes[0].data[y0 * 64 + x0];
    let new = if old == 235 { 20 } else { 235 };
    for y in y0..y0 + 4 {
        for x in x0..x0 + 4 {
            frame.planes[0].data[y * 64 + x] = new;
        }
    }
}

#[test]
fn fast_robust_defaults() {
    let stamper = FastRobustStamper::default();
    assert_eq!(stamper.block_size, 4);
    assert_eq!(stamper.guard_pixels, 0);
    assert!(stamper.use_2d_redundancy);
    assert!(stamper.is_well_formed());
    let reader = FastRobustReader::default();
    assert_eq!(reader.block_size, 4);
    assert_eq!(reader.guard_pixels, 0);
    assert_eq!(reader.threshold, 128);
    assert_eq!(reader.min_confidence_percent, 50);
    assert!(reader.is_well_formed());
    assert_eq!(stamper.name(), "fast-robust");
    assert_eq!(reader.name(), "fast-robust");
    assert_eq!(
        stamper.description(),
        "Fast BCH(7,4) error correcting stamper with full 64-bit timestamps"
    );
    assert_eq!(
        reader.description(),
        "Fast BCH(7,4) error correcting reader with full 64-bit timestamps"
    );
}

#[test]
fn fast_robust_without_cell_extent_is_not_well_formed() {
    let mut stamper = FastRobustStamper::default();
    stamper.block_size = 0;
    assert!(!stamper.is_well_formed());
    stamper.guard_pixels = 1;
    assert!(stamper.is_well_formed());
    stamper.table.codes[0] = 1;
    assert!(!stamper.is_well_formed());
    let reader = FastRobustReader {
        block_size: 0,
        guard_pixels: 0,
        threshold: 128,
        min_confidence_percent: 50,
    };
    assert!(!reader.is_well_formed());
}

#[test]
fn fast_robust_scenario_encodes_nibble_by_nibble() {
    let stamper = FastRobustStamper::default();
    let encoded = stamper.encode_timestamp_fast(0x0000_0000_00AB_CDEF);
    assert_eq!(
        encoded.bch_codes,
        [0, 0, 0, 0, 0, 0, 0, 0, 0, 0, 0x52, 0x59, 0x61, 0x6a, 0x74, 0x7f]
    );
    assert_eq!(encoded.crc8, 0x80);
    assert_eq!(encoded.correct_codewords(), (0x0000_0000_00AB_CDEF, 0));
    assert_eq!(stamper.calculate_crc8(0x0000_0000_00AB_CDEF), 0x80);
}

#[test]
fn fast_robust_scenario_reads_back_without_correction() {
    let stamper = FastRobustStamper::default();
    let reader = FastRobustReader::default();
    let mut frame = luma_frame(64, 64, 0);
    assert_eq!(stamper.stamp(&mut frame, 0x0000_0000_00AB_CDEF, &region(0, 0, 64, 64)), Ok(()));
    let (encoded, confidence) = reader.read_payload(&frame, &window(0, 0, 64, 64)).unwrap();
    assert_eq!(
        encoded.bch_codes,
        [0, 0, 0, 0, 0, 0, 0, 0, 0, 0, 0x52, 0x59, 0x61, 0x6a, 0x74, 0x7f]
    );
    assert_eq!(encoded.crc8, 0x80);
    assert_eq!(encoded.correct_codewords(), (0x0000_0000_00AB_CDEF, 0));
    // A white cell lies 107 levels from the threshold and a black one 108.
    let ones = encoded.bch_codes.iter().map(|c| c.count_ones()).sum::<u32>()
        + encoded.crc8.count_ones();
    assert_eq!(confidence, ones * 107 + (120 - ones) * 108);
    assert_eq!(reader.read(&frame, &window(0, 0, 64, 64)), Ok(Some(0x0000_0000_00AB_CDEF)));
}

#[test]
fn fast_robust_payload_is_stamped_most_significant_bit_first() {
    let stamper = FastRobustStamper::default();
    let mut frame = luma_frame(64, 64, 0);
    stamper.stamp(&mut frame, 0xA000_0000_0000_0000, &region(0, 0, 64, 64)).unwrap();
    // The first codeword is that of 0xA, 1010010, in cells 0 to 6.
    let expected = [235u8, 20, 235, 20, 20, 235, 20];
    for (cell, level) in expected.iter().enumerate() {
        for dy in 0..4 {
            for dx in 0..4 {
                assert_eq!(frame.planes[0].data[dy * 64 + cell * 4 + dx], *level);
            }
        }
    }
    // Cell 16 starts the second row of the grid, four pixels down.
    let encoded = stamper.encode_timestamp_fast(0xA000_0000_0000_0000);
    assert_eq!(encoded.payload_bit(16), frame.planes[0].data[4 * 64] == 235);
    assert!(encoded.payload_bit(0));
    assert!(!encoded.payload_bit(1));
    // Only the 120 cells of the payload are written: 7 rows and a half.
    assert!(frame.planes[0].data[32 * 64..].iter().all(|&v| v == 0));
    assert!(frame.planes[0].data[28 * 64 + 32..29 * 64].iter().all(|&v| v == 0));
    assert!(frame.planes[0].data[28 * 64..28 * 64 + 32].iter().all(|&v| v == 235 || v == 20));
}

#[test]
fn fast_robust_round_trip() {
    let stamper = FastRobustStamper::default();
    let reader = FastRobustReader::default();
    for &t in &[
        0u64,
        1,
        0x0000_FFFF_FFFF_FFFF,
        0x0123_4567_89AB_CDEF,
        0x8000_0000_0000_0000,
        u64::MAX,
        1_700_000_000_000_000,
    ] {
        let mut frame = luma_frame(64, 64, 77);
        assert_eq!(stamper.stamp(&mut frame, t, &region(0, 0, 64, 64)), Ok(()));
        assert_eq!(reader.read(&frame, &window(0, 0, 64, 64)), Ok(Some(t)));
        assert_eq!(reader.decode_timestamp_fast(&frame, &window(0, 0, 64, 64)), Some(t));
    }
}

#[test]
fn fast_robust_round_trip_inside_a_larger_frame() {
    let stamper = FastRobustStamper::default();
    let reader = FastRobustReader::default();
    let mut frame = luma_frame(320, 240, 128);
    let t = 0x0FED_CBA9_8765_4321;
    assert_eq!(stamper.stamp(&mut frame, t, &region(100, 50, 80, 40)), Ok(()));
    assert_eq!(reader.read(&frame, &window(100, 50, 80, 40)), Ok(Some(t)));
    // Nothing left of or above the region was touched.
    for y in 0..240usize {
        for x in 0..320usize {
            if x < 100 || y < 50 || x >= 180 || y >= 90 {
                assert_eq!(frame.planes[0].data[y * 320 + x], 128);
            }
        }
    }
}

#[test]
fn fast_robust_round_trip_with_guard_band_and_other_block_sizes() {
    for &(block_size, guard_pixels) in &[(2u8, 0u8), (3, 1), (4, 2), (8, 0), (5, 3)] {
        let mut stamper = FastRobustStamper::default();
        stamper.block_size = block_size;
        stamper.guard_pixels = guard_pixels;
        let reader = FastRobustReader {
            block_size,
            guard_pixels,
            threshold: 128,
            min_confidence_percent: 50,
        };
        let mut frame = luma_frame(200, 200, 0);
        let t = 0xDEAD_BEEF_0BAD_F00D;
        assert_eq!(stamper.stamp(&mut frame, t, &region(3, 5, 190, 190)), Ok(()));
        assert_eq!(reader.read(&frame, &window(3, 5, 190, 190)), Ok(Some(t)));
    }
}

#[test]
fn fast_robust_blocks_of_one_pixel_cannot_be_read() {
    let mut stamper = FastRobustStamper::default();
    stamper.block_size = 1;
    let reader = FastRobustReader {
        block_size: 1,
        guard_pixels: 0,
        threshold: 128,
        min_confidence_percent: 50,
    };
    let mut frame = luma_frame(64, 64, 0);
    assert_eq!(stamper.stamp(&mut frame, 5, &region(0, 0, 64, 64)), Ok(()));
    assert_eq!(reader.read(&frame, &window(0, 0, 64, 64)), Ok(None));
}

#[test]
fn fast_robust_corrects_one_flipped_cell_in_any_codeword() {
    let stamper = FastRobustStamper::default();
    let reader = FastRobustReader::default();
    let t = 0x0123_4567_89AB_CDEF;
    let mut clean = luma_frame(64, 64, 0);
    stamper.stamp(&mut clean, t, &region(0, 0, 64, 64)).unwrap();
    for cell in 0..112 {
        let mut frame = clean.clone();
        flip_cell(&mut frame, cell);
        let (encoded, _) = reader.read_payload(&frame, &window(0, 0, 64, 64)).unwrap();
        let (decoded, corrected) = encoded.correct_codewords();
        assert_eq!(decoded, t);
        // The first four cells of a codeword carry its data bits.
        assert_eq!(corrected, if cell % 7 < 4 { 1 } else { 0 });
        assert_eq!(reader.calculate_crc8(decoded), encoded.crc8);
        assert_eq!(reader.read(&frame, &window(0, 0, 64, 64)), Ok(Some(t)));
    }
}

#[test]
fn fast_robust_corrects_one_flipped_cell_in_each_codeword_at_once() {
    let stamper = FastRobustStamper::default();
    let reader = FastRobustReader::default();
    let t = 0xFFFF_0000_AAAA_5555;
    let mut frame = luma_frame(64, 64, 0);
    stamper.stamp(&mut frame, t, &region(0, 0, 64, 64)).unwrap();
    for codeword in 0..16 {
        flip_cell(&mut frame, codeword * 7 + codeword % 7);
    }
    assert_eq!(reader.read(&frame, &window(0, 0, 64, 64)), Ok(Some(t)));
}

#[test]
fn fast_robust_accepts_a_damaged_checksum_at_high_confidence() {
    let stamper = FastRobustStamper::default();
    let reader = FastRobustReader::default();
    let t = 0x1122_3344_5566_7788;
    let mut frame = luma_frame(64, 64, 0);
    stamper.stamp(&mut frame, t, &region(0, 0, 64, 64)).unwrap();
    flip_cell(&mut frame, 115);
    let (encoded, _) = reader.read_payload(&frame, &window(0, 0, 64, 64)).unwrap();
    assert_ne!(encoded.crc8, reader.calculate_crc8(t));
    assert_eq!(reader.read(&frame, &window(0, 0, 64, 64)), Ok(Some(t)));
}

#[test]
fn fast_robust_acceptance_policy() {
    // A matching checksum is always accepted.
    assert!(accept(true, 0, 0));
    assert!(accept(true, 16, 0));
    // More than four corrections are never accepted without it.
    assert!(!accept(false, 5, 15360));
    assert!(!accept(false, 16, 15360));
    // Up to two corrections are accepted above a mean confidence of 0.7,
    // which is a sum of 10752.
    assert!(accept(false, 0, 10753));
    assert!(accept(false, 2, 10753));
    assert!(accept(false, 2, 15360));
    assert!(!accept(false, 2, 10752));
    assert!(!accept(false, 0, 0));
    // Three and four corrections are not.
    assert!(!accept(false, 3, 15360));
    assert!(!accept(false, 4, 15360));
    assert!(accept(false, 0, u32::MAX));
}

#[test]
fn fast_robust_decodes_a_payload_by_the_policy() {
    let stamper = FastRobustStamper::default();
    let reader = FastRobustReader::default();
    let t = 0x0BAD_CAFE_0000_0042;
    let clean = stamper.encode_timestamp_fast(t);
    // The least confidence is 0.5, a sum of 7680.
    assert_eq!(reader.decode_payload(&clean, 7679), None);
    assert_eq!(reader.decode_payload(&clean, 7680), Some(t));
    assert_eq!(reader.decode_payload(&clean, 0), None);
    // Three codewords with a flipped data bit are corrected, and accepted
    // because the checksum matches.
    let mut three = clean;
    three.bch_codes[0] ^= 0b000_1000;
    three.bch_codes[7] ^= 0b100_0000;
    three.bch_codes[15] ^= 0b001_0000;
    assert_eq!(three.correct_codewords(), (t, 3));
    assert_eq!(reader.decode_payload(&three, 7680), Some(t));
    // Two bits flipped in one codeword decode to another nibble; the
    // checksum does not match, yet one correction at high confidence is
    // accepted.
    let mut double = clean;
    double.bch_codes[15] ^= 0b000_0011;
    let (wrong, corrected) = double.correct_codewords();
    assert_eq!(corrected, 1);
    assert_eq!(wrong, t ^ 1);
    assert_eq!(reader.decode_payload(&double, 10753), Some(wrong));
    assert_eq!(reader.decode_payload(&double, 10752), None);
    // A wrong checksum with three corrections is refused at any
    // confidence.
    let mut refused = three;
    refused.crc8 ^= 0xFF;
    assert_eq!(reader.decode_payload(&refused, 15360), None);
    // A reader that asks for no confidence decodes at none.
    let lenient = FastRobustReader { min_confidence_percent: 0, ..reader };
    assert_eq!(lenient.decode_payload(&clean, 0), Some(t));
    let strict = FastRobustReader { min_confidence_percent: 100, ..reader };
    assert_eq!(strict.decode_payload(&clean, 15359), None);
    assert_eq!(strict.decode_payload(&clean, 15360), Some(t));
}

#[test]
fn fast_robust_bits_spell_codewords_and_checksum() {
    let stamper = FastRobustStamper::default();
    let encoded = stamper.encode_timestamp_fast(0x0123_4567_89AB_CDEF);
    let bits: Vec<bool> = (0..120).map(|k| encoded.payload_bit(k)).collect();
    let again = EncodedTimestamp64::from_bits(&bits);
    assert_eq!(again.bch_codes, encoded.bch_codes);
    assert_eq!(again.crc8, encoded.crc8);
    assert_eq!(again.bch_codes[1], 0x0b);
    // Bit 7 is the first of the second codeword, 0001011.
    assert_eq!(&bits[7..14], &[false, false, false, true, false, true, true]);
}

#[test]
fn fast_robust_low_contrast_is_refused() {
    let stamper = FastRobustStamper::default();
    let reader = FastRobustReader::default();
    let t = 0x0000_0000_00AB_CDEF;
    let mut frame = luma_frame(64, 64, 0);
    stamper.stamp(&mut frame, t, &region(0, 0, 64, 64)).unwrap();
    // The same pattern with every level within one of the threshold.
    for v in frame.planes[0].data.iter_mut() {
        *v = if *v == 235 { 129 } else { 127 };
    }
    let (encoded, confidence) = reader.read_payload(&frame, &window(0, 0, 64, 64)).unwrap();
    assert_eq!(encoded.correct_codewords(), (t, 0));
    assert_eq!(encoded.crc8, reader.calculate_crc8(t));
    assert_eq!(confidence, 120);
    assert_eq!(reader.read(&frame, &window(0, 0, 64, 64)), Ok(None));
    // A flat frame at the threshold is refused as well.
    let flat = luma_frame(64, 64, 128);
    assert_eq!(reader.read(&flat, &window(0, 0, 64, 64)), Ok(None));
    // A reader that asks for no confidence takes the bits as they are.
    let lenient = FastRobustReader { min_confidence_percent: 0, ..reader };
    assert_eq!(lenient.read(&frame, &window(0, 0, 64, 64)), Ok(Some(t)));
}

#[test]
fn fast_robust_undersized_region_is_cut_short() {
    let stamper = FastRobustStamper::default();
    let reader = FastRobustReader::default();
    let mut frame = luma_frame(64, 64, 0);
    // A region of 8 by 8 pixels holds four cells of side 4.
    assert_eq!(stamper.stamp(&mut frame, u64::MAX, &region(16, 16, 8, 8)), Ok(()));
    for y in 0..64usize {
        for x in 0..64usize {
            let inside = (16..24).contains(&x) && (16..24).contains(&y);
            assert_eq!(frame.planes[0].data[y * 64 + x], if inside { 235 } else { 0 });
        }
    }
    assert_eq!(reader.read(&frame, &window(16, 16, 8, 8)), Ok(None));
    assert!(reader.read_payload(&frame, &window(16, 16, 8, 8)).is_none());
    // 119 cells are one too few; 120 are enough.
    assert_eq!(reader.read(&frame, &window(0, 0, 4 * 119, 4)), Ok(None));
    let mut wide = luma_frame(480, 4, 0);
    stamper.stamp(&mut wide, 7, &region(0, 0, 4 * 119, 4)).unwrap();
    assert!(wide.planes[0].data[..4 * 119].iter().all(|&v| v != 0));
    assert!(wide.planes[0].data[4 * 119..480].iter().all(|&v| v == 0));
    stamper.stamp(&mut wide, 7, &region(0, 0, 480, 4)).unwrap();
    assert_eq!(reader.read(&wide, &window(0, 0, 480, 4)), Ok(Some(7)));
}

#[test]
fn fast_robust_empty_region_writes_nothing() {
    let stamper = FastRobustStamper::default();
    let reader = FastRobustReader::default();
    let mut frame = luma_frame(16, 16, 9);
    assert_eq!(stamper.stamp(&mut frame, 1, &region(0, 0, 0, 0)), Ok(()));
    assert_eq!(stamper.stamp(&mut frame, 1, &region(0, 0, 3, 64)), Ok(()));
    assert!(frame.planes[0].data.iter().all(|&v| v == 9));
    assert_eq!(reader.read(&frame, &window(0, 0, 0, 0)), Ok(None));
}

#[test]
fn fast_robust_region_beyond_the_frame_is_skipped() {
    let stamper = FastRobustStamper::default();
    let reader = FastRobustReader::default();
    // The frame has 16 rows; the region asks for 64.
    let mut frame = luma_frame(64, 16, 0);
    assert_eq!(stamper.stamp(&mut frame, u64::MAX, &region(0, 0, 64, 64)), Ok(()));
    assert_eq!(frame.planes[0].data.len(), 64 * 16);
    assert!(frame.planes[0].data.iter().all(|&v| v == 235));
    assert_eq!(reader.read(&frame, &window(0, 0, 64, 64)), Ok(None));
    // A region far outside the frame touches nothing and reads nothing.
    let mut small = luma_frame(8, 8, 3);
    assert_eq!(
        stamper.stamp(&mut small, 1, &region(u32::MAX, u32::MAX, u32::MAX, u32::MAX)),
        Ok(())
    );
    assert!(small.planes[0].data.iter().all(|&v| v == 3));
    assert_eq!(reader.read(&small, &window(4_000_000_000, 4_000_000_000, 64, 64)), Ok(None));
    let mut empty = luma_frame(0, 0, 0);
    assert_eq!(stamper.stamp(&mut empty, 1, &region(0, 0, 64, 64)), Ok(()));
    assert_eq!(reader.read(&empty, &window(0, 0, 64, 64)), Ok(None));
}
