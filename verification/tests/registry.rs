use tslatency::element::{
    measure_frame, stamp_frame, Measurement, MeasureProperties, StamperProperties,
};
use tslatency::frame::{CodecError, Component, FormatFlags, Frame, PixelFormat, Plane};
use tslatency::stamper::traits::{
    ReaderConfig, StamperConfig, StamperType, TimestampReader, TimestampStamper,
};
use tslatency::stamper::{
    create_reader, create_stamper, get_fill_values, get_robust_fill_values, Reader, Stamper,
};

fn i420_frame(width: usize, height: usize) -> Frame {
    let component = |plane: usize, sub: u32| Component {
        plane,
        pixel_stride: 1,
        poffset: 0,
        depth: 8,
        shift: 0,
        h_sub: sub,
        w_sub: sub,
    };
    Frame {
        format: PixelFormat::I420,
        flags: FormatFlags { rgb: false, yuv: true },
        bits: 8,
        components: vec![component(0, 0), component(1, 1), component(2, 1)],
        planes: vec![
            Plane { stride: width, data: vec![0; width * height] },
            Plane { stride: width / 2, data: vec![0; (width / 2) * (height / 2)] },
            Plane { stride: width / 2, data: vec![0; (width / 2) * (height / 2)] },
        ],
    }
}

const PROFILES: [StamperType; 3] =
    [StamperType::Original, StamperType::Optimized, StamperType::FastRobust];

#[test]
fn selector_names() {
    assert_eq!(StamperType::Original.as_str(), "original");
    assert_eq!(StamperType::Optimized.as_str(), "optimized");
    assert_eq!(StamperType::FastRobust.as_str(), "fast-robust");
    for profile in PROFILES {
        assert_eq!(StamperType::from_str(profile.as_str()), Some(profile));
        assert_eq!(StamperType::from_nick(profile.as_str()), Some(profile));
    }
}

#[test]
fn selector_is_read_in_any_case() {
    assert_eq!(StamperType::from_str("ORIGINAL"), Some(StamperType::Original));
    assert_eq!(StamperType::from_str("Optimized"), Some(StamperType::Optimized));
    assert_eq!(StamperType::from_str("Fast-Robust"), Some(StamperType::FastRobust));
    assert_eq!(StamperType::from_str("FASTROBUST"), Some(StamperType::FastRobust));
    assert_eq!(StamperType::from_str("fastrobust"), Some(StamperType::FastRobust));
    assert_eq!(StamperType::from_str("fast_robust"), None);
    assert_eq!(StamperType::from_str(" original"), None);
    assert_eq!(StamperType::from_str(""), None);
    assert_eq!(StamperType::from_str("robust"), None);
    // A name that is already in lowercase is taken as it is.
    assert_eq!(StamperType::from_nick("fastrobust"), Some(StamperType::FastRobust));
    assert_eq!(StamperType::from_nick("Original"), None);
    assert_eq!(StamperType::from_nick(""), None);
}

#[test]
fn selector_of_a_number() {
    assert_eq!(StamperType::from(0), StamperType::Original);
    assert_eq!(StamperType::from(1), StamperType::Optimized);
    assert_eq!(StamperType::from(2), StamperType::FastRobust);
    assert_eq!(StamperType::from(3), StamperType::Optimized);
    assert_eq!(StamperType::from(-1), StamperType::Optimized);
    assert_eq!(StamperType::from(i32::MIN), StamperType::Optimized);
    assert_eq!(StamperType::from_index(2), StamperType::FastRobust);
    assert_eq!(StamperType::default(), StamperType::Optimized);
}

#[test]
fn regions_default_to_64_by_64() {
    let region = StamperConfig::default();
    assert_eq!((region.x, region.y, region.width, region.height), (0, 0, 64, 64));
    let window = ReaderConfig::default();
    assert_eq!((window.x, window.y, window.width, window.height), (0, 0, 64, 64));
    assert_eq!(window.tolerance, 5);
}

#[test]
fn reference_colors_of_the_color_models() {
    let rgb = FormatFlags { rgb: true, yuv: false };
    let yuv = FormatFlags { rgb: false, yuv: true };
    let both = FormatFlags { rgb: true, yuv: true };
    let neither = FormatFlags { rgb: false, yuv: false };
    assert_eq!(get_fill_values(rgb), Ok(([255, 255, 255], [0, 0, 0])));
    assert_eq!(get_fill_values(yuv), Ok(([255, 128, 128], [0, 128, 128])));
    assert_eq!(get_fill_values(both), Ok(([255, 255, 255], [0, 0, 0])));
    assert_eq!(get_fill_values(neither), Err(CodecError::UnsupportedFormat));
    assert_eq!(get_robust_fill_values(rgb), Ok(([235, 235, 235], [20, 20, 20])));
    assert_eq!(get_robust_fill_values(yuv), Ok(([235, 128, 128], [20, 128, 128])));
    assert_eq!(get_robust_fill_values(both), Ok(([235, 235, 235], [20, 20, 20])));
    assert_eq!(get_robust_fill_values(neither), Err(CodecError::UnsupportedFormat));
}

#[test]
fn registry_makes_the_profile_asked_for() {
    assert!(matches!(create_stamper(StamperType::Original), Stamper::Original(_)));
    assert!(matches!(create_stamper(StamperType::Optimized), Stamper::Optimized(_)));
    assert!(matches!(create_stamper(StamperType::FastRobust), Stamper::FastRobust(_)));
    assert!(matches!(create_reader(StamperType::Original), Reader::Original(_)));
    assert!(matches!(create_reader(StamperType::Optimized), Reader::Optimized(_)));
    assert!(matches!(create_reader(StamperType::FastRobust), Reader::FastRobust(_)));
    for profile in PROFILES {
        assert_eq!(create_stamper(profile).name(), profile.as_str());
        assert_eq!(create_reader(profile).name(), profile.as_str());
        assert!(!create_stamper(profile).description().is_empty());
        assert!(!create_reader(profile).description().is_empty());
    }
    assert_eq!(
        create_stamper(StamperType::Original).description(),
        "Original 8x8 binary timestamp encoder"
    );
    assert_eq!(
        create_stamper(StamperType::Optimized).description(),
        "Optimized stamper with 8x8 cells and CRC16 error detection"
    );
    assert_eq!(
        create_stamper(StamperType::FastRobust).description(),
        "Fast BCH(7,4) error correcting stamper with full 64-bit timestamps"
    );
    assert_eq!(
        create_reader(StamperType::Original).description(),
        "Original 8x8 binary timestamp decoder with voting"
    );
    assert_eq!(
        create_reader(StamperType::Optimized).description(),
        "Optimized reader with CRC16 validation and confidence thresholds"
    );
    assert_eq!(
        create_reader(StamperType::FastRobust).description(),
        "Fast BCH(7,4) error correcting reader with full 64-bit timestamps"
    );
}

#[test]
fn every_profile_reads_back_what_it_stamped() {
    let region = StamperConfig { x: 16, y: 8, width: 64, height: 64 };
    let window = ReaderConfig { x: 16, y: 8, width: 64, height: 64, tolerance: 5 };
    for profile in PROFILES {
        let stamper = create_stamper(profile);
        let reader = create_reader(profile);
        for &t in &[0u64, 1, 0x0000_ABCD_EF01_2345, 0x0000_FFFF_FFFF_FFFF] {
            let mut frame = i420_frame(128, 96);
            assert!(frame.is_well_formed());
            assert_eq!(stamper.stamp(&mut frame, t, &region), Ok(()));
            assert_eq!(reader.read(&frame, &window), Ok(Some(t)));
        }
    }
    // The profiles of 64 bits carry the high bits as well.
    for profile in [StamperType::Original, StamperType::FastRobust] {
        let mut frame = i420_frame(128, 96);
        assert_eq!(create_stamper(profile).stamp(&mut frame, u64::MAX - 5, &region), Ok(()));
        assert_eq!(create_reader(profile).read(&frame, &window), Ok(Some(u64::MAX - 5)));
    }
}

#[test]
fn mismatched_profiles_are_not_detected() {
    let region = StamperConfig::default();
    let window = ReaderConfig::default();
    let mut frame = i420_frame(96, 64);
    create_stamper(StamperType::FastRobust).stamp(&mut frame, 0x1234, &region).unwrap();
    // No error: the checking profile finds no packet, the plain one reads
    // some number.
    assert_eq!(create_reader(StamperType::Optimized).read(&frame, &window), Ok(None));
    assert!(matches!(create_reader(StamperType::Original).read(&frame, &window), Ok(Some(_))));
}

#[test]
fn filter_settings_default() {
    let stamping = StamperProperties::default();
    assert_eq!((stamping.x, stamping.y, stamping.width, stamping.height), (0, 0, 64, 64));
    assert_eq!(stamping.stamper_type, StamperType::Optimized);
    let measuring = MeasureProperties::default();
    assert_eq!((measuring.x, measuring.y, measuring.width, measuring.height), (0, 0, 64, 64));
    assert_eq!(measuring.tolerance, 5);
    assert_eq!(measuring.stamper_type, StamperType::Optimized);
    let window = measuring.config();
    assert_eq!((window.x, window.y, window.width, window.height), (0, 0, 64, 64));
    assert_eq!(window.tolerance, 5);
}

#[test]
fn filter_region_is_cut_to_32_bits() {
    let settings = StamperProperties {
        x: 0x1_0000_0007,
        y: u64::MAX,
        width: 0xFFFF_FFFF,
        height: 0x1_0000_0000,
        stamper_type: StamperType::Original,
    };
    let region = settings.config();
    assert_eq!(region.x, 7);
    assert_eq!(region.y, u32::MAX);
    assert_eq!(region.width, u32::MAX);
    assert_eq!(region.height, 0);
}

#[test]
fn filters_stamp_and_measure() {
    for profile in PROFILES {
        let stamping = StamperProperties { x: 8, y: 8, stamper_type: profile, ..Default::default() };
        let measuring =
            MeasureProperties { x: 8, y: 8, stamper_type: profile, ..Default::default() };
        let stamper = create_stamper(stamping.stamper_type);
        let reader = create_reader(measuring.stamper_type);
        let mut frame = i420_frame(128, 96);
        assert_eq!(stamp_frame(&stamper, &stamping, &mut frame, 1_000_000), Ok(()));
        assert_eq!(
            measure_frame(&reader, &measuring, &frame, 1_000_250),
            Ok(Measurement::Delay(250))
        );
        assert_eq!(
            measure_frame(&reader, &measuring, &frame, 1_000_000),
            Ok(Measurement::Delay(0))
        );
        assert_eq!(
            measure_frame(&reader, &measuring, &frame, 999_990),
            Ok(Measurement::Ahead(10))
        );
        assert_eq!(measure_frame(&reader, &measuring, &frame, 0), Ok(Measurement::Ahead(1_000_000)));
    }
}

#[test]
fn filter_reports_what_it_cannot_read() {
    let measuring = MeasureProperties::default();
    let mut gray = i420_frame(96, 64);
    gray.planes[0].data.fill(128);
    assert_eq!(
        measure_frame(&create_reader(StamperType::Optimized), &measuring, &gray, 5),
        Ok(Measurement::Unreadable)
    );
    assert_eq!(
        measure_frame(&create_reader(StamperType::FastRobust), &measuring, &gray, 5),
        Ok(Measurement::Unreadable)
    );
    // The plain profile reads a number from any frame.
    assert_eq!(
        measure_frame(&create_reader(StamperType::Original), &measuring, &gray, 5),
        Ok(Measurement::Delay(5))
    );
    // A black frame spells the payload of zero, checksum included.
    let black = i420_frame(96, 64);
    assert_eq!(
        measure_frame(&create_reader(StamperType::FastRobust), &measuring, &black, 5),
        Ok(Measurement::Delay(5))
    );
    assert_eq!(
        measure_frame(&create_reader(StamperType::Optimized), &measuring, &black, 5),
        Ok(Measurement::Unreadable)
    );
    let mut unknown = i420_frame(96, 64);
    unknown.format = PixelFormat::Other;
    unknown.flags = FormatFlags { rgb: false, yuv: false };
    assert_eq!(
        measure_frame(&create_reader(StamperType::Original), &measuring, &unknown, 5),
        Err(CodecError::UnsupportedFormat)
    );
    let stamping = StamperProperties::default();
    assert_eq!(
        stamp_frame(&create_stamper(StamperType::Optimized), &stamping, &mut unknown, 5),
        Err(CodecError::UnsupportedFormat)
    );
    assert_eq!(
        stamp_frame(&create_stamper(StamperType::Original), &stamping, &mut unknown, 5),
        Err(CodecError::UnsupportedFormat)
    );
    assert_eq!(
        stamp_frame(&create_stamper(StamperType::FastRobust), &stamping, &mut unknown, 5),
        Ok(())
    );
}
