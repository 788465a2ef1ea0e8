//! The timecode profiles and the registry that hands them out.

pub mod fast_robust;
pub mod fast_robust_laws;
pub mod optimized;
pub mod optimized_laws;
pub mod original;
pub mod original_laws;
pub mod traits;

pub use crate::stamper::fast_robust::{FastRobustReader, FastRobustStamper};
pub use crate::stamper::optimized::{OptimizedReader, OptimizedStamper};
pub use crate::stamper::original::{OriginalReader, OriginalStamper};
pub use crate::stamper::traits::{
    ReaderConfig, StamperConfig, StamperType, TimestampReader, TimestampStamper,
};

use crate::frame::{CodecError, FormatFlags, Frame, FrameView};
use crate::stamper::original::fill_values;
use vstd::prelude::*;

verus! {

/// The stamper of a profile.
#[derive(Clone, Copy, Debug)]
pub enum Stamper {
    Original(OriginalStamper),
    Optimized(OptimizedStamper),
    FastRobust(FastRobustStamper),
}

/// The reader of a profile.
#[derive(Clone, Copy, Debug)]
pub enum Reader {
    Original(OriginalReader),
    Optimized(OptimizedReader),
    FastRobust(FastRobustReader),
}

impl TimestampStamper for Stamper {
    open spec fn wf(&self) -> bool {
        match self {
            Stamper::Original(s) => s.wf(),
            Stamper::Optimized(s) => s.wf(),
            Stamper::FastRobust(s) => s.wf(),
        }
    }

    open spec fn stamped(&self, frame: FrameView, timestamp_usecs: u64, config: StamperConfig)
        -> FrameView {
        match self {
            Stamper::Original(s) => s.stamped(frame, timestamp_usecs, config),
            Stamper::Optimized(s) => s.stamped(frame, timestamp_usecs, config),
            Stamper::FastRobust(s) => s.stamped(frame, timestamp_usecs, config),
        }
    }

    open spec fn refuses(&self, frame: FrameView, timestamp_usecs: u64, config: StamperConfig)
        -> bool {
        match self {
            Stamper::Original(s) => s.refuses(frame, timestamp_usecs, config),
            Stamper::Optimized(s) => s.refuses(frame, timestamp_usecs, config),
            Stamper::FastRobust(s) => s.refuses(frame, timestamp_usecs, config),
        }
    }

    open spec fn profile(&self) -> StamperType {
        match self {
            Stamper::Original(_) => StamperType::Original,
            Stamper::Optimized(_) => StamperType::Optimized,
            Stamper::FastRobust(_) => StamperType::FastRobust,
        }
    }

    fn stamp(&self, frame: &mut Frame, timestamp_usecs: u64, config: &StamperConfig) -> (r: Result<
        (),
        CodecError,
    >) {
        match self {
            Stamper::Original(s) => s.stamp(frame, timestamp_usecs, config),
            Stamper::Optimized(s) => s.stamp(frame, timestamp_usecs, config),
            Stamper::FastRobust(s) => s.stamp(frame, timestamp_usecs, config),
        }
    }

    fn name(&self) -> (s: &'static str) {
        match self {
            Stamper::Original(s) => s.name(),
            Stamper::Optimized(s) => s.name(),
            Stamper::FastRobust(s) => s.name(),
        }
    }

    fn description(&self) -> (s: &'static str) {
        match self {
            Stamper::Original(s) => s.description(),
            Stamper::Optimized(s) => s.description(),
            Stamper::FastRobust(s) => s.description(),
        }
    }
}

impl TimestampReader for Reader {
    open spec fn wf(&self) -> bool {
        match self {
            Reader::Original(r) => r.wf(),
            Reader::Optimized(r) => r.wf(),
            Reader::FastRobust(r) => r.wf(),
        }
    }

    open spec fn reading(&self, frame: FrameView, config: ReaderConfig) -> Result<
        Option<u64>,
        CodecError,
    > {
        match self {
            Reader::Original(r) => r.reading(frame, config),
            Reader::Optimized(r) => r.reading(frame, config),
            Reader::FastRobust(r) => r.reading(frame, config),
        }
    }

    open spec fn profile(&self) -> StamperType {
        match self {
            Reader::Original(_) => StamperType::Original,
            Reader::Optimized(_) => StamperType::Optimized,
            Reader::FastRobust(_) => StamperType::FastRobust,
        }
    }

    fn read(&self, frame: &Frame, config: &ReaderConfig) -> (r: Result<Option<u64>, CodecError>) {
        match self {
            Reader::Original(reader) => reader.read(frame, config),
            Reader::Optimized(reader) => reader.read(frame, config),
            Reader::FastRobust(reader) => reader.read(frame, config),
        }
    }

    fn name(&self) -> (s: &'static str) {
        match self {
            Reader::Original(r) => r.name(),
            Reader::Optimized(r) => r.name(),
            Reader::FastRobust(r) => r.name(),
        }
    }

    fn description(&self) -> (s: &'static str) {
        match self {
            Reader::Original(r) => r.description(),
            Reader::Optimized(r) => r.description(),
            Reader::FastRobust(r) => r.description(),
        }
    }
}

impl Stamper {
    /// Says whether the stamper's parameters are usable.
    pub fn is_well_formed(&self) -> (ok: bool)
        ensures
            ok == self.wf(),
    {
        match self {
            Stamper::Original(_) => true,
            Stamper::Optimized(s) => s.is_well_formed(),
            Stamper::FastRobust(s) => s.is_well_formed(),
        }
    }
}

impl Reader {
    /// Says whether the reader's parameters are usable.
    pub fn is_well_formed(&self) -> (ok: bool)
        ensures
            ok == self.wf(),
    {
        match self {
            Reader::Original(_) => true,
            Reader::Optimized(r) => r.is_well_formed(),
            Reader::FastRobust(r) => r.is_well_formed(),
        }
    }
}

/// Makes the stamper of a profile, with the profile's own parameters.
pub fn create_stamper(stamper_type: StamperType) -> (stamper: Stamper)
    ensures
        stamper.profile() == stamper_type,
        stamper.wf(),
        match stamper {
            Stamper::Original(_) => true,
            Stamper::Optimized(s) => s == (OptimizedStamper {
                cell_size: 8,
                grid_width: 12,
                grid_height: 8,
                start_marker: 0xA5A5,
                end_marker: 0x5A5A,
            }),
            Stamper::FastRobust(s) => s.block_size == 4 && s.guard_pixels == 0
                && s.use_2d_redundancy,
        },
{
    match stamper_type {
        StamperType::Original => Stamper::Original(OriginalStamper::default()),
        StamperType::Optimized => Stamper::Optimized(OptimizedStamper::default()),
        StamperType::FastRobust => Stamper::FastRobust(FastRobustStamper::default()),
    }
}

/// Makes the reader of a profile, with the profile's own parameters.
pub fn create_reader(stamper_type: StamperType) -> (reader: Reader)
    ensures
        reader.profile() == stamper_type,
        reader.wf(),
        match reader {
            Reader::Original(_) => true,
            Reader::Optimized(r) => r == (OptimizedReader {
                cell_size: 8,
                grid_width: 12,
                grid_height: 8,
                start_marker: 0xA5A5,
                end_marker: 0x5A5A,
                threshold: 128,
                min_confidence_percent: 60,
            }),
            Reader::FastRobust(r) => r == (FastRobustReader {
                block_size: 4,
                guard_pixels: 0,
                threshold: 128,
                min_confidence_percent: 50,
            }),
        },
{
    match stamper_type {
        StamperType::Original => Reader::Original(OriginalReader::default()),
        StamperType::Optimized => Reader::Optimized(OptimizedReader::default()),
        StamperType::FastRobust => Reader::FastRobust(FastRobustReader::default()),
    }
}

/// The gray levels that survive lossy compression, white first: none for
/// a color model that is neither RGB nor YUV.
pub open spec fn robust_fill_values(flags: FormatFlags) -> Option<(Seq<u8>, Seq<u8>)> {
    if flags.rgb {
        Some((seq![235u8, 235u8, 235u8], seq![20u8, 20u8, 20u8]))
    } else if flags.yuv {
        Some((seq![235u8, 128u8, 128u8], seq![20u8, 128u8, 128u8]))
    } else {
        None
    }
}

/// Gives the pure white and black of a color model.
pub fn get_fill_values(flags: FormatFlags) -> (r: Result<([u8; 3], [u8; 3]), CodecError>)
    ensures
        match r {
            Ok((white, black)) => fill_values(flags) == Some((white@, black@)),
            Err(e) => fill_values(flags) is None && e == CodecError::UnsupportedFormat,
        },
{
    if flags.rgb {
        let white: [u8; 3] = [255, 255, 255];
        let black: [u8; 3] = [0, 0, 0];
        proof {
            assert(white@ =~= seq![255u8, 255u8, 255u8]);
            assert(black@ =~= seq![0u8, 0u8, 0u8]);
        }
        Ok((white, black))
    } else if flags.yuv {
        let white: [u8; 3] = [255, 128, 128];
        let black: [u8; 3] = [0, 128, 128];
        proof {
            assert(white@ =~= seq![255u8, 128u8, 128u8]);
            assert(black@ =~= seq![0u8, 128u8, 128u8]);
        }
        Ok((white, black))
    } else {
        Err(CodecError::UnsupportedFormat)
    }
}

/// Gives the robust white and black of a color model.
pub fn get_robust_fill_values(flags: FormatFlags) -> (r: Result<([u8; 3], [u8; 3]), CodecError>)
    ensures
        match r {
            Ok((white, black)) => robust_fill_values(flags) == Some((white@, black@)),
            Err(e) => robust_fill_values(flags) is None && e == CodecError::UnsupportedFormat,
        },
{
    if flags.rgb {
        let white: [u8; 3] = [235, 235, 235];
        let black: [u8; 3] = [20, 20, 20];
        proof {
            assert(white@ =~= seq![235u8, 235u8, 235u8]);
            assert(black@ =~= seq![20u8, 20u8, 20u8]);
        }
        Ok((white, black))
    } else if flags.yuv {
        let white: [u8; 3] = [235, 128, 128];
        let black: [u8; 3] = [20, 128, 128];
        proof {
            assert(white@ =~= seq![235u8, 128u8, 128u8]);
            assert(black@ =~= seq![20u8, 128u8, 128u8]);
        }
        Ok((white, black))
    } else {
        Err(CodecError::UnsupportedFormat)
    }
}

} // verus!
