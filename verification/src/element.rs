//! The settings of the two filters, one that stamps each frame and one
//! that measures the delay of each frame, and what each does with a frame
//! once the clock has been read.

use crate::frame::{CodecError, Frame};
use crate::stamper::traits::{
    ReaderConfig, StamperConfig, StamperType, TimestampReader, TimestampStamper,
};
use crate::stamper::{Reader, Stamper};
use vstd::prelude::*;

verus! {

pub const DEFAULT_X: u32 = 0;

pub const DEFAULT_Y: u32 = 0;

pub const DEFAULT_WIDTH: u32 = 64;

pub const DEFAULT_HEIGHT: u32 = 64;

pub const DEFAULT_TOLERANCE: u32 = 5;

/// The settings of the stamping filter.
#[derive(Clone, Copy, Debug)]
pub struct StamperProperties {
    pub x: u64,
    pub y: u64,
    pub width: u64,
    pub height: u64,
    pub stamper_type: StamperType,
}

impl Default for StamperProperties {
    fn default() -> (r: Self)
        ensures
            r == (StamperProperties {
                x: 0,
                y: 0,
                width: 64,
                height: 64,
                stamper_type: StamperType::Optimized,
            }),
    {
        Self {
            x: DEFAULT_X as u64,
            y: DEFAULT_Y as u64,
            width: DEFAULT_WIDTH as u64,
            height: DEFAULT_HEIGHT as u64,
            stamper_type: StamperType::default(),
        }
    }
}

impl StamperProperties {
    /// The region that the settings name, each number cut to its low 32
    /// bits.
    pub open spec fn region(&self) -> StamperConfig {
        StamperConfig {
            x: self.x as u32,
            y: self.y as u32,
            width: self.width as u32,
            height: self.height as u32,
        }
    }

    /// The region that the settings name.
    pub fn config(&self) -> (c: StamperConfig)
        ensures
            c == self.region(),
    {
        StamperConfig {
            x: #[verifier::truncate]
            (self.x as u32),
            y: #[verifier::truncate]
            (self.y as u32),
            width: #[verifier::truncate]
            (self.width as u32),
            height: #[verifier::truncate]
            (self.height as u32),
        }
    }
}

/// The settings of the measuring filter.
#[derive(Clone, Copy, Debug)]
pub struct MeasureProperties {
    pub x: u32,
    pub y: u32,
    pub width: u32,
    pub height: u32,
    pub tolerance: u32,
    pub stamper_type: StamperType,
}

impl Default for MeasureProperties {
    fn default() -> (r: Self)
        ensures
            r == (MeasureProperties {
                x: 0,
                y: 0,
                width: 64,
                height: 64,
                tolerance: 5,
                stamper_type: StamperType::Optimized,
            }),
    {
        Self {
            x: DEFAULT_X,
            y: DEFAULT_Y,
            width: DEFAULT_WIDTH,
            height: DEFAULT_HEIGHT,
            tolerance: DEFAULT_TOLERANCE,
            stamper_type: StamperType::default(),
        }
    }
}

impl MeasureProperties {
    /// The region and tolerance that the settings name.
    pub fn config(&self) -> (c: ReaderConfig)
        ensures
            c == (ReaderConfig {
                x: self.x,
                y: self.y,
                width: self.width,
                height: self.height,
                tolerance: self.tolerance,
            }),
    {
        ReaderConfig {
            x: self.x,
            y: self.y,
            width: self.width,
            height: self.height,
            tolerance: self.tolerance,
        }
    }
}

/// What the measuring filter learns from a frame.
#[derive(Clone, Copy, Debug, PartialEq, Eq, Structural)]
pub enum Measurement {
    /// The frame was stamped this many microseconds ago.
    Delay(u64),
    /// The frame carries a timestamp this many microseconds ahead of the
    /// clock.
    Ahead(u64),
    /// No timestamp could be read from the frame.
    Unreadable,
}

/// What a reading means at a given time.
pub open spec fn measurement_of(reading: Option<u64>, now_usecs: u64) -> Measurement {
    match reading {
        Some(stamped) => if stamped <= now_usecs {
            Measurement::Delay((now_usecs - stamped) as u64)
        } else {
            Measurement::Ahead((stamped - now_usecs) as u64)
        },
        None => Measurement::Unreadable,
    }
}

/// Stamps the time onto a frame, in the region that the settings name.
pub fn stamp_frame(
    stamper: &Stamper,
    props: &StamperProperties,
    frame: &mut Frame,
    now_usecs: u64,
) -> (r: Result<(), CodecError>)
    requires
        stamper.wf(),
        old(frame)@.wf(),
    ensures
        final(frame)@ == stamper.stamped(old(frame)@, now_usecs, props.region()),
        r == if stamper.refuses(old(frame)@, now_usecs, props.region()) {
            Err::<(), CodecError>(CodecError::UnsupportedFormat)
        } else {
            Ok::<(), CodecError>(())
        },
{
    let config = props.config();
    stamper.stamp(frame, now_usecs, &config)
}

/// Reads the timestamp of a frame and holds it against the time.
pub fn measure_frame(reader: &Reader, props: &MeasureProperties, frame: &Frame, now_usecs: u64) -> (r:
    Result<Measurement, CodecError>)
    requires
        reader.wf(),
        frame@.wf(),
    ensures
        r == match reader.reading(
            frame@,
            (ReaderConfig {
                x: props.x,
                y: props.y,
                width: props.width,
                height: props.height,
                tolerance: props.tolerance,
            }),
        ) {
            Ok(reading) => Ok::<Measurement, CodecError>(measurement_of(reading, now_usecs)),
            Err(e) => Err::<Measurement, CodecError>(e),
        },
{
    let config = props.config();
    match reader.read(frame, &config) {
        Ok(Some(stamped)) => {
            if stamped <= now_usecs {
                Ok(Measurement::Delay(now_usecs - stamped))
            } else {
                Ok(Measurement::Ahead(stamped - now_usecs))
            }
        },
        Ok(None) => Ok(Measurement::Unreadable),
        Err(e) => Err(e),
    }
}

} // verus!
