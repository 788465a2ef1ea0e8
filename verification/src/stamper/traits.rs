//! What the profiles share: the selector, the regions, and the two
//! operations of a stamper and of a reader.

use crate::frame::{CodecError, Frame, FrameView};
use vstd::prelude::*;
use vstd::string::StringExecFns;

verus! {

/// The profile selector.
#[derive(Debug, Clone, Copy, PartialEq, Eq, Structural)]
pub enum StamperType {
    /// Plain 8x8 binary grid without redundancy.
    Original,
    /// Framed packet with CRC-16 on a fixed grid of larger cells.
    Optimized,
    /// BCH(7,4) protected nibbles with CRC-8.
    FastRobust,
}

/// The lowercase form that `str::to_lowercase` gives of a string.
pub uninterp spec fn lowercase(s: Seq<char>) -> Seq<char>;

/// Calls `str::to_lowercase`. The lowercase form of a string is a function
/// of the string alone; the contract gives it a name and says no more.
#[verifier::external_body]
fn to_lowercase(s: &str) -> (r: String)
    ensures
        r@ == lowercase(s@),
{
    s.to_lowercase()
}

/// Says whether two strings hold the same characters.
pub fn same_text(a: &str, b: &str) -> (eq: bool)
    ensures
        eq == (a@ == b@),
{
    String::from_str(a) == String::from_str(b)
}

impl Default for StamperType {
    fn default() -> (r: Self)
        ensures
            r == StamperType::Optimized,
    {
        StamperType::Optimized
    }
}

impl From<i32> for StamperType {
    fn from(value: i32) -> (r: Self) {
        Self::from_index(value)
    }
}

impl vstd::std_specs::convert::FromSpecImpl<i32> for StamperType {
    open spec fn obeys_from_spec() -> bool {
        true
    }

    open spec fn from_spec(value: i32) -> Self {
        Self::of_index(value)
    }
}

impl StamperType {
    /// The selector's name.
    pub open spec fn nick(self) -> Seq<char> {
        match self {
            StamperType::Original => "original"@,
            StamperType::Optimized => "optimized"@,
            StamperType::FastRobust => "fast-robust"@,
        }
    }

    /// The line that says what the profile's stamper does.
    pub open spec fn stamper_line(self) -> Seq<char> {
        match self {
            StamperType::Original => "Original 8x8 binary timestamp encoder"@,
            StamperType::Optimized => {
                "Optimized stamper with 8x8 cells and CRC16 error detection"@
            },
            StamperType::FastRobust => {
                "Fast BCH(7,4) error correcting stamper with full 64-bit timestamps"@
            },
        }
    }

    /// The line that says what the profile's reader does.
    pub open spec fn reader_line(self) -> Seq<char> {
        match self {
            StamperType::Original => "Original 8x8 binary timestamp decoder with voting"@,
            StamperType::Optimized => {
                "Optimized reader with CRC16 validation and confidence thresholds"@
            },
            StamperType::FastRobust => {
                "Fast BCH(7,4) error correcting reader with full 64-bit timestamps"@
            },
        }
    }

    /// The selector that a lowercase name stands for.
    pub open spec fn of_nick(s: Seq<char>) -> Option<StamperType> {
        if s == "original"@ {
            Some(StamperType::Original)
        } else if s == "optimized"@ {
            Some(StamperType::Optimized)
        } else if s == "fast-robust"@ || s == "fastrobust"@ {
            Some(StamperType::FastRobust)
        } else {
            None
        }
    }

    /// The selector of a number: 0, 1 and 2 in the order of the variants,
    /// and `Optimized` for every other number.
    pub open spec fn of_index(value: i32) -> StamperType {
        if value == 0 {
            StamperType::Original
        } else if value == 2 {
            StamperType::FastRobust
        } else {
            StamperType::Optimized
        }
    }

    /// The selector of a number.
    pub fn from_index(value: i32) -> (r: Self)
        ensures
            r == Self::of_index(value),
    {
        match value {
            0 => StamperType::Original,
            1 => StamperType::Optimized,
            2 => StamperType::FastRobust,
            _ => StamperType::Optimized,
        }
    }

    /// The selector's name.
    pub fn as_str(&self) -> (s: &'static str)
        ensures
            s@ == self.nick(),
    {
        match self {
            StamperType::Original => "original",
            StamperType::Optimized => "optimized",
            StamperType::FastRobust => "fast-robust",
        }
    }

    /// The selector that a name in lowercase stands for.
    pub fn from_nick(s: &str) -> (r: Option<Self>)
        ensures
            r == Self::of_nick(s@),
    {
        if same_text(s, "original") {
            Some(StamperType::Original)
        } else if same_text(s, "optimized") {
            Some(StamperType::Optimized)
        } else if same_text(s, "fast-robust") || same_text(s, "fastrobust") {
            Some(StamperType::FastRobust)
        } else {
            None
        }
    }

    /// The selector that a name stands for, whatever its case.
    pub fn from_str(s: &str) -> (r: Option<Self>)
        ensures
            r == Self::of_nick(lowercase(s@)),
    {
        let lower = to_lowercase(s);
        Self::from_nick(lower.as_str())
    }
}

/// The region of a frame that a stamper writes.
#[derive(Debug, Clone, Copy)]
pub struct StamperConfig {
    pub x: u32,
    pub y: u32,
    pub width: u32,
    pub height: u32,
}

impl Default for StamperConfig {
    fn default() -> (r: Self)
        ensures
            r == (StamperConfig { x: 0, y: 0, width: 64, height: 64 }),
    {
        Self { x: 0, y: 0, width: 64, height: 64 }
    }
}

/// The region of a frame that a reader samples, and how far a component
/// may lie from a reference color and still match it.
#[derive(Debug, Clone, Copy)]
pub struct ReaderConfig {
    pub x: u32,
    pub y: u32,
    pub width: u32,
    pub height: u32,
    pub tolerance: u32,
}

impl Default for ReaderConfig {
    fn default() -> (r: Self)
        ensures
            r == (ReaderConfig { x: 0, y: 0, width: 64, height: 64, tolerance: 5 }),
    {
        Self { x: 0, y: 0, width: 64, height: 64, tolerance: 5 }
    }
}

/// A profile's encoder.
pub trait TimestampStamper {
    /// Whether the stamper's parameters are usable.
    spec fn wf(&self) -> bool;

    /// The frame after stamping.
    spec fn stamped(&self, frame: FrameView, timestamp_usecs: u64, config: StamperConfig) -> FrameView;

    /// Whether stamping refuses the frame.
    spec fn refuses(&self, frame: FrameView, timestamp_usecs: u64, config: StamperConfig) -> bool;

    /// Stamps a timestamp, in microseconds, onto a frame.
    fn stamp(&self, frame: &mut Frame, timestamp_usecs: u64, config: &StamperConfig) -> (r: Result<
        (),
        CodecError,
    >)
        requires
            self.wf(),
            old(frame)@.wf(),
        ensures
            final(frame)@ == self.stamped(old(frame)@, timestamp_usecs, *config),
            r == if self.refuses(old(frame)@, timestamp_usecs, *config) {
                Err::<(), CodecError>(CodecError::UnsupportedFormat)
            } else {
                Ok::<(), CodecError>(())
            },
    ;

    /// The name of the profile.
    spec fn profile(&self) -> StamperType;

    /// The name of the profile.
    fn name(&self) -> (s: &'static str)
        ensures
            s@ == self.profile().nick(),
    ;

    /// A line on what the stamper does.
    fn description(&self) -> (s: &'static str)
        ensures
            s@ == self.profile().stamper_line(),
    ;
}

/// A profile's decoder.
pub trait TimestampReader {
    /// Whether the reader's parameters are usable.
    spec fn wf(&self) -> bool;

    /// What reading a frame returns.
    spec fn reading(&self, frame: FrameView, config: ReaderConfig) -> Result<
        Option<u64>,
        CodecError,
    >;

    /// Reads a timestamp from a frame.
    fn read(&self, frame: &Frame, config: &ReaderConfig) -> (r: Result<Option<u64>, CodecError>)
        requires
            self.wf(),
            frame@.wf(),
        ensures
            r == self.reading(frame@, *config),
    ;

    /// The name of the profile.
    spec fn profile(&self) -> StamperType;

    /// The name of the profile.
    fn name(&self) -> (s: &'static str)
        ensures
            s@ == self.profile().nick(),
    ;

    /// A line on what the reader does.
    fn description(&self) -> (s: &'static str)
        ensures
            s@ == self.profile().reader_line(),
    ;
}

} // verus!
