//! Visual timecodes: a microsecond timestamp stamped into the pixels of a
//! video frame and read back from them, in three interchangeable profiles.
//!
//! - [`frame`]: a frame as byte planes and the layout of its components.
//! - [`geometry`] and [`raster`]: the grid of cells over a region, and
//!   writing and sampling blocks of pixels in a plane.
//! - [`bits`], [`bch`] and [`crc`]: payload bits, the BCH(7,4) code and the
//!   two checksums.
//! - [`stamper`]: the profiles, each with what holds of it, and the
//!   registry that hands them out.
//! - [`bitmap`]: reading a time code of one pixel per bit.
//! - [`element`]: what the stamping and the measuring filter do with a
//!   frame.

pub mod bch;
pub mod bitmap;
pub mod bits;
pub mod crc;
pub mod element;
pub mod frame;
pub mod geometry;
pub mod raster;
pub mod stamper;
