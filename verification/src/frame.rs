//! A video frame as the codecs see it: byte planes with their strides, and
//! where each color component of a pixel lies in them.

use vstd::prelude::*;

verus! {

/// Why a codec refused a frame.
#[derive(Clone, Copy, Debug, PartialEq, Eq, Structural)]
pub enum CodecError {
    /// The pixel format is outside what the codecs handle: neither an RGB
    /// nor a YUV color model, or components that are not 8 bits deep
    /// without shift.
    UnsupportedFormat,
}

/// The color model flags of a pixel format.
#[derive(Clone, Copy, Debug, PartialEq, Eq, Structural)]
pub struct FormatFlags {
    pub rgb: bool,
    pub yuv: bool,
}

/// The pixel formats that a codec tells apart by name.
#[derive(Clone, Copy, Debug, PartialEq, Eq, Structural)]
pub enum PixelFormat {
    /// Planar YUV 4:2:0 with an 8-bit luma plane first.
    I420,
    /// Any other format.
    Other,
}

/// Where one color component of a pixel lies.
#[derive(Clone, Copy, Debug, PartialEq, Eq, Structural)]
pub struct Component {
    /// The plane that holds the component.
    pub plane: usize,
    /// Bytes from one sample of the component to the next in a row.
    pub pixel_stride: usize,
    /// Bytes from the start of a pixel to the component.
    pub poffset: usize,
    /// Bits of the component.
    pub depth: u32,
    /// Bits by which the component is shifted inside its storage.
    pub shift: u32,
    /// Vertical subsampling, as a power of two.
    pub h_sub: u32,
    /// Horizontal subsampling, as a power of two.
    pub w_sub: u32,
}

/// One byte plane of a frame.
#[derive(Clone, Debug)]
pub struct Plane {
    /// Bytes from one row to the next.
    pub stride: usize,
    pub data: Vec<u8>,
}

/// A frame: its format and its planes.
#[derive(Clone, Debug)]
pub struct Frame {
    pub format: PixelFormat,
    pub flags: FormatFlags,
    /// Bits per component that the format declares.
    pub bits: u32,
    /// The color components, in the order of the fill values.
    pub components: Vec<Component>,
    pub planes: Vec<Plane>,
}

/// The mathematical content of a plane.
pub struct PlaneView {
    pub stride: int,
    pub data: Seq<u8>,
}

/// The mathematical content of a frame.
pub struct FrameView {
    pub format: PixelFormat,
    pub flags: FormatFlags,
    pub bits: u32,
    pub components: Seq<Component>,
    pub planes: Seq<PlaneView>,
}

impl View for Plane {
    type V = PlaneView;

    open spec fn view(&self) -> PlaneView {
        PlaneView { stride: self.stride as int, data: self.data@ }
    }
}

impl View for Frame {
    type V = FrameView;

    open spec fn view(&self) -> FrameView {
        FrameView {
            format: self.format,
            flags: self.flags,
            bits: self.bits,
            components: self.components@,
            planes: Seq::new(self.planes@.len(), |i: int| self.planes@[i]@),
        }
    }
}

/// The largest subsampling exponent that a component may declare.
pub const MAX_SUBSAMPLING: u32 = 31;

impl FrameView {
    /// A frame is well formed when it has a first plane, each component
    /// names one of its planes, and no subsampling exponent is beyond
    /// `MAX_SUBSAMPLING`.
    pub open spec fn wf(&self) -> bool {
        &&& self.planes.len() >= 1
        &&& forall|k: int|
            0 <= k < self.components.len() ==> {
                &&& (#[trigger] self.components[k]).plane < self.planes.len()
                &&& self.components[k].h_sub <= MAX_SUBSAMPLING
                &&& self.components[k].w_sub <= MAX_SUBSAMPLING
            }
    }

    /// The frame with other planes.
    pub open spec fn with_planes(&self, planes: Seq<PlaneView>) -> FrameView {
        FrameView { planes, ..*self }
    }

    /// The frame with the bytes of plane `p` replaced.
    pub open spec fn with_plane_data(&self, p: int, data: Seq<u8>) -> FrameView {
        FrameView {
            planes: self.planes.update(p, PlaneView { stride: self.planes[p].stride, data }),
            ..*self
        }
    }
}

impl Frame {
    /// Says whether the frame is well formed.
    pub fn is_well_formed(&self) -> (ok: bool)
        ensures
            ok == self@.wf(),
    {
        if self.planes.len() < 1 {
            return false;
        }
        let mut k: usize = 0;
        while k < self.components.len()
            invariant
                k <= self.components.len(),
                self.planes.len() >= 1,
                forall|j: int|
                    0 <= j < k ==> {
                        &&& (#[trigger] self.components@[j]).plane < self.planes.len()
                        &&& self.components@[j].h_sub <= MAX_SUBSAMPLING
                        &&& self.components@[j].w_sub <= MAX_SUBSAMPLING
                    },
            decreases self.components.len() - k,
        {
            let c = self.components[k];
            if c.plane >= self.planes.len() || c.h_sub > MAX_SUBSAMPLING || c.w_sub
                > MAX_SUBSAMPLING {
                assert(self@.components[k as int] == c);
                return false;
            }
            k += 1;
        }
        true
    }
}

} // verus!
