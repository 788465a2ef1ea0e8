//! A time code without scaling: 8 by 8 pixels of a packed plane, one
//! pixel per bit, each of them pure white or pure black. Bit `c` of byte
//! `r` of the timestamp, byte 0 being the most significant, is the pixel
//! in row `r` and column `c`.

use crate::bits::{pack_msb, pack_word};
use crate::stamper::original::time_code_bit;
use crate::stamper::original_laws::lemma_pack_time_code;
use vstd::prelude::*;

verus! {

/// How the bytes of a pixel are told white from black.
#[derive(Clone, Copy, Debug, PartialEq, Eq, Structural)]
pub enum PackedFormat {
    /// Three color bytes first: white is 255, 255, 255 and black 0, 0, 0.
    Rgb,
    /// Three color bytes and alpha: white is 255, 255, 255, 255 and black
    /// 0, 0, 0, 255.
    Rgba,
    /// A padding byte, then three color bytes: white is 255, 255, 255 and
    /// black 0, 0, 255.
    Xrgb,
    /// Alpha, then three color bytes: white is 255, 255, 255, 255 and
    /// black 255, 0, 0, 0.
    Argb,
}

impl PackedFormat {
    /// The bytes of a pixel that are looked at.
    pub open spec fn bytes(self) -> int {
        match self {
            PackedFormat::Rgb => 3,
            _ => 4,
        }
    }

    /// The bytes of a pixel that are looked at.
    pub fn pixel_bytes(self) -> (n: usize)
        ensures
            n == self.bytes(),
    {
        match self {
            PackedFormat::Rgb => 3,
            _ => 4,
        }
    }
}

/// The color of the pixel at byte `at`: `true` for white, `false` for
/// black, none for any other.
pub open spec fn pure_color(data: Seq<u8>, at: int, format: PackedFormat) -> Option<bool> {
    let p = |i: int| data[at + i];
    match format {
        PackedFormat::Rgb => if p(0) == 255 && p(1) == 255 && p(2) == 255 {
            Some(true)
        } else if p(0) == 0 && p(1) == 0 && p(2) == 0 {
            Some(false)
        } else {
            None
        },
        PackedFormat::Rgba => if p(0) == 255 && p(1) == 255 && p(2) == 255 && p(3) == 255 {
            Some(true)
        } else if p(0) == 0 && p(1) == 0 && p(2) == 0 && p(3) == 255 {
            Some(false)
        } else {
            None
        },
        PackedFormat::Xrgb => if p(1) == 255 && p(2) == 255 && p(3) == 255 {
            Some(true)
        } else if p(1) == 0 && p(2) == 0 && p(3) == 255 {
            Some(false)
        } else {
            None
        },
        PackedFormat::Argb => if p(0) == 255 && p(1) == 255 && p(2) == 255 && p(3) == 255 {
            Some(true)
        } else if p(0) == 255 && p(1) == 0 && p(2) == 0 && p(3) == 0 {
            Some(false)
        } else {
            None
        },
    }
}

/// Where a bitmap lies in a plane.
pub struct Bitmap {
    pub stride: int,
    /// Bytes from one pixel to the next.
    pub channels: int,
    pub x: int,
    pub y: int,
    pub format: PackedFormat,
}

impl Bitmap {
    /// Whether a pixel has the bytes that are looked at, the rows of the
    /// plane hold the eight columns of the bitmap, and the plane holds its
    /// eight rows.
    pub open spec fn fits(self, len: int) -> bool {
        &&& self.format.bytes() <= self.channels
        &&& (self.x + 8) * self.channels <= self.stride
        &&& (self.y + 8) * self.stride <= len
    }

    /// The byte at which the pixel in row `r` and column `c` starts.
    pub open spec fn pixel_at(self, r: int, c: int) -> int {
        (self.y + r) * self.stride + (self.x + c) * self.channels
    }

    /// The color of the pixel in row `r` and column `c`.
    pub open spec fn cell(self, data: Seq<u8>, r: int, c: int) -> Option<bool> {
        pure_color(data, self.pixel_at(r, c), self.format)
    }

    /// Whether the bitmap lies in the plane and each of its pixels is
    /// white or black.
    pub open spec fn readable(self, data: Seq<u8>) -> bool {
        &&& self.fits(data.len() as int)
        &&& forall|r: int, c: int|
            0 <= r < 8 && 0 <= c < 8 ==> (#[trigger] self.cell(data, r, c)) is Some
    }

    /// The 64 pixels in the order of the bits of the timestamp, most
    /// significant first.
    pub open spec fn bits(self, data: Seq<u8>) -> Seq<bool> {
        Seq::new(64, |k: int| self.cell(data, k / 8, 7 - k % 8) == Some(true))
    }

    /// The timestamp that the bitmap spells; none unless it is readable.
    pub open spec fn value(self, data: Seq<u8>) -> Option<u64> {
        if self.readable(data) {
            Some(pack_msb(self.bits(data), 0, 64) as u64)
        } else {
            None
        }
    }
}

/// Tells the color of the pixel at byte `at`.
pub fn get_color(data: &[u8], at: usize, format: PackedFormat) -> (color: Option<bool>)
    requires
        at + format.bytes() <= data@.len(),
    ensures
        color == pure_color(data@, at as int, format),
{
    let len = data.len();
    assert(at + format.bytes() <= len);
    match format {
        PackedFormat::Rgb => {
            if data[at] == 255 && data[at + 1] == 255 && data[at + 2] == 255 {
                Some(true)
            } else if data[at] == 0 && data[at + 1] == 0 && data[at + 2] == 0 {
                Some(false)
            } else {
                None
            }
        },
        PackedFormat::Rgba => {
            if data[at] == 255 && data[at + 1] == 255 && data[at + 2] == 255 && data[at + 3]
                == 255 {
                Some(true)
            } else if data[at] == 0 && data[at + 1] == 0 && data[at + 2] == 0 && data[at + 3]
                == 255 {
                Some(false)
            } else {
                None
            }
        },
        PackedFormat::Xrgb => {
            if data[at + 1] == 255 && data[at + 2] == 255 && data[at + 3] == 255 {
                Some(true)
            } else if data[at + 1] == 0 && data[at + 2] == 0 && data[at + 3] == 255 {
                Some(false)
            } else {
                None
            }
        },
        PackedFormat::Argb => {
            if data[at] == 255 && data[at + 1] == 255 && data[at + 2] == 255 && data[at + 3]
                == 255 {
                Some(true)
            } else if data[at] == 255 && data[at + 1] == 0 && data[at + 2] == 0 && data[at + 3]
                == 0 {
                Some(false)
            } else {
                None
            }
        },
    }
}

/// Says whether a bitmap lies in a plane of `len` bytes.
pub fn bitmap_fits(
    len: usize,
    stride: usize,
    channels: usize,
    x: usize,
    y: usize,
    format: PackedFormat,
) -> (ok: bool)
    ensures
        ok == (Bitmap {
            stride: stride as int,
            channels: channels as int,
            x: x as int,
            y: y as int,
            format,
        }).fits(len as int),
        ok ==> x + 8 <= stride && y + 8 <= len,
{
    if channels < format.pixel_bytes() {
        return false;
    }
    if stride < 8 || x > stride - 8 {
        proof {
            assert((x + 8) * channels >= x + 8) by (nonlinear_arith)
                requires
                    channels >= 1,
                    x >= 0,
            ;
        }
        return false;
    }
    if len < 8 || y > len - 8 {
        proof {
            assert((y + 8) * stride >= y + 8) by (nonlinear_arith)
                requires
                    stride >= 1,
                    y >= 0,
            ;
        }
        return false;
    }
    proof {
        assert((x + 8) * channels <= 0xFFFF_FFFF_FFFF_FFFF * 0xFFFF_FFFF_FFFF_FFFF)
            by (nonlinear_arith)
            requires
                0 <= x + 8 <= 0xFFFF_FFFF_FFFF_FFFF,
                0 <= channels <= 0xFFFF_FFFF_FFFF_FFFF,
        ;
        assert((y + 8) * stride <= 0xFFFF_FFFF_FFFF_FFFF * 0xFFFF_FFFF_FFFF_FFFF)
            by (nonlinear_arith)
            requires
                0 <= y + 8 <= 0xFFFF_FFFF_FFFF_FFFF,
                0 <= stride <= 0xFFFF_FFFF_FFFF_FFFF,
        ;
    }
    (x as u128 + 8) * (channels as u128) <= stride as u128 && (y as u128 + 8) * (stride as u128)
        <= len as u128
}

/// Reads the timestamp that 8 by 8 pixels at `(x, y)` spell. Nothing is
/// read unless the bitmap lies in the plane and each of its pixels is
/// pure white or pure black.
pub fn parse_time_code(
    data: &[u8],
    stride: usize,
    channels: usize,
    x: usize,
    y: usize,
    format: PackedFormat,
) -> (r: Option<u64>)
    ensures
        r == (Bitmap {
            stride: stride as int,
            channels: channels as int,
            x: x as int,
            y: y as int,
            format,
        }).value(data@),
{
    let ghost bitmap = Bitmap {
        stride: stride as int,
        channels: channels as int,
        x: x as int,
        y: y as int,
        format,
    };
    let len = data.len();
    if !bitmap_fits(len, stride, channels, x, y, format) {
        return None;
    }
    let mut bits: Vec<bool> = Vec::new();
    let mut k: usize = 0;
    while k < 64
        invariant
            k <= 64,
            bitmap == (Bitmap {
                stride: stride as int,
                channels: channels as int,
                x: x as int,
                y: y as int,
                format,
            }),
            bitmap.fits(data@.len() as int),
            x + 8 <= stride,
            y + 8 <= len,
            len == data@.len(),
            bits@.len() == k,
            forall|j: int|
                0 <= j < k ==> (#[trigger] bitmap.cell(data@, j / 8, 7 - j % 8)) is Some && bits@[j]
                    == (bitmap.cell(data@, j / 8, 7 - j % 8) == Some(true)),
        decreases 64 - k,
    {
        let r = k / 8;
        let c = 7 - k % 8;
        proof {
            let row = y + r;
            let col = x + c;
            assert(0 <= row * stride && row * stride + stride <= (y + 8) * stride)
                by (nonlinear_arith)
                requires
                    0 <= row,
                    row + 1 <= y + 8,
                    0 <= stride,
            ;
            assert(0 <= col * channels && col * channels + channels <= (x + 8) * channels)
                by (nonlinear_arith)
                requires
                    0 <= col,
                    col + 1 <= x + 8,
                    0 <= channels,
            ;
        }
        let at = (y + r) * stride + (x + c) * channels;
        match get_color(data, at, format) {
            Some(bit) => {
                bits.push(bit);
            },
            None => {
                assert(bitmap.cell(data@, r as int, c as int) is None);
                return None;
            },
        }
        k += 1;
    }
    proof {
        assert(bits@ =~= bitmap.bits(data@));
        assert forall|r: int, c: int| 0 <= r < 8 && 0 <= c < 8 implies (#[trigger] bitmap.cell(
            data@,
            r,
            c,
        )) is Some by {
            let j = 8 * r + 7 - c;
            assert(j / 8 == r && 7 - j % 8 == c);
            assert(bitmap.cell(data@, j / 8, 7 - j % 8) is Some);
        }
    }
    Some(pack_word(&bits))
}

/// A readable bitmap whose pixel in row `r` and column `c` is white
/// exactly where bit `c` of byte `r` of a timestamp is set spells that
/// timestamp.
pub proof fn lemma_bitmap_spells(bitmap: Bitmap, data: Seq<u8>, t: u64)
    requires
        bitmap.readable(data),
        forall|r: int, c: int|
            0 <= r < 8 && 0 <= c < 8 ==> #[trigger] bitmap.cell(data, r, c) == Some(
                time_code_bit(t, r, c),
            ),
    ensures
        bitmap.value(data) == Some(t),
{
    let bits = bitmap.bits(data);
    assert forall|k: int| 0 <= k < 64 implies #[trigger] bits[k] == time_code_bit(
        t,
        k / 8,
        7 - k % 8,
    ) by {
        assert(bitmap.cell(data, k / 8, 7 - k % 8) == Some(time_code_bit(t, k / 8, 7 - k % 8)));
    }
    lemma_pack_time_code(bits, t);
}

} // verus!
