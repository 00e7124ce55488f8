//! The bitmap model that the bitmap manager stores and the mask code reads:
//! dimensions, depth, the raw pixel bytes, the alpha flag, a change counter
//! and an optional matte.
use vstd::prelude::*;
use std::sync::Arc;
use crate::mask::BitmapMask;

verus! {

/// Palettes that ship with the player.
#[derive(Clone, Copy, Debug, PartialEq, Eq, Structural)]
pub enum BuiltInPalette {
    SystemMac,
    SystemWin,
    GrayScale,
    Rainbow,
    Metallic,
    Web216,
    Vivid,
    Ntsc,
    Pastels,
}

/// Where a bitmap's palette comes from: a built-in one, or a palette cast
/// member given by cast library and member number.
#[derive(Clone, Copy, Debug, PartialEq, Eq, Structural)]
pub enum PaletteRef {
    BuiltIn(BuiltInPalette),
    Member(i32, i32),
}

/// A colour as Director scripts see it: a direct RGB triple or an index
/// into the bitmap's palette.
#[derive(Clone, Copy, Debug, PartialEq, Eq, Structural)]
pub enum ColorRef {
    Rgb(u8, u8, u8),
    PaletteIndex(u8),
}

/// The palettes of the loaded casts. The mask and matte builders take it
/// but read only direct colours and pixel colour references, which need no
/// palette.
pub struct PaletteMap {}

impl PaletteMap {
    pub fn new() -> (r: PaletteMap) {
        PaletteMap {}
    }
}

/// Bytes that hold one pixel at a bit depth.
pub open spec fn bytes_per_pixel(bit_depth: u8) -> int {
    if bit_depth == 32 {
        4
    } else if bit_depth == 24 {
        3
    } else if bit_depth == 16 {
        2
    } else {
        1
    }
}

pub struct Bitmap {
    pub width: u16,
    pub height: u16,
    pub bit_depth: u8,
    pub original_bit_depth: u8,
    pub palette_offset: u8,
    pub palette_ref: PaletteRef,
    /// Pixel bytes, row by row: RGBA at 32 bits, RGB at 24 bits, a
    /// big-endian 5-5-5 RGB word at 16 bits, and one palette index per byte
    /// at 8 bits and below.
    pub data: Vec<u8>,
    pub use_alpha: bool,
    /// Bumped whenever the pixels may have changed, so texture caches know
    /// to upload again.
    pub version: u32,
    pub matte: Option<Arc<BitmapMask>>,
}

impl Bitmap {
    /// Bytes that `new` allocates for these dimensions.
    pub open spec fn byte_len(width: u16, height: u16, bit_depth: u8) -> int {
        width * height * bytes_per_pixel(bit_depth)
    }

    pub fn new(
        width: u16,
        height: u16,
        bit_depth: u8,
        original_bit_depth: u8,
        palette_offset: u8,
        palette_ref: PaletteRef,
    ) -> (r: Bitmap)
        requires
            Self::byte_len(width, height, bit_depth) <= usize::MAX,
        ensures
            r.width == width,
            r.height == height,
            r.bit_depth == bit_depth,
            r.original_bit_depth == original_bit_depth,
            r.palette_offset == palette_offset,
            r.palette_ref == palette_ref,
            r.data@ == Seq::new(Self::byte_len(width, height, bit_depth) as nat, |i: int| 0u8),
            !r.use_alpha,
            r.version == 0,
            r.matte is None,
    {
        let bpp: usize = if bit_depth == 32 {
            4
        } else if bit_depth == 24 {
            3
        } else if bit_depth == 16 {
            2
        } else {
            1
        };
        assert(width * height * bpp <= usize::MAX);
        assert(width * height <= width * height * bpp) by (nonlinear_arith)
            requires bpp >= 1;
        let n: usize = (width as usize) * (height as usize) * bpp;
        let data: Vec<u8> = vec![0u8; n];
        assert(data@ =~= Seq::new(n as nat, |i: int| 0u8));
        Bitmap {
            width,
            height,
            bit_depth,
            original_bit_depth,
            palette_offset,
            palette_ref,
            data,
            use_alpha: false,
            version: 0,
            matte: None,
        }
    }

    /// There are bytes for every pixel.
    pub open spec fn readable(self) -> bool {
        self.data@.len() >= Self::byte_len(self.width, self.height, self.bit_depth)
    }

    /// Where the bytes of pixel `(x, y)` start.
    pub open spec fn pixel_offset(self, x: int, y: int) -> int {
        (y * self.width + x) * bytes_per_pixel(self.bit_depth)
    }

    /// The colour of pixel `(x, y)`: RGB at 32 and 24 bits, the 5-5-5
    /// word widened to eight bits a channel at 16 bits, and the palette
    /// index at 8 bits and below.
    pub open spec fn pixel_color(self, x: int, y: int) -> ColorRef {
        let o = self.pixel_offset(x, y);
        if self.bit_depth == 32 || self.bit_depth == 24 {
            ColorRef::Rgb(self.data@[o], self.data@[o + 1], self.data@[o + 2])
        } else if self.bit_depth == 16 {
            let v = self.data@[o] * 256 + self.data@[o + 1];
            ColorRef::Rgb(widen5((v / 1024) % 32), widen5((v / 32) % 32), widen5(v % 32))
        } else {
            ColorRef::PaletteIndex(self.data@[o])
        }
    }

    /// The background colour: white, which is index 0 of the system
    /// palettes for indexed bitmaps.
    pub open spec fn bg_color(self) -> ColorRef {
        if self.bit_depth == 32 || self.bit_depth == 24 || self.bit_depth == 16 {
            ColorRef::Rgb(255, 255, 255)
        } else {
            ColorRef::PaletteIndex(0)
        }
    }

    pub fn get_bg_color_ref(&self) -> (r: ColorRef)
        ensures
            r == self.bg_color(),
    {
        if self.bit_depth == 32 || self.bit_depth == 24 || self.bit_depth == 16 {
            ColorRef::Rgb(255, 255, 255)
        } else {
            ColorRef::PaletteIndex(0)
        }
    }

    pub fn get_pixel_color_ref(&self, x: u16, y: u16) -> (r: ColorRef)
        requires
            self.readable(),
            x < self.width,
            y < self.height,
        ensures
            r == self.pixel_color(x as int, y as int),
    {
        let w = self.width;
        let h = self.height;
        let bpp: usize = if self.bit_depth == 32 {
            4
        } else if self.bit_depth == 24 {
            3
        } else if self.bit_depth == 16 {
            2
        } else {
            1
        };
        proof {
            crate::mask::lemma_index_in_grid(w as int, h as int, x as int, y as int);
            assert(((y * w + x) + 1) * bpp <= w * h * bpp) by (nonlinear_arith)
                requires (y * w + x) + 1 <= w * h, bpp >= 1;
            assert(((y * w + x) + 1) * bpp == (y * w + x) * bpp + bpp) by (nonlinear_arith);
            assert(self.data@.len() == self.data.len());
        }
        let o: usize = ((y as usize) * (w as usize) + (x as usize)) * bpp;
        if self.bit_depth == 32 || self.bit_depth == 24 {
            ColorRef::Rgb(self.data[o], self.data[o + 1], self.data[o + 2])
        } else if self.bit_depth == 16 {
            let v: u32 = (self.data[o] as u32) * 256 + (self.data[o + 1] as u32);
            ColorRef::Rgb(widen5_exec((v / 1024) % 32), widen5_exec((v / 32) % 32), widen5_exec(v % 32))
        } else {
            ColorRef::PaletteIndex(self.data[o])
        }
    }
}

/// A 5-bit channel widened to 8 bits: the value shifted up, its top bits
/// repeated below, so 0 stays 0 and 31 becomes 255.
pub open spec fn widen5(c: int) -> u8 {
    (c * 8 + c / 4) as u8
}

fn widen5_exec(c: u32) -> (r: u8)
    requires
        c < 32,
    ensures
        r == widen5(c as int),
{
    (c * 8 + c / 4) as u8
}

/// Where a pixel's colour comes from: at 32 bits the first three of its
/// four bytes and at 24 bits its three bytes, red, green, blue in that
/// order; at 16 bits the word `0rrrrrgg gggbbbbb` (high byte first), each
/// channel widened; at 8 bits and below its byte, a palette index.
pub proof fn law_pixel_channels(b: Bitmap, x: int, y: int)
    requires
        0 <= x < b.width,
        0 <= y < b.height,
        b.readable(),
    ensures
        b.bit_depth == 32 ==> b.pixel_color(x, y) == ColorRef::Rgb(
            b.data@[(y * b.width + x) * 4],
            b.data@[(y * b.width + x) * 4 + 1],
            b.data@[(y * b.width + x) * 4 + 2],
        ),
        b.bit_depth == 24 ==> b.pixel_color(x, y) == ColorRef::Rgb(
            b.data@[(y * b.width + x) * 3],
            b.data@[(y * b.width + x) * 3 + 1],
            b.data@[(y * b.width + x) * 3 + 2],
        ),
        b.bit_depth == 16 ==> ({
            let hi = b.data@[(y * b.width + x) * 2] as int;
            let lo = b.data@[(y * b.width + x) * 2 + 1] as int;
            b.pixel_color(x, y) == ColorRef::Rgb(
                widen5((hi / 4) % 32),
                widen5((hi % 4) * 8 + lo / 32),
                widen5(lo % 32),
            )
        }),
        b.bit_depth != 32 && b.bit_depth != 24 && b.bit_depth != 16 ==> b.pixel_color(x, y) == ColorRef::PaletteIndex(
            b.data@[y * b.width + x],
        ),
{
    if b.bit_depth == 16 {
        let o = (y * b.width + x) * 2;
        let hi = b.data@[o] as int;
        let lo = b.data@[o + 1] as int;
        let v = hi * 256 + lo;
        assert((v / 1024) % 32 == (hi / 4) % 32 && (v / 32) % 32 == (hi % 4) * 8 + lo / 32 && v % 32 == lo % 32)
            by (nonlinear_arith)
            requires
                v == hi * 256 + lo,
                0 <= hi < 256,
                0 <= lo < 256,
        ;
    }
}

/// Widening keeps the five bits on top and repeats their top three below:
/// 0 stays 0 and 31 becomes 255.
pub proof fn law_widen5(c: int)
    requires
        0 <= c < 32,
    ensures
        widen5(c) / 8 == c,
        widen5(c) % 8 == c / 4,
        widen5(0) == 0,
        widen5(31) == 255,
{
}

/// The background is white: the RGB triple at 16, 24 and 32 bits, palette
/// index 0 (white in the system palettes) at the indexed depths.
pub proof fn law_background_is_white(b: Bitmap)
    ensures
        b.bit_depth == 32 || b.bit_depth == 24 || b.bit_depth == 16 ==> b.bg_color() == ColorRef::Rgb(255, 255, 255),
        !(b.bit_depth == 32 || b.bit_depth == 24 || b.bit_depth == 16) ==> b.bg_color() == ColorRef::PaletteIndex(0),
{
}

} // verus!
