//! A CPU-side RGBA8 image buffer: `width * height` pixels of four bytes each
//! (`[r, g, b, a]`, sRGB-encoded), row-major.

use vstd::prelude::*;

verus! {

/// Byte offset of pixel `(x, y)` in a row-major RGBA8 buffer of width `w`.
pub open spec fn pixel_offset(w: int, x: int, y: int) -> int {
    (y * w + x) * 4
}

/// Two different pixels of a `w`-wide, `h`-high buffer occupy disjoint
/// four-byte ranges, and each range lies inside the buffer.
pub proof fn lemma_pixel_ranges(w: int, h: int, x1: int, y1: int, x2: int, y2: int)
    requires
        0 <= x1 < w,
        0 <= y1 < h,
        0 <= x2 < w,
        0 <= y2 < h,
    ensures
        0 <= pixel_offset(w, x1, y1),
        pixel_offset(w, x1, y1) + 4 <= w * h * 4,
        (x1 != x2 || y1 != y2) ==> (pixel_offset(w, x1, y1) + 4 <= pixel_offset(w, x2, y2)
            || pixel_offset(w, x2, y2) + 4 <= pixel_offset(w, x1, y1)),
{
    assert(0 <= y1 * w + x1 && (y1 * w + x1) + 1 <= w * h) by (nonlinear_arith)
        requires
            0 <= x1 < w,
            0 <= y1 < h,
    ;
    if y1 < y2 {
        assert(y1 * w + x1 + 1 <= y2 * w + x2) by (nonlinear_arith)
            requires
                0 <= x1 < w,
                0 <= x2,
                y1 < y2,
        ;
    } else if y2 < y1 {
        assert(y2 * w + x2 + 1 <= y1 * w + x1) by (nonlinear_arith)
            requires
                0 <= x2 < w,
                0 <= x1,
                y2 < y1,
        ;
    }
}

/// A tightly packed RGBA8 image, 4 bytes per pixel, row-major.
#[derive(Debug)]
pub struct Image {
    width: u32,
    height: u32,
    pixels: Vec<u8>,
}

impl Image {
    /// Width in pixels.
    pub closed spec fn w(&self) -> nat {
        self.width as nat
    }

    /// Height in pixels.
    pub closed spec fn h(&self) -> nat {
        self.height as nat
    }

    /// The raw bytes.
    pub closed spec fn bytes(&self) -> Seq<u8> {
        self.pixels@
    }

    /// The buffer holds exactly `width * height * 4` bytes.
    pub open spec fn wf(&self) -> bool {
        self.bytes().len() == self.w() * self.h() * 4
    }

    /// The four bytes of pixel `(x, y)`.
    pub open spec fn pixel_at(&self, x: int, y: int) -> Seq<u8> {
        self.bytes().subrange(pixel_offset(self.w() as int, x, y), pixel_offset(self.w() as int, x, y) + 4)
    }

    /// `(x, y)` is inside the image.
    pub open spec fn in_bounds(&self, x: int, y: int) -> bool {
        0 <= x < self.w() && 0 <= y < self.h()
    }

    /// A transparent-black image of the given size.
    pub fn new(width: u32, height: u32) -> (img: Image)
        requires
            width as nat * height as nat * 4 <= usize::MAX,
        ensures
            img.wf(),
            img.w() == width,
            img.h() == height,
            forall|i: int| 0 <= i < img.bytes().len() ==> img.bytes()[i] == 0,
    {
        proof {
            assert(width as nat * height as nat * 4 == (width as usize as nat) * (height as usize as nat) * 4);
            assert((width as usize) * (height as usize) <= usize::MAX) by (nonlinear_arith)
                requires
                    width as nat * height as nat * 4 <= usize::MAX,
            ;
        }
        let n: usize = (width as usize) * (height as usize) * 4;
        Image { width, height, pixels: vec![0u8; n] }
    }

    /// Fill every pixel with the same four bytes.
    pub fn fill_rgba8(&mut self, rgba: [u8; 4])
        requires
            old(self).wf(),
        ensures
            final(self).wf(),
            final(self).w() == old(self).w(),
            final(self).h() == old(self).h(),
            forall|i: int| 0 <= i < final(self).bytes().len() ==> final(self).bytes()[i] == rgba@[i % 4],
    {
        let n = self.pixels.len();
        let mut i: usize = 0;
        while i < n
            invariant
                self.width == old(self).width,
                self.height == old(self).height,
                self.pixels@.len() == n,
                n == old(self).pixels@.len(),
                0 <= i <= n,
                forall|j: int| 0 <= j < i ==> self.pixels@[j] == rgba@[j % 4],
            decreases n - i,
        {
            self.pixels.set(i, rgba[i % 4]);
            i = i + 1;
        }
    }

    /// Wrap an existing RGBA8 byte buffer; `None` unless its length is
    /// exactly `width * height * 4`.
    pub fn from_rgba8(width: u32, height: u32, pixels: Vec<u8>) -> (r: Option<Image>)
        ensures
            (r is Some) == (pixels@.len() == width as nat * height as nat * 4),
            r matches Some(img) ==> img.wf() && img.w() == width && img.h() == height && img.bytes() == pixels@,
    {
        proof {
            assert((width as int) * (height as int) <= u64::MAX) by (nonlinear_arith)
                requires
                    width <= u32::MAX,
                    height <= u32::MAX,
            ;
        }
        let wh: u64 = (width as u64) * (height as u64);
        let n = pixels.len();
        if wh <= (usize::MAX / 4) as u64 && n == (wh as usize) * 4 {
            Some(Image { width, height, pixels })
        } else {
            proof {
                if pixels@.len() == width as nat * height as nat * 4 {
                    assert(wh as nat == width as nat * height as nat);
                    assert(wh as nat * 4 <= usize::MAX);
                }
            }
            None
        }
    }

    pub fn width(&self) -> (r: u32)
        ensures
            r == self.w(),
    {
        self.width
    }

    pub fn height(&self) -> (r: u32)
        ensures
            r == self.h(),
    {
        self.height
    }

    /// `true` when the image has no pixels.
    pub fn is_empty(&self) -> (r: bool)
        ensures
            r == (self.w() == 0 || self.h() == 0),
    {
        self.width == 0 || self.height == 0
    }

    /// Raw sRGB RGBA8 bytes, e.g. for uploading to a texture.
    pub fn as_bytes(&self) -> (r: &[u8])
        ensures
            r@ == self.bytes(),
    {
        self.pixels.as_slice()
    }

    /// Byte offset of pixel `(x, y)`.
    fn index(&self, x: u32, y: u32) -> (i: usize)
        requires
            self.wf(),
            self.in_bounds(x as int, y as int),
        ensures
            i == pixel_offset(self.w() as int, x as int, y as int),
            i + 4 <= self.bytes().len(),
    {
        let n = self.pixels.len();
        proof {
            lemma_pixel_ranges(self.w() as int, self.h() as int, x as int, y as int, x as int, y as int);
            assert(self.bytes().len() == n);
            assert((y as int) * (self.w() as int) <= (y as int) * (self.w() as int) + (x as int));
        }
        ((y as usize) * (self.width as usize) + (x as usize)) * 4
    }

    /// The raw pixel at `(x, y)`, or `None` when out of bounds.
    pub fn pixel(&self, x: u32, y: u32) -> (r: Option<[u8; 4]>)
        requires
            self.wf(),
        ensures
            (r is Some) == self.in_bounds(x as int, y as int),
            r matches Some(p) ==> p@ == self.pixel_at(x as int, y as int),
    {
        if x >= self.width || y >= self.height {
            return None;
        }
        let i = self.index(x, y);
        let p = [self.pixels[i], self.pixels[i + 1], self.pixels[i + 2], self.pixels[i + 3]];
        proof {
            assert(p@ =~= self.pixel_at(x as int, y as int));
        }
        Some(p)
    }

    /// Write the raw pixel at `(x, y)`; out-of-bounds writes change nothing.
    pub fn set_pixel(&mut self, x: u32, y: u32, rgba: [u8; 4])
        requires
            old(self).wf(),
        ensures
            final(self).wf(),
            final(self).w() == old(self).w(),
            final(self).h() == old(self).h(),
            old(self).in_bounds(x as int, y as int) ==> final(self).pixel_at(x as int, y as int) == rgba@,
            forall|x2: int, y2: int| old(self).in_bounds(x2, y2) && (x2 != x || y2 != y)
                ==> #[trigger] final(self).pixel_at(x2, y2) == old(self).pixel_at(x2, y2),
            !old(self).in_bounds(x as int, y as int) ==> final(self).bytes() == old(self).bytes(),
    {
        if x >= self.width || y >= self.height {
            return;
        }
        let i = self.index(x, y);
        self.pixels.set(i, rgba[0]);
        self.pixels.set(i + 1, rgba[1]);
        self.pixels.set(i + 2, rgba[2]);
        self.pixels.set(i + 3, rgba[3]);
        proof {
            assert(self.pixel_at(x as int, y as int) =~= rgba@);
            assert forall|x2: int, y2: int| old(self).in_bounds(x2, y2) && (x2 != x || y2 != y)
                implies #[trigger] self.pixel_at(x2, y2) == old(self).pixel_at(x2, y2) by {
                lemma_pixel_ranges(self.w() as int, self.h() as int, x2, y2, x as int, y as int);
                assert(self.pixel_at(x2, y2) =~= old(self).pixel_at(x2, y2));
            }
        }
    }

    /// Copy `src` onto this image with its top-left corner at `(ox, oy)`,
    /// clipped to bounds; pixels are copied directly (no blending).
    pub fn blit(&mut self, src: &Image, ox: i32, oy: i32)
        requires
            old(self).wf(),
            src.wf(),
        ensures
            final(self).wf(),
            final(self).w() == old(self).w(),
            final(self).h() == old(self).h(),
            forall|x: int, y: int| #[trigger] old(self).in_bounds(x, y) ==> final(self).pixel_at(x, y) == (
                if src.in_bounds(x - ox, y - oy) {
                    src.pixel_at(x - ox, y - oy)
                } else {
                    old(self).pixel_at(x, y)
                }),
    {
        let mut sy: u32 = 0;
        while sy < src.height
            invariant
                self.wf(),
                src.wf(),
                self.w() == old(self).w(),
                self.h() == old(self).h(),
                0 <= sy <= src.h(),
                forall|x: int, y: int| #[trigger] old(self).in_bounds(x, y) ==> self.pixel_at(x, y) == (
                    if src.in_bounds(x - ox, y - oy) && y - oy < sy {
                        src.pixel_at(x - ox, y - oy)
                    } else {
                        old(self).pixel_at(x, y)
                    }),
            decreases src.h() - sy,
        {
            let dy: i64 = oy as i64 + sy as i64;
            if dy >= 0 && dy < self.height as i64 {
                let mut sx: u32 = 0;
                while sx < src.width
                    invariant
                        self.wf(),
                        src.wf(),
                        self.w() == old(self).w(),
                        self.h() == old(self).h(),
                        0 <= sy < src.h(),
                        dy == oy + sy,
                        0 <= dy < self.h(),
                        0 <= sx <= src.w(),
                        forall|x: int, y: int| #[trigger] old(self).in_bounds(x, y) ==> self.pixel_at(x, y) == (
                            if src.in_bounds(x - ox, y - oy) && (y - oy < sy || (y - oy == sy && x - ox < sx)) {
                                src.pixel_at(x - ox, y - oy)
                            } else {
                                old(self).pixel_at(x, y)
                            }),
                    decreases src.w() - sx,
                {
                    let dx: i64 = ox as i64 + sx as i64;
                    if dx >= 0 && dx < self.width as i64 {
                        let px = src.pixel(sx, sy);
                        match px {
                            Some(p) => {
                                let ghost before = *self;
                                self.set_pixel(dx as u32, dy as u32, p);
                                proof {
                                    assert forall|x: int, y: int| #[trigger] old(self).in_bounds(x, y) implies self.pixel_at(x, y) == (
                                        if src.in_bounds(x - ox, y - oy) && (y - oy < sy || (y - oy == sy && x - ox < sx + 1)) {
                                            src.pixel_at(x - ox, y - oy)
                                        } else {
                                            old(self).pixel_at(x, y)
                                        }) by {
                                        if x != dx || y != dy {
                                            assert(before.in_bounds(x, y));
                                            assert(self.pixel_at(x, y) == before.pixel_at(x, y));
                                        }
                                    }
                                }
                            },
                            None => {},
                        }
                    }
                    sx = sx + 1;
                }
            }
            sy = sy + 1;
        }
    }
}

} // verus!
