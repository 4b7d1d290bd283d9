//! PNG encode/decode for [`Image`]. Decoding normalises any source PNG
//! (palette, grayscale, 16-bit, RGB) to 8-bit RGBA so callers always get the
//! same in-memory layout; the byte-level expansion is verified here, the PNG
//! codec itself is the `png` crate.

use std::io::Cursor;

use png::{DecodingError, EncodingError};
use vstd::prelude::*;

use crate::image::Image;
use crate::text::{text_of, text_then};

verus! {

#[verifier::external_type_specification]
#[verifier::external_body]
pub struct ExDecodingError(DecodingError);

#[verifier::external_type_specification]
#[verifier::external_body]
pub struct ExEncodingError(EncodingError);

/// Channel layout of a decoded PNG frame.
#[derive(Clone, Copy, Debug, PartialEq, Eq, Structural)]
pub enum ColorType {
    Grayscale,
    Rgb,
    Indexed,
    GrayscaleAlpha,
    Rgba,
}

/// Why encoding or decoding failed.
#[derive(Debug)]
pub enum ImageError {
    /// The PNG encoder reported an error (its message).
    Encode(String),
    /// The PNG decoder reported an error (its message).
    Decode(String),
    /// The decoded frame would not fit in memory.
    TooLarge,
    /// A palette image reached the expansion step unexpanded.
    Indexed,
    /// The decoded bytes do not match the frame's dimensions.
    SizeMismatch,
}

/// The message the toolkit reports for `e`.
pub open spec fn image_error_text(e: &ImageError) -> Seq<char> {
    match e {
        ImageError::Encode(m) => m@,
        ImageError::Decode(m) => m@,
        ImageError::TooLarge => "PNG too large to decode"@,
        ImageError::Indexed => "indexed PNG not expanded; expected EXPAND transform"@,
        ImageError::SizeMismatch => "decoded PNG size mismatch"@,
    }
}

impl ImageError {
    /// The message the toolkit reports for this error; encoder and decoder
    /// errors already carry theirs.
    pub fn message(&self) -> (r: String)
        ensures
            r@ == image_error_text(self),
    {
        match self {
            ImageError::Encode(m) => m.clone(),
            ImageError::Decode(m) => m.clone(),
            ImageError::TooLarge => text_of("PNG too large to decode"),
            ImageError::Indexed => text_of("indexed PNG not expanded; expected EXPAND transform"),
            ImageError::SizeMismatch => text_of("decoded PNG size mismatch"),
        }
    }
}

/// Bytes per pixel of a (non-indexed) channel layout.
pub open spec fn channels(c: ColorType) -> nat {
    match c {
        ColorType::Grayscale => 1,
        ColorType::GrayscaleAlpha => 2,
        ColorType::Rgb => 3,
        _ => 4,
    }
}

/// Byte `k` of the RGBA8 expansion of `data` (laid out as `c`).
pub open spec fn expanded_byte(data: Seq<u8>, c: ColorType, k: int) -> u8 {
    let i = k / 4;
    let ch = k % 4;
    match c {
        ColorType::Rgb => if i < data.len() / 3 {
            if ch == 3 { 255u8 } else { data[3 * i + ch] }
        } else {
            0u8
        },
        ColorType::Grayscale => if i < data.len() {
            if ch == 3 { 255u8 } else { data[i] }
        } else {
            0u8
        },
        ColorType::GrayscaleAlpha => if i < data.len() / 2 {
            if ch == 3 { data[2 * i + 1] } else { data[2 * i] }
        } else {
            0u8
        },
        _ => 0u8,
    }
}

/// The RGBA8 expansion of `data` for `count` pixels: RGBA data is taken as
/// is; otherwise `count * 4` bytes, one pixel per complete input pixel and
/// zeros after.
pub open spec fn expanded(data: Seq<u8>, c: ColorType, count: nat) -> Seq<u8> {
    if c == ColorType::Rgba {
        data
    } else {
        Seq::new(count * 4, |k: int| expanded_byte(data, c, k))
    }
}

/// Pixel `i` of an RGBA8 buffer: its red, green, blue and alpha bytes.
pub open spec fn rgba_pixel(out: Seq<u8>, i: int) -> (u8, u8, u8, u8) {
    (out[4 * i], out[4 * i + 1], out[4 * i + 2], out[4 * i + 3])
}

/// Channel expansion, pixel by pixel: RGB keeps its three channels and gets
/// an opaque alpha; grey is copied to red, green and blue with an opaque
/// alpha; grey-alpha copies the grey to red, green and blue and keeps its
/// alpha; RGBA data is taken as it is. The buffer holds four bytes per pixel.
pub proof fn lemma_expansion_per_pixel(data: Seq<u8>, count: nat)
    ensures
        expanded(data, ColorType::Rgba, count) == data,
        forall|c: ColorType| c != ColorType::Rgba ==> #[trigger] expanded(data, c, count).len() == 4 * count,
        forall|i: int| 0 <= i < count && 3 * i + 2 < data.len() ==> #[trigger] rgba_pixel(expanded(data, ColorType::Rgb, count), i)
            == (data[3 * i], data[3 * i + 1], data[3 * i + 2], 255u8),
        forall|i: int| 0 <= i < count && i < data.len() ==> #[trigger] rgba_pixel(expanded(data, ColorType::Grayscale, count), i)
            == (data[i], data[i], data[i], 255u8),
        forall|i: int| 0 <= i < count && 2 * i + 1 < data.len() ==> #[trigger] rgba_pixel(
            expanded(data, ColorType::GrayscaleAlpha, count),
            i,
        ) == (data[2 * i], data[2 * i], data[2 * i], data[2 * i + 1]),
{
    assert forall|i: int| 0 <= i < count && 3 * i + 2 < data.len() implies #[trigger] rgba_pixel(expanded(data, ColorType::Rgb, count), i)
        == (data[3 * i], data[3 * i + 1], data[3 * i + 2], 255u8) by {
        assert(i < data.len() / 3);
        assert((4 * i) / 4 == i && (4 * i) % 4 == 0);
        assert((4 * i + 1) / 4 == i && (4 * i + 1) % 4 == 1);
        assert((4 * i + 2) / 4 == i && (4 * i + 2) % 4 == 2);
        assert((4 * i + 3) / 4 == i && (4 * i + 3) % 4 == 3);
    }
    assert forall|i: int| 0 <= i < count && i < data.len() implies #[trigger] rgba_pixel(expanded(data, ColorType::Grayscale, count), i)
        == (data[i], data[i], data[i], 255u8) by {
        assert((4 * i) / 4 == i && (4 * i) % 4 == 0);
        assert((4 * i + 1) / 4 == i && (4 * i + 1) % 4 == 1);
        assert((4 * i + 2) / 4 == i && (4 * i + 2) % 4 == 2);
        assert((4 * i + 3) / 4 == i && (4 * i + 3) % 4 == 3);
    }
    assert forall|i: int| 0 <= i < count && 2 * i + 1 < data.len() implies #[trigger] rgba_pixel(
        expanded(data, ColorType::GrayscaleAlpha, count),
        i,
    ) == (data[2 * i], data[2 * i], data[2 * i], data[2 * i + 1]) by {
        assert(i < data.len() / 2);
        assert((4 * i) / 4 == i && (4 * i) % 4 == 0);
        assert((4 * i + 1) / 4 == i && (4 * i + 1) % 4 == 1);
        assert((4 * i + 2) / 4 == i && (4 * i + 2) % 4 == 2);
        assert((4 * i + 3) / 4 == i && (4 * i + 3) % 4 == 3);
    }
}

/// `data` holds no more complete pixels than `count` (the expansion would
/// write past its output otherwise).
pub open spec fn fits(data: Seq<u8>, c: ColorType, count: nat) -> bool {
    c == ColorType::Rgba || data.len() / channels(c) <= count
}

/// Convert a decoded PNG frame's channel layout to packed RGBA8.
/// Palette data is refused: decoding asks the codec to expand it.
pub fn expand_to_rgba(data: &[u8], color: ColorType, width: u32, height: u32) -> (r: Result<Vec<u8>, ImageError>)
    requires
        fits(data@, color, width as nat * height as nat),
        color != ColorType::Rgba ==> width as nat * height as nat * 4 <= usize::MAX,
    ensures
        color == ColorType::Indexed ==> r is Err,
        color != ColorType::Indexed ==> (r matches Ok(v) && v@ == expanded(data@, color, width as nat * height as nat)),
        color == ColorType::GrayscaleAlpha ==> (r matches Ok(v) && forall|i: int|
            0 <= i < width as nat * height as nat && 2 * i + 1 < data@.len() ==> #[trigger] rgba_pixel(v@, i)
                == (data@[2 * i], data@[2 * i], data@[2 * i], data@[2 * i + 1])),
        color == ColorType::Rgb ==> (r matches Ok(v) && forall|i: int|
            0 <= i < width as nat * height as nat && 3 * i + 2 < data@.len() ==> #[trigger] rgba_pixel(v@, i)
                == (data@[3 * i], data@[3 * i + 1], data@[3 * i + 2], 255u8)),
        color == ColorType::Grayscale ==> (r matches Ok(v) && forall|i: int|
            0 <= i < width as nat * height as nat && i < data@.len() ==> #[trigger] rgba_pixel(v@, i)
                == (data@[i], data@[i], data@[i], 255u8)),
{
    match color {
        ColorType::Rgba => {
            return Ok(vstd::slice::slice_to_vec(data));
        },
        ColorType::Indexed => {
            return Err(ImageError::Indexed);
        },
        _ => {},
    }
    proof {
        assert((width as int) * (height as int) * 4 <= usize::MAX);
        assert((width as int) * (height as int) <= usize::MAX) by (nonlinear_arith)
            requires
                (width as int) * (height as int) * 4 <= usize::MAX,
        ;
    }
    let count: usize = (width as usize) * (height as usize);
    let mut out: Vec<u8> = vec![0u8; count * 4];
    let n = data.len();
    let per: usize = match color {
        ColorType::Grayscale => 1,
        ColorType::GrayscaleAlpha => 2,
        _ => 3,
    };
    let pixels = n / per;
    let mut i: usize = 0;
    while i < pixels
        invariant
            color != ColorType::Rgba,
            color != ColorType::Indexed,
            per == channels(color),
            n == data@.len(),
            pixels == n / per,
            pixels <= count,
            count * 4 <= usize::MAX,
            out@.len() == count * 4,
            count == width as nat * height as nat,
            0 <= i <= pixels,
            forall|k: int| 0 <= k < 4 * i ==> out@[k] == #[trigger] expanded_byte(data@, color, k),
            forall|k: int| 4 * i <= k < out@.len() ==> out@[k] == 0,
        decreases pixels - i,
    {
        proof {
            assert(per * i + per <= per * pixels) by (nonlinear_arith)
                requires
                    i < pixels,
                    per > 0,
            ;
            assert(per * pixels <= n) by (nonlinear_arith)
                requires
                    pixels == n / per,
                    per > 0,
            ;
        }
        let base = per * i;
        let (r, g, b, a) = match color {
            ColorType::Grayscale => (data[base], data[base], data[base], 255u8),
            ColorType::GrayscaleAlpha => (data[base], data[base], data[base], data[base + 1]),
            _ => (data[base], data[base + 1], data[base + 2], 255u8),
        };
        out.set(4 * i, r);
        out.set(4 * i + 1, g);
        out.set(4 * i + 2, b);
        out.set(4 * i + 3, a);
        proof {
            assert forall|k: int| 0 <= k < 4 * (i + 1) implies out@[k] == #[trigger] expanded_byte(data@, color, k) by {
                if k >= 4 * i {
                    assert(k / 4 == i as int);
                    assert(k % 4 == k - 4 * i);
                }
            }
        }
        i = i + 1;
    }
    proof {
        assert forall|k: int| 0 <= k < out@.len() implies out@[k] == #[trigger] expanded_byte(data@, color, k) by {
            if k >= 4 * pixels {
                assert(k / 4 >= pixels);
            }
        }
        assert(out@ =~= expanded(data@, color, count as nat));
    }
    proof {
        lemma_expansion_per_pixel(data@, width as nat * height as nat);
    }
    Ok(out)
}

/// What decoding `bytes` gives: `(width, height, layout, frame bytes)`, or
/// `None` when the codec refuses them. Decoding is a function of the bytes.
pub uninterp spec fn png_decoded(bytes: Seq<u8>) -> Option<(u32, u32, ColorType, Seq<u8>)>;

/// Decode the first frame: `png::Decoder::new` with the `EXPAND | STRIP_16`
/// transformations, `read_info`, a buffer of `output_buffer_size` bytes,
/// `next_frame`, and the buffer cut to the frame's `buffer_size`. The error
/// is `None` when the buffer size overflows, else the decoder's error.
#[verifier::external_body]
fn png_decode_frame(bytes: &[u8]) -> (r: Result<(u32, u32, ColorType, Vec<u8>), Option<DecodingError>>)
    ensures
        match r {
            Ok((w, h, c, d)) => png_decoded(bytes@) == Some((w, h, c, d@)),
            Err(_) => png_decoded(bytes@) is None,
        },
{
    let mut decoder = png::Decoder::new(Cursor::new(bytes));
    decoder.set_transformations(png::Transformations::EXPAND | png::Transformations::STRIP_16);
    let mut reader = decoder.read_info().map_err(Some)?;
    let mut buf = vec![0u8; reader.output_buffer_size().ok_or(None)?];
    let info = reader.next_frame(&mut buf).map_err(Some)?;
    buf.truncate(info.buffer_size());
    let c = match info.color_type { png::ColorType::Grayscale => ColorType::Grayscale, png::ColorType::Rgb => ColorType::Rgb,
        png::ColorType::Indexed => ColorType::Indexed, png::ColorType::GrayscaleAlpha => ColorType::GrayscaleAlpha, png::ColorType::Rgba => ColorType::Rgba };
    Ok((info.width, info.height, c, buf))
}

/// The `Display` text of a decoding error.
#[verifier::external_body]
fn decoding_error_text(e: &DecodingError) -> String {
    e.to_string()
}

/// The `Display` text of an encoding error.
#[verifier::external_body]
fn encoding_error_text(e: &EncodingError) -> String {
    e.to_string()
}

/// The PNG file that encoding `data` as an 8-bit RGBA `width * height` image
/// gives, or `None` when the encoder refuses. Encoding is a function of its
/// inputs.
pub uninterp spec fn png_encoded(width: u32, height: u32, data: Seq<u8>) -> Option<Seq<u8>>;

/// PNG encoding of an RGBA8 buffer: `png::Encoder::new` over a fresh byte
/// vector with colour type RGBA and depth 8, `write_header`, then
/// `write_image_data`; the writer's drop writes the trailing chunk. The
/// encoder multiplies the row length by the height without a check, so
/// `requires` gives it a buffer of exactly that size.
#[verifier::external_body]
fn png_encode_rgba8(width: u32, height: u32, data: &[u8]) -> (r: Result<Vec<u8>, EncodingError>)
    requires
        data@.len() == width as nat * height as nat * 4,
    ensures
        match r {
            Ok(v) => png_encoded(width, height, data@) == Some(v@),
            Err(_) => png_encoded(width, height, data@) is None,
        },
{
    let mut bytes = Vec::new();
    {
        let mut encoder = png::Encoder::new(&mut bytes, width, height);
        encoder.set_color(png::ColorType::Rgba);
        encoder.set_depth(png::BitDepth::Eight);
        let mut writer = encoder.write_header()?;
        writer.write_image_data(data)?;
    }
    Ok(bytes)
}

impl Image {
    /// Build an image from a decoded frame: expand its channels to RGBA8
    /// and check the size. Errors: a palette frame (`Indexed`), more pixel
    /// data than `width * height` or a buffer too large to address
    /// (`TooLarge`), and RGBA data of the wrong length (`SizeMismatch`).
    pub fn from_png_frame(width: u32, height: u32, color: ColorType, data: &[u8]) -> (r: Result<Image, ImageError>)
        ensures
            color == ColorType::Indexed ==> r is Err,
            (color != ColorType::Indexed && fits(data@, color, width as nat * height as nat)
                && (color != ColorType::Rgba ==> width as nat * height as nat * 4 <= usize::MAX)
                && expanded(data@, color, width as nat * height as nat).len() == width as nat * height as nat * 4)
                <==> r is Ok,
            r matches Ok(img) ==> img.wf() && img.w() == width && img.h() == height
                && img.bytes() == expanded(data@, color, width as nat * height as nat),
    {
        if let ColorType::Indexed = color {
            return Err(ImageError::Indexed);
        }
        proof {
            assert((width as int) * (height as int) <= u64::MAX) by (nonlinear_arith)
                requires
                    width <= u32::MAX,
                    height <= u32::MAX,
            ;
        }
        let count: u64 = (width as u64) * (height as u64);
        if let ColorType::Rgba = color {
        } else {
            if count > (usize::MAX / 4) as u64 {
                return Err(ImageError::TooLarge);
            }
            let per: usize = match color {
                ColorType::Grayscale => 1,
                ColorType::GrayscaleAlpha => 2,
                _ => 3,
            };
            if (data.len() / per) as u64 > count {
                return Err(ImageError::TooLarge);
            }
        }
        let rgba = match expand_to_rgba(data, color, width, height) {
            Ok(v) => v,
            Err(e) => {
                return Err(e);
            },
        };
        match Image::from_rgba8(width, height, rgba) {
            Some(img) => Ok(img),
            None => Err(ImageError::SizeMismatch),
        }
    }

    /// Decode PNG bytes into an 8-bit RGBA image.
    pub fn decode_png(bytes: &[u8]) -> (r: Result<Image, ImageError>)
        ensures
            png_decoded(bytes@) is None ==> r is Err,
            png_decoded(bytes@) matches Some((w, h, c, d)) ==> {
                &&& (r is Ok) == (c != ColorType::Indexed && fits(d, c, w as nat * h as nat)
                    && (c != ColorType::Rgba ==> w as nat * h as nat * 4 <= usize::MAX)
                    && expanded(d, c, w as nat * h as nat).len() == w as nat * h as nat * 4)
                &&& r matches Ok(img) ==> img.wf() && img.w() == w && img.h() == h
                    && img.bytes() == expanded(d, c, w as nat * h as nat)
            },
    {
        match png_decode_frame(bytes) {
            Ok((w, h, color, data)) => Image::from_png_frame(w, h, color, data.as_slice()),
            Err(Some(e)) => Err(ImageError::Decode(text_then("PNG decode error: ", &decoding_error_text(&e)))),
            Err(None) => Err(ImageError::TooLarge),
        }
    }

    /// Encode to PNG bytes (8-bit RGBA).
    pub fn encode_png(&self) -> (r: Result<Vec<u8>, ImageError>)
        requires
            self.wf(),
        ensures
            match r {
                Ok(v) => png_encoded(self.w() as u32, self.h() as u32, self.bytes()) == Some(v@),
                Err(_) => png_encoded(self.w() as u32, self.h() as u32, self.bytes()) is None,
            },
    {
        match png_encode_rgba8(self.width(), self.height(), self.as_bytes()) {
            Ok(v) => Ok(v),
            Err(e) => Err(ImageError::Encode(text_then("PNG encode error: ", &encoding_error_text(&e)))),
        }
    }
}

} // verus!
