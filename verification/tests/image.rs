use toolkit::codec::{expand_to_rgba, ColorType, ImageError};
use toolkit::image::Image;
use toolkit::vertex::VertexLayout;

#[test]
fn vertex_stride_matches_size() {
    assert_eq!(VertexLayout::stride(), 48);
}

#[test]
fn vertex_attributes_offsets_are_correct() {
    let attrs = VertexLayout::attributes();
    assert_eq!(attrs.len(), 4);
    assert_eq!(attrs[0].offset, 0);
    assert_eq!(attrs[1].offset, 12);
    assert_eq!(attrs[2].offset, 24);
    assert_eq!(attrs[3].offset, 32);
}

#[test]
fn new_is_zeroed() {
    let img = Image::new(4, 3);
    assert_eq!(img.width(), 4);
    assert_eq!(img.height(), 3);
    assert_eq!(img.pixel(0, 0), Some([0, 0, 0, 0]));
}

#[test]
fn set_and_get_pixel() {
    let mut img = Image::new(2, 2);
    img.set_pixel(1, 1, [10, 20, 30, 40]);
    assert_eq!(img.pixel(1, 1), Some([10, 20, 30, 40]));
    assert_eq!(img.pixel(5, 5), None);
}

#[test]
fn from_rgba8_validates_length() {
    assert!(Image::from_rgba8(2, 2, vec![0; 16]).is_some());
    assert!(Image::from_rgba8(2, 2, vec![0; 10]).is_none());
}

#[test]
fn blit_clips_to_bounds() {
    let mut dst = Image::new(4, 4);
    let mut src = Image::new(2, 2);
    src.fill_rgba8([255, 255, 255, 255]);
    dst.blit(&src, 3, 3);
    assert_eq!(dst.pixel(3, 3), Some([255, 255, 255, 255]));
    assert_eq!(dst.pixel(0, 0), Some([0, 0, 0, 0]));
}

#[test]
fn rgba_roundtrips_through_png() {
    let mut img = Image::new(3, 2);
    img.set_pixel(0, 0, [10, 20, 30, 255]);
    img.set_pixel(2, 1, [200, 100, 50, 128]);
    let bytes = img.encode_png().unwrap();
    let back = Image::decode_png(&bytes).unwrap();
    assert_eq!(back.width(), 3);
    assert_eq!(back.height(), 2);
    assert_eq!(back.as_bytes(), img.as_bytes());
}

#[test]
fn garbage_bytes_error() {
    assert!(Image::decode_png(b"not a png").is_err());
}

#[test]
fn expand_rgb_adds_opaque_alpha() {
    let out = expand_to_rgba(&[1, 2, 3, 4, 5, 6], ColorType::Rgb, 2, 1).unwrap();
    assert_eq!(out, vec![1, 2, 3, 255, 4, 5, 6, 255]);
}

#[test]
fn expand_indexed_is_refused() {
    assert!(matches!(expand_to_rgba(&[0, 1], ColorType::Indexed, 2, 1), Err(ImageError::Indexed)));
}

#[test]
fn decode_reports_dimensions() {
    // A white 5x4 image: every pixel sRGB (255, 255, 255, 255).
    let mut img = Image::new(5, 4);
    img.fill_rgba8([255, 255, 255, 255]);
    let bytes = img.encode_png().unwrap();
    let back = Image::decode_png(&bytes).unwrap();
    assert_eq!(back.width(), 5);
    assert_eq!(back.height(), 4);
}

#[test]
fn fill_sets_every_pixel() {
    // White in linear space is 255 in every channel.
    let mut img = Image::new(3, 3);
    img.fill_rgba8([255, 255, 255, 255]);
    assert_eq!(img.pixel(0, 0), Some([255, 255, 255, 255]));
    assert_eq!(img.pixel(2, 2), Some([255, 255, 255, 255]));
}

#[test]
fn image_errors_report_the_toolkit_messages() {
    assert_eq!(ImageError::TooLarge.message(), "PNG too large to decode");
    assert_eq!(ImageError::SizeMismatch.message(), "decoded PNG size mismatch");
    assert_eq!(
        ImageError::Indexed.message(),
        "indexed PNG not expanded; expected EXPAND transform"
    );
    let e = Image::decode_png(&[1, 2, 3, 4]).unwrap_err();
    assert!(e.message().starts_with("PNG decode error: "));
}
