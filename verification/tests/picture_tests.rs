use base64::Engine as _;
use kimi_bg_tool::picture::{
    decode_picture, embed_too_large, is_gif_extension, jpeg_of_picture, process_image_data, scaled_size,
    ImageFailure, MAX_JPEG_BYTES, MAX_TEXTURE_SIDE,
};

/// A 32×32 PNG with a gradient.
fn test_png(w: u32, h: u32) -> Vec<u8> {
    let mut img = image::RgbImage::new(w, h);
    for (x, y, p) in img.enumerate_pixels_mut() {
        *p = image::Rgb([(x * 8) as u8, (y * 8) as u8, 128]);
    }
    let mut out = std::io::Cursor::new(Vec::new());
    image::DynamicImage::ImageRgb8(img).write_to(&mut out, image::ImageFormat::Png).unwrap();
    out.into_inner()
}

fn decoded_size(b64: &str) -> (u32, u32) {
    let bytes = base64::engine::general_purpose::STANDARD.decode(b64).unwrap();
    let img = image::load_from_memory(&bytes).unwrap();
    (img.width(), img.height())
}

#[test]
fn test_process_image_with_crop() {
    let png = test_png(32, 32);

    let p = process_image_data(&png, false, Some((8, 8, 16, 16))).unwrap();
    assert_eq!(p.cropped, Some((16, 16)), "cut to the central 16x16");
    assert_eq!(p.mime, "image/jpeg");
    assert_eq!(decoded_size(&p.b64), (16, 16));

    let p_full = process_image_data(&png, false, Some((0, 0, 32, 32))).unwrap();
    assert_eq!(p_full.cropped, Some((32, 32)));
    assert!(!p_full.b64.is_empty());

    let p_none = process_image_data(&png, false, None).unwrap();
    assert!(p_none.cropped.is_none());
    assert_eq!(p_none.orig_len, png.len());
    assert_eq!(decoded_size(&p_none.b64), (32, 32));

    // A rectangle past the border is clamped by the crop, without panicking.
    let p_clamped = process_image_data(&png, false, Some((29, 29, 16, 16))).unwrap();
    assert_eq!(p_clamped.cropped, Some((3, 3)), "the size actually cut");
    assert_eq!(decoded_size(&p_clamped.b64), (3, 3));
}

#[test]
fn test_gif_passthrough() {
    let bytes = b"GIF89a\x10\x00\x10\x00\x91\x00\x00";
    let p = process_image_data(bytes, true, None).unwrap();
    assert_eq!(p.mime, "image/gif");
    assert_eq!(p.orig_len, bytes.len());
    assert_eq!(p.comp_len, bytes.len(), "a GIF is not recompressed");
    assert!(p.cropped.is_none());
    let expect = base64::engine::general_purpose::STANDARD.encode(bytes);
    assert_eq!(p.b64, expect, "a GIF is embedded as it is");

    let p2 = process_image_data(bytes, true, Some((0, 0, 8, 8))).unwrap();
    assert_eq!(p2.mime, "image/gif");
    assert!(p2.cropped.is_none(), "a GIF ignores the crop");
    assert_eq!(p2.b64, expect);
}

#[test]
fn process_image_jpeg_length_matches_base64() {
    let png = test_png(20, 10);
    let p = process_image_data(&png, false, None).unwrap();
    assert_eq!(p.b64.len(), 4 * ((p.comp_len + 2) / 3));
    assert_eq!(base64::engine::general_purpose::STANDARD.decode(&p.b64).unwrap().len(), p.comp_len);
}

#[test]
fn process_image_decode_error() {
    let r = process_image_data(b"not a picture", false, None);
    assert!(matches!(r, Err(ImageFailure::Decode(_))));
}

#[test]
fn process_image_large_is_scaled() {
    let png = test_png(3000, 10);
    let p = process_image_data(&png, false, None).unwrap();
    assert_eq!(decoded_size(&p.b64), (2560, 8));
}

#[test]
fn scaled_size_cases() {
    assert_eq!(scaled_size(100, 50), None);
    assert_eq!(scaled_size(2560, 2560), None);
    assert_eq!(scaled_size(5120, 2560), Some((2560, 1280)));
    assert_eq!(scaled_size(2560, 5120), Some((1280, 2560)));
    assert_eq!(scaled_size(3000, 10), Some((2560, 8)));
    assert_eq!(scaled_size(100000, 1), Some((2560, 1)), "at least one pixel");
    assert_eq!(scaled_size(4000, 4000), Some((MAX_TEXTURE_SIDE, MAX_TEXTURE_SIDE)));
}

#[test]
fn gif_extension() {
    assert!(is_gif_extension(Some("gif")));
    assert!(is_gif_extension(Some("GiF")));
    assert!(!is_gif_extension(Some("gifs")));
    assert!(!is_gif_extension(Some("png")));
    assert!(!is_gif_extension(None));
}

#[test]
fn decode_then_encode_in_two_steps() {
    let png = test_png(40, 20);
    let pic = decode_picture(&png).unwrap();
    assert_eq!((pic.width, pic.height), (40, 20));
    assert_eq!(pic.rgba.len(), 4 * 40 * 20);
    // Pixel (3, 2) of the gradient.
    let k = 4 * (2 * 40 + 3);
    assert_eq!(&pic.rgba[k..k + 4], &[24, 16, 128, 255]);
    let p = jpeg_of_picture(&pic, png.len(), Some((10, 5, 100, 100))).unwrap();
    assert_eq!(p.cropped, Some((30, 15)));
    assert_eq!(decoded_size(&p.b64), (30, 15));
    assert_eq!(p.orig_len, png.len());
    assert_eq!(p, process_image_data(&png, false, Some((10, 5, 100, 100))).unwrap());
    assert!(matches!(decode_picture(b"nope"), Err(ImageFailure::Decode(_))));
}

#[test]
fn embed_size_warnings() {
    assert!(!embed_too_large(false, MAX_JPEG_BYTES));
    assert!(embed_too_large(false, MAX_JPEG_BYTES + 1));
    assert!(!embed_too_large(true, 3 * 512 * 1024));
    assert!(embed_too_large(true, 3 * 512 * 1024 + 1));
}
