//! Turning a wallpaper picture into the base64 data that the patch embeds.
//!
//! A GIF is embedded as it is (to keep its animation). Any other picture is
//! decoded, cut to the crop selection if there is one, scaled down so that no
//! side exceeds 2560 pixels, and encoded as JPEG at quality 82, or 70 when that
//! is still larger than 900 KiB. Decoding, scaling and encoding are done by the
//! `image` crate, base64 by the `base64` crate.
use vstd::prelude::*;
use crate::text::chars_of;

verus! {

#[verifier::external_type_specification]
#[verifier::external_body]
pub struct ExImageError(image::ImageError);

/// Longest side, in pixels, of an embedded picture.
pub const MAX_TEXTURE_SIDE: u32 = 2560;

/// Size above which a JPEG is encoded again at the lower quality.
pub const MAX_JPEG_BYTES: usize = 921600;

/// JPEG quality tried first.
pub const JPEG_QUALITY: u8 = 82;

/// JPEG quality used when the first encoding is too large.
pub const JPEG_QUALITY_SMALLER: u8 = 70;

/// Size above which an embedded GIF earns a warning (1.5 MiB).
pub const GIF_WARN_BYTES: usize = 1572864;

/// MIME type of an embedded GIF.
pub const MIME_GIF: &'static str = "image/gif";

/// MIME type of an embedded JPEG.
pub const MIME_JPEG: &'static str = "image/jpeg";

/// The base64 digit for a six-bit value (the standard alphabet of RFC 4648).
pub open spec fn b64_digit(v: int) -> char {
    if v < 26 {
        ('A' as int + v) as char
    } else if v < 52 {
        ('a' as int + v - 26) as char
    } else if v < 62 {
        ('0' as int + v - 52) as char
    } else if v == 62 {
        '+'
    } else {
        '/'
    }
}

/// The standard base64 encoding of `data` (RFC 4648, `=` padding): each group
/// of three bytes, read as 24 bits, becomes four digits of six bits; a last
/// group of one or two bytes is padded with zero bits and `=`.
pub open spec fn base64_standard(data: Seq<u8>) -> Seq<char>
    decreases data.len(),
{
    let b0 = if data.len() > 0 { data[0] as int } else { 0 };
    let b1 = if data.len() > 1 { data[1] as int } else { 0 };
    let b2 = if data.len() > 2 { data[2] as int } else { 0 };
    if data.len() == 0 {
        Seq::empty()
    } else if data.len() == 1 {
        seq![b64_digit(b0 / 4), b64_digit((b0 % 4) * 16), '=', '=']
    } else if data.len() == 2 {
        seq![b64_digit(b0 / 4), b64_digit((b0 % 4) * 16 + b1 / 16), b64_digit((b1 % 16) * 4), '=']
    } else {
        seq![
            b64_digit(b0 / 4),
            b64_digit((b0 % 4) * 16 + b1 / 16),
            b64_digit((b1 % 16) * 4 + b2 / 64),
            b64_digit(b2 % 64),
        ] + base64_standard(data.skip(3))
    }
}

/// The encoding has four digits for every started group of three bytes.
pub proof fn lemma_base64_len(data: Seq<u8>)
    ensures
        base64_standard(data).len() == base64_len(data.len() as int),
    decreases data.len(),
{
    if data.len() >= 3 {
        lemma_base64_len(data.skip(3));
    }
}

/// The length of the padded base64 encoding of `n` bytes.
pub open spec fn base64_len(n: int) -> int {
    4 * ((n + 2) / 3)
}

/// `base64::Engine::encode` with `general_purpose::STANDARD`. What is claimed:
/// the result is the standard padded base64 encoding of the input,
/// `base64_standard` (its length is what `encoded_len` computes; the call
/// panics only when that length overflows, which `requires` rules out).
#[verifier::external_body]
fn base64_encode(data: &[u8]) -> (r: String)
    requires
        base64_len(data@.len() as int) <= usize::MAX,
    ensures
        r@ == base64_standard(data@),
{
    base64::Engine::encode(&base64::engine::general_purpose::STANDARD, data)
}

/// A picture as 8-bit RGBA pixels, row after row, four bytes a pixel.
#[derive(Clone, Debug)]
pub struct Picture {
    pub width: u32,
    pub height: u32,
    pub rgba: Vec<u8>,
}

/// The pixel bytes fit the size: four bytes for each of `w`×`h` pixels.
pub open spec fn picture_ok(w: int, h: int, rgba: Seq<u8>) -> bool {
    rgba.len() == 4 * w * h
}

/// A picture, viewed as its size and pixel bytes.
pub open spec fn picture_view(p: Picture) -> (u32, u32, Seq<u8>) {
    (p.width, p.height, p.rgba@)
}

/// The picture that `image::load_from_memory` decodes from `data`, as RGBA
/// (`to_rgba8`); `None` when it cannot decode it. A function of the bytes.
pub uninterp spec fn decoded_rgba(data: Seq<u8>) -> Option<(u32, u32, Seq<u8>)>;

/// The pixels of a `w`×`h` RGBA picture scaled to `nw`×`nh` by
/// `image::imageops::resize` with the Lanczos filter.
pub uninterp spec fn lanczos_resized(w: u32, h: u32, rgba: Seq<u8>, nw: u32, nh: u32) -> Seq<u8>;

/// The JPEG that `image::codecs::jpeg::JpegEncoder` writes at `quality` for the
/// RGB pixels of a `w`×`h` RGBA picture; `None` when it fails.
pub uninterp spec fn jpeg_encoded(w: u32, h: u32, rgba: Seq<u8>, quality: u8) -> Option<Seq<u8>>;

/// `image::load_from_memory`, the picture taken as RGBA (`to_rgba8`, as raw
/// bytes). What is claimed: it succeeds exactly when `decoded_rgba` is some
/// picture, and then gives that picture, whose bytes fit its size.
#[verifier::external_body]
fn decode_rgba(data: &[u8]) -> (r: Result<Picture, image::ImageError>)
    ensures
        r is Ok <==> decoded_rgba(data@) is Some,
        r matches Ok(p) ==> decoded_rgba(data@) == Some(picture_view(p)) && picture_ok(
            p.width as int,
            p.height as int,
            p.rgba@,
        ),
{
    match image::load_from_memory(data) {
        Ok(img) => {
            let b = img.to_rgba8();
            Ok(Picture { width: b.width(), height: b.height(), rgba: b.into_raw() })
        },
        Err(e) => Err(e),
    }
}

/// Where `image::imageops::crop_imm` cuts a `w`×`h` picture for the rectangle
/// `c` = `(x, y, width, height)`: the corner moved inside the picture, the size
/// cut down to what is left of it.
pub open spec fn crop_box(w: u32, h: u32, c: (u32, u32, u32, u32)) -> (u32, u32, u32, u32) {
    let x: u32 = if c.0 <= w { c.0 } else { w };
    let y: u32 = if c.1 <= h { c.1 } else { h };
    let cw: u32 = if c.2 <= w - x { c.2 } else { (w - x) as u32 };
    let ch: u32 = if c.3 <= h - y { c.3 } else { (h - y) as u32 };
    (x, y, cw, ch)
}

/// The pixels of the `cw`×`ch` rectangle at `(x, y)` of a picture `w` pixels wide.
pub open spec fn cropped_rgba(w: int, rgba: Seq<u8>, x: int, y: int, cw: int, ch: int) -> Seq<u8> {
    Seq::new(
        (4 * cw * ch) as nat,
        |k: int| rgba[4 * ((y + (k / 4) / cw) * w + x + (k / 4) % cw) + k % 4],
    )
}

/// `image::imageops::crop_imm` followed by `to_image`. What is claimed: the
/// rectangle is clamped as `crop_box` says and the result holds its pixels.
#[verifier::external_body]
fn crop_rgba(p: &Picture, x: u32, y: u32, w: u32, h: u32) -> (r: Picture)
    requires
        picture_ok(p.width as int, p.height as int, p.rgba@),
    ensures
        r.width == crop_box(p.width, p.height, (x, y, w, h)).2,
        r.height == crop_box(p.width, p.height, (x, y, w, h)).3,
        r.rgba@ == cropped_rgba(
            p.width as int,
            p.rgba@,
            crop_box(p.width, p.height, (x, y, w, h)).0 as int,
            crop_box(p.width, p.height, (x, y, w, h)).1 as int,
            crop_box(p.width, p.height, (x, y, w, h)).2 as int,
            crop_box(p.width, p.height, (x, y, w, h)).3 as int,
        ),
{
    let buf = image::RgbaImage::from_raw(p.width, p.height, p.rgba.clone()).unwrap();
    let c = image::imageops::crop_imm(&buf, x, y, w, h).to_image();
    Picture { width: c.width(), height: c.height(), rgba: c.into_raw() }
}

/// `image::imageops::resize` with the Lanczos filter. What is claimed: the
/// result has the size asked for, and its pixels are `lanczos_resized`.
#[verifier::external_body]
fn resize_rgba(p: &Picture, nw: u32, nh: u32) -> (r: Picture)
    requires
        picture_ok(p.width as int, p.height as int, p.rgba@),
        4 * nw * nh <= isize::MAX,
    ensures
        r.width == nw,
        r.height == nh,
        r.rgba@ == lanczos_resized(p.width, p.height, p.rgba@, nw, nh),
        picture_ok(nw as int, nh as int, r.rgba@),
{
    let buf = image::RgbaImage::from_raw(p.width, p.height, p.rgba.clone()).unwrap();
    let r = image::imageops::resize(&buf, nw, nh, image::imageops::FilterType::Lanczos3);
    Picture { width: nw, height: nh, rgba: r.into_raw() }
}

/// `image::codecs::jpeg::JpegEncoder` at `quality` on the picture's RGB pixels
/// (`into_rgb8`). What is claimed: it succeeds exactly when `jpeg_encoded` is
/// some bytes, and then gives them (a `Vec`, so at most `isize::MAX` bytes).
#[verifier::external_body]
fn encode_jpeg(p: &Picture, quality: u8) -> (r: Result<Vec<u8>, image::ImageError>)
    requires
        picture_ok(p.width as int, p.height as int, p.rgba@),
    ensures
        r is Ok <==> jpeg_encoded(p.width, p.height, p.rgba@, quality) is Some,
        r matches Ok(v) ==> jpeg_encoded(p.width, p.height, p.rgba@, quality) == Some(v@) && v@.len()
            <= isize::MAX,
{
    let buf = image::RgbaImage::from_raw(p.width, p.height, p.rgba.clone()).unwrap();
    let rgb = image::DynamicImage::ImageRgba8(buf).into_rgb8();
    let mut out: Vec<u8> = Vec::new();
    let enc = image::codecs::jpeg::JpegEncoder::new_with_quality(&mut out, quality);
    image::ImageEncoder::write_image(enc, rgb.as_raw(), rgb.width(), rgb.height(), image::ExtendedColorType::Rgb8)?;
    Ok(out)
}

/// Whether embedded bytes are large enough to warn about: a GIF above
/// [`GIF_WARN_BYTES`], a JPEG still above [`MAX_JPEG_BYTES`].
pub fn embed_too_large(gif: bool, comp_len: usize) -> (r: bool)
    ensures
        r == if gif {
            comp_len > GIF_WARN_BYTES
        } else {
            comp_len > MAX_JPEG_BYTES
        },
{
    if gif {
        comp_len > GIF_WARN_BYTES
    } else {
        comp_len > MAX_JPEG_BYTES
    }
}

/// The size a `w`×`h` picture is scaled to so that its longer side is
/// `max_side`, keeping its proportions (rounded down, at least one pixel);
/// `None` when neither side exceeds `max_side`.
pub open spec fn scaled_size_spec(w: int, h: int, max_side: int) -> Option<(int, int)> {
    if w <= max_side && h <= max_side {
        None
    } else if w >= h {
        Some((max_side, if h * max_side / w >= 1 { h * max_side / w } else { 1 }))
    } else {
        Some((if w * max_side / h >= 1 { w * max_side / h } else { 1 }, max_side))
    }
}

/// The size to scale a `w`×`h` picture to (see [`scaled_size_spec`]) so that
/// no side exceeds [`MAX_TEXTURE_SIDE`]; the result is at least one pixel each
/// way.
pub fn scaled_size(w: u32, h: u32) -> (r: Option<(u32, u32)>)
    ensures
        match r {
            Some((a, b)) => scaled_size_spec(w as int, h as int, MAX_TEXTURE_SIDE as int) == Some(
                (a as int, b as int),
            ) && 1 <= a <= MAX_TEXTURE_SIDE && 1 <= b <= MAX_TEXTURE_SIDE,
            None => scaled_size_spec(w as int, h as int, MAX_TEXTURE_SIDE as int) is None,
        },
{
    let m: u32 = MAX_TEXTURE_SIDE;
    if w <= m && h <= m {
        return None;
    }
    if w >= h {
        assert(h as int * m as int <= w as int * m as int) by (nonlinear_arith)
            requires
                h <= w,
        ;
        assert(w as int * m as int <= 0xffff_ffff * 2560) by (nonlinear_arith)
            requires
                w <= 0xffff_ffff,
                m == 2560,
        ;
        let s: u64 = (h as u64 * m as u64) / w as u64;
        assert(s <= m) by (nonlinear_arith)
            requires
                s == (h as int * m as int) / w as int,
                h as int * m as int <= w as int * m as int,
                w > 0,
        ;
        let b: u32 = if s >= 1 {
            s as u32
        } else {
            1
        };
        Some((m, b))
    } else {
        assert(w as int * m as int <= h as int * m as int) by (nonlinear_arith)
            requires
                w < h,
        ;
        assert(h as int * m as int <= 0xffff_ffff * 2560) by (nonlinear_arith)
            requires
                h <= 0xffff_ffff,
                m == 2560,
        ;
        let s: u64 = (w as u64 * m as u64) / h as u64;
        assert(s <= m) by (nonlinear_arith)
            requires
                s == (w as int * m as int) / h as int,
                w as int * m as int <= h as int * m as int,
                h > 0,
        ;
        let a: u32 = if s >= 1 {
            s as u32
        } else {
            1
        };
        Some((a, m))
    }
}

/// The file extension `gif`, in any case.
pub open spec fn is_gif_ext_spec(ext: Seq<char>) -> bool {
    &&& ext.len() == 3
    &&& (ext[0] == 'g' || ext[0] == 'G')
    &&& (ext[1] == 'i' || ext[1] == 'I')
    &&& (ext[2] == 'f' || ext[2] == 'F')
}

/// Whether a file extension is `gif`, ignoring ASCII case.
pub fn is_gif_extension(ext: Option<&str>) -> (r: bool)
    ensures
        r == (ext matches Some(e) && is_gif_ext_spec(e@)),
{
    match ext {
        Some(e) => {
            let c = chars_of(e);
            c.len() == 3 && (c[0] == 'g' || c[0] == 'G') && (c[1] == 'i' || c[1] == 'I') && (c[2]
                == 'f' || c[2] == 'F')
        },
        None => false,
    }
}

/// A picture ready to embed.
#[derive(Clone, Debug, PartialEq, Eq)]
pub struct ProcessedImage {
    /// The embedded bytes in base64.
    pub b64: String,
    /// Size of the picture file.
    pub orig_len: usize,
    /// Size of the embedded bytes.
    pub comp_len: usize,
    /// The size in pixels of the part cut out, when the picture was cut.
    pub cropped: Option<(u32, u32)>,
    /// `image/gif` or `image/jpeg`.
    pub mime: &'static str,
}

/// Why a picture could not be made ready.
#[derive(Debug)]
pub enum ImageFailure {
    /// The `image` crate could not decode the file.
    Decode(image::ImageError),
    /// The `image` crate could not encode the JPEG.
    Encode(image::ImageError),
}

/// The picture to encode: cut to `crop` when given (clamped as `crop_box`
/// says), then scaled down when a side exceeds [`MAX_TEXTURE_SIDE`].
pub open spec fn shaped(pic: (u32, u32, Seq<u8>), crop: Option<(u32, u32, u32, u32)>) -> (u32, u32, Seq<u8>) {
    let (w, h, px) = pic;
    let (w1, h1, p1): (u32, u32, Seq<u8>) = match crop {
        None => (w, h, px),
        Some(c) => {
            let (x, y, cw, ch) = crop_box(w, h, c);
            (cw, ch, cropped_rgba(w as int, px, x as int, y as int, cw as int, ch as int))
        },
    };
    match scaled_size_spec(w1 as int, h1 as int, MAX_TEXTURE_SIDE as int) {
        Some((nw, nh)) => (nw as u32, nh as u32, lanczos_resized(w1, h1, p1, nw as u32, nh as u32)),
        None => (w1, h1, p1),
    }
}

/// The JPEG to embed for a picture: quality 82, or 70 when that is larger
/// than [`MAX_JPEG_BYTES`]; `None` when encoding fails.
pub open spec fn chosen_jpeg(pic: (u32, u32, Seq<u8>)) -> Option<Seq<u8>> {
    match jpeg_encoded(pic.0, pic.1, pic.2, JPEG_QUALITY) {
        None => None,
        Some(j) => if j.len() > MAX_JPEG_BYTES {
            jpeg_encoded(pic.0, pic.1, pic.2, JPEG_QUALITY_SMALLER)
        } else {
            Some(j)
        },
    }
}

/// The size of the part cut out by `crop`, if any.
pub open spec fn crop_size(w: u32, h: u32, crop: Option<(u32, u32, u32, u32)>) -> Option<(u32, u32)> {
    match crop {
        Some(c) => Some((crop_box(w, h, c).2, crop_box(w, h, c).3)),
        None => None,
    }
}

/// What making a decoded picture ready gives: `Ok` exactly when the JPEG
/// encodes, with its base64 text and length.
pub open spec fn jpeg_result_spec(
    r: Result<ProcessedImage, ImageFailure>,
    pic: (u32, u32, Seq<u8>),
    orig_len: usize,
    crop: Option<(u32, u32, u32, u32)>,
) -> bool {
    let j = chosen_jpeg(shaped(pic, crop));
    &&& (r is Ok <==> j is Some)
    &&& (r matches Err(e) ==> e is Encode)
    &&& (r matches Ok(p) ==> {
        &&& p.b64@ == base64_standard(j->0)
        &&& p.comp_len == j->0.len()
        &&& p.orig_len == orig_len
        &&& p.cropped == crop_size(pic.0, pic.1, crop)
        &&& p.mime@ == MIME_JPEG@
    })
}

/// Decodes a picture file (any format the `image` crate recognises) into RGBA
/// pixels; `Decode` exactly when it cannot.
pub fn decode_picture(data: &[u8]) -> (r: Result<Picture, ImageFailure>)
    ensures
        match decoded_rgba(data@) {
            None => (r matches Err(e) && e is Decode),
            Some(t) => (r matches Ok(p) && picture_view(p) == t && picture_ok(
                p.width as int,
                p.height as int,
                p.rgba@,
            )),
        },
{
    match decode_rgba(data) {
        Ok(p) => Ok(p),
        Err(e) => Err(ImageFailure::Decode(e)),
    }
}

/// Makes a decoded picture ready to embed as JPEG: cut to `crop` (a pixel
/// rectangle, clamped to the picture) when given, scaled down so that no side
/// exceeds [`MAX_TEXTURE_SIDE`], encoded at quality 82, or 70 when that gives
/// more than [`MAX_JPEG_BYTES`], and written in base64.
pub fn jpeg_of_picture(pic: &Picture, orig_len: usize, crop: Option<(u32, u32, u32, u32)>) -> (r: Result<
    ProcessedImage,
    ImageFailure,
>)
    requires
        picture_ok(pic.width as int, pic.height as int, pic.rgba@),
    ensures
        jpeg_result_spec(r, picture_view(*pic), orig_len, crop),
{
    let (jpeg, cropped) = match crop {
        Some((x, y, w, h)) => {
            let c = crop_rgba(pic, x, y, w, h);
            assert(picture_ok(c.width as int, c.height as int, c.rgba@));
            assert(shaped(picture_view(*pic), crop) == shaped(picture_view(c), None));
            let size = (c.width, c.height);
            (scaled_jpeg(&c), Some(size))
        },
        None => (scaled_jpeg(pic), None),
    };
    let buf = match jpeg {
        Ok(b) => b,
        Err(e) => {
            return Err(ImageFailure::Encode(e));
        },
    };
    let comp_len = buf.len();
    let b64 = base64_encode(buf.as_slice());
    Ok(ProcessedImage { b64, orig_len, comp_len, cropped, mime: MIME_JPEG })
}

/// The chosen JPEG of a picture scaled down when a side exceeds
/// [`MAX_TEXTURE_SIDE`].
fn scaled_jpeg(p: &Picture) -> (r: Result<Vec<u8>, image::ImageError>)
    requires
        picture_ok(p.width as int, p.height as int, p.rgba@),
    ensures
        r is Ok <==> chosen_jpeg(shaped(picture_view(*p), None)) is Some,
        r matches Ok(v) ==> chosen_jpeg(shaped(picture_view(*p), None)) == Some(v@) && v@.len()
            <= isize::MAX,
{
    match scaled_size(p.width, p.height) {
        Some((nw, nh)) => {
            assert(4 * nw * nh <= 4 * 2560 * 2560) by (nonlinear_arith)
                requires
                    nw <= 2560,
                    nh <= 2560,
            ;
            let r = resize_rgba(p, nw, nh);
            chosen_jpeg_of(&r)
        },
        None => chosen_jpeg_of(p),
    }
}

/// The JPEG at quality 82, or at 70 when that is larger than [`MAX_JPEG_BYTES`].
fn chosen_jpeg_of(p: &Picture) -> (r: Result<Vec<u8>, image::ImageError>)
    requires
        picture_ok(p.width as int, p.height as int, p.rgba@),
    ensures
        r is Ok <==> chosen_jpeg(picture_view(*p)) is Some,
        r matches Ok(v) ==> chosen_jpeg(picture_view(*p)) == Some(v@) && v@.len() <= isize::MAX,
{
    let first = encode_jpeg(p, JPEG_QUALITY)?;
    if first.len() > MAX_JPEG_BYTES {
        encode_jpeg(p, JPEG_QUALITY_SMALLER)
    } else {
        Ok(first)
    }
}

/// Makes a picture ready to embed, from the file's bytes. A GIF (`gif` says
/// whether the file is one) is embedded as it is, whatever the crop, and always
/// succeeds. Any other picture is decoded ([`decode_picture`]) and made ready as
/// JPEG ([`jpeg_of_picture`]): `Decode` exactly when the bytes do not decode.
pub fn process_image_data(data: &[u8], gif: bool, crop: Option<(u32, u32, u32, u32)>) -> (r: Result<
    ProcessedImage,
    ImageFailure,
>)
    requires
        data@.len() <= isize::MAX,
    ensures
        gif ==> (r matches Ok(p) && p.orig_len == data@.len() && p.b64@ == base64_standard(data@)
            && p.comp_len == data@.len() && p.cropped is None && p.mime@ == MIME_GIF@),
        !gif ==> match decoded_rgba(data@) {
            None => (r matches Err(e) && e is Decode),
            Some(pic) => jpeg_result_spec(r, pic, data@.len() as usize, crop),
        },
{
    let orig_len = data.len();
    if gif {
        let b64 = base64_encode(data);
        return Ok(ProcessedImage { b64, orig_len, comp_len: orig_len, cropped: None, mime: MIME_GIF });
    }
    let pic = decode_picture(data)?;
    jpeg_of_picture(&pic, orig_len, crop)
}

/// The size of the picture before scaling: the whole picture, or the part
/// that `crop` cuts out (clamped as `crop_box` says).
pub open spec fn cut_size(w: u32, h: u32, crop: Option<(u32, u32, u32, u32)>) -> (u32, u32) {
    match crop {
        None => (w, h),
        Some(c) => (crop_box(w, h, c).2, crop_box(w, h, c).3),
    }
}

/// Whatever the picture and the crop, the picture that is encoded has no side
/// longer than 2560 pixels. A cut-out part (or the whole picture) that already
/// fits keeps its size; one that does not is scaled so that its longer side is
/// exactly 2560 pixels and its shorter side shrinks in proportion (rounded
/// down, at least one pixel).
pub proof fn law_shaped_fits(pic: (u32, u32, Seq<u8>), crop: Option<(u32, u32, u32, u32)>)
    ensures
        ({
            let s = shaped(pic, crop);
            let (cw, ch) = cut_size(pic.0, pic.1, crop);
            &&& s.0 <= 2560
            &&& s.1 <= 2560
            &&& (cw <= 2560 && ch <= 2560 ==> s.0 == cw && s.1 == ch)
            &&& (!(cw <= 2560 && ch <= 2560) && cw >= ch ==> s.0 == 2560 && 1 <= s.1 && (s.1 - 1) * cw
                <= ch * 2560 < (s.1 + 1) * cw)
            &&& (!(cw <= 2560 && ch <= 2560) && cw < ch ==> s.1 == 2560 && 1 <= s.0 && (s.0 - 1) * ch
                <= cw * 2560 < (s.0 + 1) * ch)
        }),
{
    let (cw, ch) = cut_size(pic.0, pic.1, crop);
    let w = cw as int;
    let h = ch as int;
    if !(cw <= 2560 && ch <= 2560) {
        if cw >= ch {
            let q = h * 2560 / w;
            assert(0 <= q <= 2560 && q * w <= h * 2560 < (q + 1) * w) by (nonlinear_arith)
                requires
                    q == h * 2560 / w,
                    0 <= h <= w,
                    w > 0,
            ;
            let n = if q >= 1 { q } else { 1 };
            assert((n - 1) * w <= h * 2560 < (n + 1) * w) by (nonlinear_arith)
                requires
                    q * w <= h * 2560 < (q + 1) * w,
                    n == if q >= 1 { q } else { 1 },
                    q >= 0,
                    w > 0,
                    h >= 0,
            ;
        } else {
            let q = w * 2560 / h;
            assert(0 <= q <= 2560 && q * h <= w * 2560 < (q + 1) * h) by (nonlinear_arith)
                requires
                    q == w * 2560 / h,
                    0 <= w < h,
                    h > 0,
            ;
            let n = if q >= 1 { q } else { 1 };
            assert((n - 1) * h <= w * 2560 < (n + 1) * h) by (nonlinear_arith)
                requires
                    q * h <= w * 2560 < (q + 1) * h,
                    n == if q >= 1 { q } else { 1 },
                    q >= 0,
                    h > 0,
                    w >= 0,
            ;
        }
    }
}

} // verus!
