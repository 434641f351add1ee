//! Writing a copy in the format its file name asks for, and the thumbnail
//! cache's JPEG files: the format follows the extension (JPEG when it names
//! none), JPEG is written without alpha at the given quality, and the
//! encoders themselves are the image crate's.
use vstd::prelude::*;
use image::codecs::jpeg::JpegEncoder;
use image::{DynamicImage, ExtendedColorType, ImageFormat, RgbaImage};
use std::io::Cursor;
use crate::pathname::{extension, extension_of};
use crate::raster::RgbaBuffer;
use crate::text::chars_of;

verus! {

/// The formats a copy can be asked for by its extension; `Other` is one
/// the image crate knows but this program is not built to write.
#[derive(Clone, Copy, Debug, PartialEq, Eq, Structural)]
pub enum ImageKind {
    Jpeg,
    Png,
    Bmp,
    Gif,
    Tiff,
    WebP,
    Other,
}

/// The format the image crate names for extension `ext`, if any.
pub uninterp spec fn image_kind_of(ext: Seq<char>) -> Option<ImageKind>;

/// `ImageFormat::from_extension`, told apart by variant. Claims that the
/// result is `image_kind_of` the extension, and no more.
#[verifier::external_body]
fn kind_of_extension(ext: &str) -> (r: Option<ImageKind>)
    ensures
        r == image_kind_of(ext@),
{
    match ImageFormat::from_extension(ext) {
        Some(ImageFormat::Jpeg) => Some(ImageKind::Jpeg),
        Some(ImageFormat::Png) => Some(ImageKind::Png),
        Some(ImageFormat::Bmp) => Some(ImageKind::Bmp),
        Some(ImageFormat::Gif) => Some(ImageKind::Gif),
        Some(ImageFormat::Tiff) => Some(ImageKind::Tiff),
        Some(ImageFormat::WebP) => Some(ImageKind::WebP),
        Some(_) => Some(ImageKind::Other),
        None => None,
    }
}

/// The bytes the image crate's JPEG encoder writes for a `w` by `h` RGB
/// raster at `quality`, or its error message.
pub uninterp spec fn jpeg_encoded(w: u32, h: u32, rgb: Seq<u8>, quality: u8) -> Result<Seq<u8>, Seq<char>>;

/// The bytes the image crate writes for a `w` by `h` RGBA raster in format
/// `kind`, or its error message.
pub uninterp spec fn rgba_encoded(w: u32, h: u32, rgba: Seq<u8>, kind: ImageKind) -> Result<Seq<u8>, Seq<char>>;

/// `JpegEncoder::new_with_quality(..).encode(.., Rgb8)`, which panics unless
/// the raster holds three bytes per pixel. Claims that the outcome is
/// `jpeg_encoded` of its arguments, and no more.
#[verifier::external_body]
fn write_jpeg(w: u32, h: u32, rgb: &[u8], quality: u8) -> (r: Result<Vec<u8>, String>)
    requires
        rgb@.len() == w as int * h as int * 3,
    ensures
        match r {
            Ok(b) => jpeg_encoded(w, h, rgb@, quality) == Ok::<Seq<u8>, Seq<char>>(b@),
            Err(e) => jpeg_encoded(w, h, rgb@, quality) == Err::<Seq<u8>, Seq<char>>(e@),
        },
{
    let mut out: Vec<u8> = Vec::new();
    match JpegEncoder::new_with_quality(&mut out, quality).encode(rgb, w, h, ExtendedColorType::Rgb8) {
        Ok(()) => Ok(out),
        Err(e) => Err(e.to_string()),
    }
}

/// `DynamicImage::ImageRgba8(..).write_to(.., format)` for a raster of four
/// bytes per pixel. Claims that the outcome is `rgba_encoded` of its
/// arguments, and no more.
#[verifier::external_body]
fn write_rgba(w: u32, h: u32, rgba: &Vec<u8>, kind: ImageKind) -> (r: Result<Vec<u8>, String>)
    requires
        rgba@.len() == w as int * h as int * 4,
        kind != ImageKind::Other,
    ensures
        match r {
            Ok(b) => rgba_encoded(w, h, rgba@, kind) == Ok::<Seq<u8>, Seq<char>>(b@),
            Err(e) => rgba_encoded(w, h, rgba@, kind) == Err::<Seq<u8>, Seq<char>>(e@),
        },
{
    let format = match kind {
        ImageKind::Jpeg => ImageFormat::Jpeg, ImageKind::Png => ImageFormat::Png,
        ImageKind::Bmp => ImageFormat::Bmp, ImageKind::Gif => ImageFormat::Gif,
        ImageKind::Tiff => ImageFormat::Tiff, ImageKind::WebP | ImageKind::Other => ImageFormat::WebP,
    };
    let Some(img) = RgbaImage::from_raw(w, h, rgba.clone()) else { return Err(String::new()) };
    let mut out = Cursor::new(Vec::new());
    match DynamicImage::ImageRgba8(img).write_to(&mut out, format) {
        Ok(()) => Ok(out.into_inner()),
        Err(e) => Err(e.to_string()),
    }
}

/// The RGB bytes of RGBA pixels: the alpha byte of each dropped.
pub open spec fn rgb_of(rgba: Seq<u8>) -> Seq<u8> {
    Seq::new(((rgba.len() / 4) * 3) as nat, |i: int| rgba[4 * (i / 3) + i % 3])
}

/// Drop the alpha channel: JPEG has none.
pub fn rgb_bytes(rgba: &Vec<u8>) -> (r: Vec<u8>)
    ensures
        r@ == rgb_of(rgba@),
{
    let len = rgba.len();
    let n = len / 4;
    let mut out: Vec<u8> = Vec::new();
    let mut p: usize = 0;
    while p < n
        invariant
            0 <= p <= n,
            n == rgba@.len() / 4,
            len == rgba@.len(),
            n == len / 4,
            out@.len() == 3 * p,
            forall|i: int| 0 <= i < out@.len() ==> #[trigger] out@[i] == rgba@[4 * (i / 3) + i % 3],
        decreases n - p,
    {
        out.push(rgba[4 * p]);
        out.push(rgba[4 * p + 1]);
        out.push(rgba[4 * p + 2]);
        p += 1;
    }
    assert(out@ =~= rgb_of(rgba@));
    out
}

/// The format a copy named `name` is written in: what its extension names,
/// JPEG when it names none.
pub open spec fn kind_for_name(name: Seq<char>) -> ImageKind {
    match extension(name) {
        Some(e) => match image_kind_of(e) {
            Some(k) => k,
            None => ImageKind::Jpeg,
        },
        None => ImageKind::Jpeg,
    }
}

/// What `encode` writes for a raster: JPEG without alpha at `quality`, any
/// other format the program writes from the RGBA raster, and an error for a
/// format it is not built to write.
pub open spec fn encoded_copy(w: u32, h: u32, rgba: Seq<u8>, name: Seq<char>, quality: u8) -> Result<Seq<u8>, Seq<char>> {
    let kind = kind_for_name(name);
    if kind == ImageKind::Jpeg {
        jpeg_encoded(w, h, rgb_of(rgba), quality)
    } else if kind == ImageKind::Other {
        Err("this format can't be written"@)
    } else {
        rgba_encoded(w, h, rgba, kind)
    }
}

/// The format named by the extension of a file name, JPEG when none is.
pub fn kind_for(name: &str) -> (r: ImageKind)
    ensures
        r == kind_for_name(name@),
{
    let cs = chars_of(name);
    let file = crate::pathname::file_name_chars(&cs);
    match file {
        Some(f) => match extension_chars_of(&f) {
            Some(e) => match kind_of_extension(e.as_str()) {
                Some(k) => k,
                None => ImageKind::Jpeg,
            },
            None => ImageKind::Jpeg,
        },
        None => ImageKind::Jpeg,
    }
}

fn extension_chars_of(name: &Vec<char>) -> (r: Option<String>)
    ensures
        match r {
            Some(e) => extension_of(name@) == Some(e@),
            None => extension_of(name@) is None,
        },
{
    match crate::pathname::extension_chars(name) {
        Some(e) => Some(crate::text::string_of(&e)),
        None => None,
    }
}

/// Encode a raster in the format the copy's file name asks for.
pub fn encode(img: &RgbaBuffer, out_name: &str, quality: u8) -> (r: Result<Vec<u8>, String>)
    requires
        img.wf(),
    ensures
        match r {
            Ok(b) => encoded_copy(img.w() as u32, img.h() as u32, img.bytes(), out_name@, quality) == Ok::<Seq<u8>, Seq<char>>(b@),
            Err(e) => encoded_copy(img.w() as u32, img.h() as u32, img.bytes(), out_name@, quality) == Err::<Seq<u8>, Seq<char>>(e@),
        },
{
    let kind = kind_for(out_name);
    let (w, h) = (img.width(), img.height());
    match kind {
        ImageKind::Jpeg => {
            let rgb = rgb_bytes(img.as_raw());
            assert(rgb@.len() == w as int * h as int * 3);
            write_jpeg(w, h, rgb.as_slice(), quality)
        },
        ImageKind::Other => Err("this format can't be written".to_owned()),
        _ => write_rgba(w, h, img.as_raw(), kind),
    }
}

/// The thumbnail cache's quality.
pub const THUMB_QUALITY: u8 = 82;

/// A thumbnail as the cache stores it: JPEG at `THUMB_QUALITY`.
pub fn thumbnail_jpeg(img: &RgbaBuffer) -> (r: Result<Vec<u8>, String>)
    requires
        img.wf(),
    ensures
        match r {
            Ok(b) => jpeg_encoded(img.w() as u32, img.h() as u32, rgb_of(img.bytes()), THUMB_QUALITY) == Ok::<Seq<u8>, Seq<char>>(b@),
            Err(e) => jpeg_encoded(img.w() as u32, img.h() as u32, rgb_of(img.bytes()), THUMB_QUALITY) == Err::<Seq<u8>, Seq<char>>(e@),
        },
{
    let rgb = rgb_bytes(img.as_raw());
    write_jpeg(img.width(), img.height(), rgb.as_slice(), THUMB_QUALITY)
}

} // verus!
