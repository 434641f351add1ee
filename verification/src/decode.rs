//! The decode path: which route a JPEG takes, the DCT-scaled JPEG decode
//! and what is made of its output, whether the embedded thumbnail is
//! usable, how an EXIF orientation is undone, and the Adobe CMYK to RGB
//! conversion.
use vstd::prelude::*;
use jpeg_decoder::{Decoder, PixelFormat};
use image::ImageFormat;
use fast_image_resize::images::Image as FirImage;
use fast_image_resize::{FilterType, PixelType, ResizeAlg, ResizeOptions, Resizer};
use std::io::Cursor;
use crate::exif::{embedded_jpeg, embedded_thumbnail};
use crate::raster::RgbaBuffer;
use crate::text::{decimal, push_decimal, push_str, string_of};

verus! {

/// Below this reduction factor a DCT-scaled decode costs more than a plain
/// one.
pub const DCT_WORTH_IT_AT: u32 = 4;

/// How many times the frame's longer side exceeds the target, 0 when the
/// dimensions are unknown.
pub open spec fn reduction(dims: Option<(u32, u32)>, max_dim: u32) -> int {
    match dims {
        Some((w, h)) => (if w >= h { w as int } else { h as int }) / (if max_dim >= 1 { max_dim as int } else { 1 }),
        None => 0,
    }
}

/// Whether a JPEG should be decoded at a DCT scale rather than in full.
pub fn scaled_decode_pays(dims: Option<(u32, u32)>, max_dim: u32) -> (r: bool)
    ensures
        r == (reduction(dims, max_dim) >= DCT_WORTH_IT_AT),
{
    let r = match dims {
        Some((w, h)) => {
            let longer = if w >= h { w } else { h };
            let d = if max_dim >= 1 { max_dim } else { 1 };
            longer / d
        },
        None => 0,
    };
    r >= DCT_WORTH_IT_AT
}

/// The size asked of the DCT-scaled decoder: the target, at least 1 and at
/// most what the decoder takes.
pub fn scale_request(target: u32) -> (r: u16)
    ensures
        r == (if target < 1 { 1 } else if target > 0xFFFF { 0xFFFF } else { target as int }),
{
    if target < 1 {
        1
    } else if target > 0xFFFF {
        0xFFFF
    } else {
        target as u16
    }
}

/// The decoder handed back at least `width * height * channels` bytes.
pub fn pixels_cover(len: usize, width: u16, height: u16, channels: u8) -> (r: bool)
    ensures
        r == (len >= width as int * height as int * channels as int),
{
    assert(width as int * height as int * channels as int <= 0xFFFF * 0xFFFF * 0xFF) by (nonlinear_arith)
        requires width <= 0xFFFF, height <= 0xFFFF, channels <= 0xFF;
    assert(width as int * height as int <= 0xFFFF * 0xFFFF) by (nonlinear_arith)
        requires width <= 0xFFFF, height <= 0xFFFF;
    let want = width as u64 * height as u64 * channels as u64;
    len as u64 >= want
}

/// The RGB bytes of Adobe CMYK pixels: each colour channel scaled by the
/// fourth, bytes past the last whole pixel dropped.
pub open spec fn cmyk_as_rgb(p: Seq<u8>) -> Seq<u8> {
    Seq::new(((p.len() / 4) * 3) as nat, |i: int| ((p[4 * (i / 3) + i % 3] as int * p[4 * (i / 3) + 3] as int) / 255) as u8)
}

/// Adobe CMYK JPEGs store inverted values: each colour channel scaled by
/// the fourth. Bytes past the last whole pixel are dropped.
pub fn cmyk_to_rgb(pixels: &[u8]) -> (r: Vec<u8>)
    ensures
        r@.len() == (pixels@.len() / 4) * 3,
        forall|p: int, c: int| 0 <= p < pixels@.len() / 4 && 0 <= c < 3 ==>
            #[trigger] r@[3 * p + c] == (pixels@[4 * p + c] as int * pixels@[4 * p + 3] as int) / 255,
        r@ == cmyk_as_rgb(pixels@),
{
    let len = pixels.len();
    let n = len / 4;
    let mut out: Vec<u8> = Vec::new();
    let mut p: usize = 0;
    while p < n
        invariant
            0 <= p <= n,
            len == pixels@.len(),
            n == pixels@.len() / 4,
            out@.len() == 3 * p,
            forall|q: int, c: int| 0 <= q < p && 0 <= c < 3 ==>
                #[trigger] out@[3 * q + c] == (pixels@[4 * q + c] as int * pixels@[4 * q + 3] as int) / 255,
        decreases n - p,
    {
        let k = pixels[4 * p + 3] as u32;
        let mut c: usize = 0;
        while c < 3
            invariant
                0 <= c <= 3,
                0 <= p < n,
                len == pixels@.len(),
                n == pixels@.len() / 4,
                k == pixels@[4 * p + 3],
                out@.len() == 3 * p + c,
                forall|q: int, d: int| 0 <= q < p && 0 <= d < 3 ==>
                    #[trigger] out@[3 * q + d] == (pixels@[4 * q + d] as int * pixels@[4 * q + 3] as int) / 255,
                forall|d: int| 0 <= d < c ==>
                    #[trigger] out@[3 * p + d] == (pixels@[4 * p + d] as int * pixels@[4 * p + 3] as int) / 255,
            decreases 3 - c,
        {
            let v = pixels[4 * p + c] as u32;
            assert(v * k <= 255 * 255) by (nonlinear_arith)
                requires v <= 255, k <= 255;
            out.push((v * k / 255) as u8);
            c += 1;
        }
        p += 1;
    }
    assert forall|i: int| 0 <= i < out@.len() implies out@[i] == #[trigger] cmyk_as_rgb(pixels@)[i] by {
        let q = i / 3;
        let c = i % 3;
        assert(i == 3 * q + c);
        assert(out@[3 * q + c] == (pixels@[4 * q + c] as int * pixels@[4 * q + 3] as int) / 255);
    }
    assert(out@ =~= cmyk_as_rgb(pixels@));
    out
}

/// The bytes of the thumbnail JPEG inside an EXIF block of `block_len`
/// bytes, when its offset and length lie inside it and it is not empty.
pub fn embedded_range(offset: usize, length: usize, block_len: usize) -> (r: Option<(usize, usize)>)
    ensures
        r == (if length == 0 || offset as int + length as int > block_len { None } else { Some((offset, (offset + length) as usize)) }),
{
    if length == 0 || offset > block_len || length > block_len - offset {
        None
    } else {
        Some((offset, offset + length))
    }
}

/// The embedded thumbnail is used when it reaches the box on either side.
pub fn embedded_is_big_enough(width: u32, height: u32, box_w: u32, box_h: u32) -> (r: bool)
    ensures
        r == (width >= box_w || height >= box_h),
{
    width >= box_w || height >= box_h
}

/// What undoes an EXIF orientation, so portrait frames stand upright.
#[derive(Clone, Copy, Debug, PartialEq, Eq, Structural)]
pub enum Upright {
    AsIs,
    FlipHorizontal,
    Rotate180,
    FlipVertical,
    Rotate90ThenFlipHorizontal,
    Rotate90,
    Rotate270ThenFlipHorizontal,
    Rotate270,
}

/// The orientation tag's value, 1 when it is missing; the value is taken
/// as 16 bits.
pub fn orientation_value(tag: Option<u32>) -> (r: u16)
    ensures
        r == (match tag { Some(v) => (v % 65536) as u16, None => 1u16 }),
{
    match tag {
        Some(v) => (v % 65536) as u16,
        None => 1,
    }
}

/// The operations that undo orientation `o`; anything outside 2..=8 is left
/// as it is.
pub fn upright_for(o: u16) -> (r: Upright)
    ensures
        r == (if o == 2 { Upright::FlipHorizontal }
            else if o == 3 { Upright::Rotate180 }
            else if o == 4 { Upright::FlipVertical }
            else if o == 5 { Upright::Rotate90ThenFlipHorizontal }
            else if o == 6 { Upright::Rotate90 }
            else if o == 7 { Upright::Rotate270ThenFlipHorizontal }
            else if o == 8 { Upright::Rotate270 }
            else { Upright::AsIs }),
{
    match o {
        2 => Upright::FlipHorizontal,
        3 => Upright::Rotate180,
        4 => Upright::FlipVertical,
        5 => Upright::Rotate90ThenFlipHorizontal,
        6 => Upright::Rotate90,
        7 => Upright::Rotate270ThenFlipHorizontal,
        8 => Upright::Rotate270,
        _ => Upright::AsIs,
    }
}


// ---------------------------------------------------------------------------
// The DCT-scaled JPEG decode
// ---------------------------------------------------------------------------

/// How the decoder lays out a pixel.
#[derive(Clone, Copy, Debug, PartialEq, Eq, Structural)]
pub enum JpegLayout {
    /// Grey, one byte.
    L8,
    /// Grey, two bytes in the machine's byte order.
    L16,
    /// Red, green, blue.
    Rgb24,
    /// Adobe CMYK, four bytes.
    Cmyk32,
}

/// Bytes per pixel of a layout.
pub open spec fn layout_bytes(l: JpegLayout) -> int {
    match l {
        JpegLayout::L8 => 1,
        JpegLayout::L16 => 2,
        JpegLayout::Rgb24 => 3,
        JpegLayout::Cmyk32 => 4,
    }
}

/// `jpeg_decoder::Decoder` over the bytes: `scale(scale, scale)`, whose
/// refusal leaves a full-size decode, then `decode` and `info`. Nothing is
/// claimed of the outcome: the decoder picks SIMD code for its transforms
/// when it runs, whose output is not bit-for-bit that of its plain code,
/// and it does not promise that the pixels fill the frame, which is why
/// the caller checks.
#[verifier::external_body]
fn jpeg_decode_scaled(bytes: &[u8], scale: u16) -> (r: Result<(Vec<u8>, Option<(u16, u16, JpegLayout)>), String>)
{
    let mut decoder = Decoder::new(bytes);
    let _ = decoder.scale(scale, scale);
    let pixels = match decoder.decode() {
        Ok(p) => p,
        Err(e) => return Err(e.to_string()),
    };
    let info = match decoder.info() {
        Some(i) => Some((i.width, i.height, match i.pixel_format {
            PixelFormat::L8 => JpegLayout::L8, PixelFormat::L16 => JpegLayout::L16,
            PixelFormat::RGB24 => JpegLayout::Rgb24, PixelFormat::CMYK32 => JpegLayout::Cmyk32,
        })),
        None => None,
    };
    Ok((pixels, info))
}

/// A decoded JPEG: CMYK has already been turned into RGB.
pub struct ScaledJpeg {
    pub width: u16,
    pub height: u16,
    pub layout: JpegLayout,
    pub pixels: Vec<u8>,
}

/// What the decoder handed back, by value: its pixels and the frame's
/// `(width, height, layout)`, or its error message.
pub open spec fn decoded_view(d: Result<(Vec<u8>, Option<(u16, u16, JpegLayout)>), String>) -> Result<(Seq<u8>, Option<(u16, u16, JpegLayout)>), Seq<char>> {
    match d {
        Ok((p, info)) => Ok((p@, info)),
        Err(e) => Err(e@),
    }
}

/// A decoded JPEG, by value.
pub open spec fn scaled_view(r: Result<ScaledJpeg, String>) -> Result<(u16, u16, JpegLayout, Seq<u8>), Seq<char>> {
    match r {
        Ok(d) => Ok((d.width, d.height, d.layout, d.pixels@)),
        Err(m) => Err(m@),
    }
}

/// What is made of the decoder's outcome: its error, a missing frame
/// header, or a buffer too short for the frame are errors; otherwise the
/// frame, with CMYK turned into RGB.
pub open spec fn scaled_jpeg_of(decoded: Result<(Seq<u8>, Option<(u16, u16, JpegLayout)>), Seq<char>>) -> Result<(u16, u16, JpegLayout, Seq<u8>), Seq<char>> {
    match decoded {
        Err(e) => Err("decode jpeg: "@ + e),
        Ok((_, None)) => Err("jpeg carried no frame header"@),
        Ok((p, Some((w, h, l)))) => {
            let need = w as int * h as int * layout_bytes(l);
            if p.len() < need {
                Err("jpeg pixel buffer short: "@ + decimal(p.len()) + " < "@ + decimal(need as nat))
            } else if l == JpegLayout::Cmyk32 {
                Ok((w, h, JpegLayout::Rgb24, cmyk_as_rgb(p)))
            } else {
                Ok((w, h, l, p))
            }
        },
    }
}

/// Take in what the JPEG decoder handed back: check that its pixels cover
/// the frame, and turn CMYK into RGB.
pub fn scaled_jpeg_from(decoded: Result<(Vec<u8>, Option<(u16, u16, JpegLayout)>), String>) -> (r: Result<ScaledJpeg, String>)
    ensures
        scaled_view(r) == scaled_jpeg_of(decoded_view(decoded)),
{
    match decoded {
        Err(e) => {
            let mut out: Vec<char> = Vec::new();
            push_str(&mut out, "decode jpeg: ");
            push_str(&mut out, e.as_str());
            Err(string_of(&out))
        },
        Ok((_, None)) => Err("jpeg carried no frame header".to_owned()),
        Ok((pixels, Some((w, h, layout)))) => {
            let n: u8 = match layout {
                JpegLayout::L8 => 1,
                JpegLayout::L16 => 2,
                JpegLayout::Rgb24 => 3,
                JpegLayout::Cmyk32 => 4,
            };
            if !pixels_cover(pixels.len(), w, h, n) {
                assert(w as int * h as int <= 0xFFFF * 0xFFFF) by (nonlinear_arith)
                    requires w <= 0xFFFF, h <= 0xFFFF;
                let need = w as u64 * h as u64 * n as u64;
                let mut out: Vec<char> = Vec::new();
                push_str(&mut out, "jpeg pixel buffer short: ");
                push_decimal(&mut out, pixels.len() as u64);
                push_str(&mut out, " < ");
                push_decimal(&mut out, need);
                return Err(string_of(&out));
            }
            match layout {
                JpegLayout::Cmyk32 => {
                    let rgb = cmyk_to_rgb(pixels.as_slice());
                    Ok(ScaledJpeg { width: w, height: h, layout: JpegLayout::Rgb24, pixels: rgb })
                },
                _ => Ok(ScaledJpeg { width: w, height: h, layout, pixels }),
            }
        },
    }
}

/// Decode a JPEG with the decoder emitting at the smallest DCT scale that
/// still covers `target`, never allocating the full-resolution buffer.
/// Whatever the decoder hands back, the result is what `scaled_jpeg_from`
/// makes of it: a frame whose pixels cover it, and never CMYK.
pub fn decode_jpeg_scaled(bytes: &[u8], target: u32) -> (r: Result<ScaledJpeg, String>)
    ensures
        exists|d: Result<(Seq<u8>, Option<(u16, u16, JpegLayout)>), Seq<char>>| scaled_view(r) == #[trigger] scaled_jpeg_of(d),
        r matches Ok(d) ==> d.layout != JpegLayout::Cmyk32
            && d.pixels@.len() >= d.width as int * d.height as int * layout_bytes(d.layout),
{
    let scale = scale_request(target);
    let decoded = jpeg_decode_scaled(bytes, scale);
    let ghost v = decoded_view(decoded);
    let r = scaled_jpeg_from(decoded);
    proof {
        assert(scaled_view(r) == scaled_jpeg_of(v));
        if let Ok((p, Some((w, h, l)))) = v {
            if l == JpegLayout::Cmyk32 && w as int * h as int * 4 <= p.len() {
                assert(w as int * h as int * 3 <= (p.len() / 4) * 3) by (nonlinear_arith)
                    requires w as int * h as int * 4 <= p.len(), w >= 0, h >= 0;
            }
        }
    }
    r
}

// ---------------------------------------------------------------------------
// The route and the cached thumbnail
// ---------------------------------------------------------------------------

/// How a thumbnail or preview is decoded.
#[derive(Clone, Copy, Debug, PartialEq, Eq, Structural)]
pub enum DecodeRoute {
    /// The JPEG embedded in the EXIF block.
    Embedded,
    /// A DCT-scaled JPEG decode.
    ScaledJpeg,
    /// A decode at full size.
    Full,
}

/// The cheapest route that gives enough pixels for a `box_w` by `box_h`
/// box: the embedded thumbnail when there is one that reaches the box (its
/// size is `embedded`), else a DCT-scaled decode of a JPEG whose size
/// (`dims`) is at least four times the box's longer side, else a full
/// decode.
pub fn decode_route(embedded: Option<(u32, u32)>, name_is_jpeg: bool, dims: Option<(u32, u32)>, box_w: u32, box_h: u32) -> (r: DecodeRoute)
    ensures
        r == (if embedded matches Some((w, h)) && (w >= box_w || h >= box_h) {
            DecodeRoute::Embedded
        } else if name_is_jpeg && reduction(dims, if box_w >= box_h { box_w } else { box_h }) >= DCT_WORTH_IT_AT {
            DecodeRoute::ScaledJpeg
        } else {
            DecodeRoute::Full
        }),
{
    match embedded {
        Some((w, h)) => {
            if embedded_is_big_enough(w, h, box_w, box_h) {
                return DecodeRoute::Embedded;
            }
        },
        None => {},
    }
    let longer = if box_w >= box_h { box_w } else { box_h };
    if name_is_jpeg && scaled_decode_pays(dims, longer) {
        DecodeRoute::ScaledJpeg
    } else {
        DecodeRoute::Full
    }
}

/// The width and height the image crate reads from an image's header,
/// its format guessed from the bytes.
pub uninterp spec fn header_dims(bytes: Seq<u8>) -> Option<(u32, u32)>;

/// `ImageReader::new(..).with_guessed_format()` then `into_dimensions`:
/// reads the header only. Claims that the result is `header_dims` of the
/// bytes, and no more.
#[verifier::external_body]
fn read_header_dims(bytes: &[u8]) -> (r: Option<(u32, u32)>)
    ensures
        r == header_dims(bytes@),
{
    image::ImageReader::new(Cursor::new(bytes)).with_guessed_format().ok()?.into_dimensions().ok()
}

/// An image's width and height, from its header alone.
pub fn read_dimensions(bytes: &[u8]) -> (r: Option<(u32, u32)>)
    ensures
        r == header_dims(bytes@),
{
    read_header_dims(bytes)
}

/// `image::load_from_memory_with_format(.., Jpeg)` then `to_rgba8`. Claims
/// only that a result has four bytes for each of its pixels: which pixels
/// depends on SIMD code the JPEG decoder picks when it runs.
#[verifier::external_body]
fn read_jpeg_rgba(bytes: &[u8]) -> (r: Option<(u32, u32, Vec<u8>)>)
    ensures
        r matches Some((w, h, p)) ==> p@.len() == w as int * h as int * 4,
{
    let img = image::load_from_memory_with_format(bytes, ImageFormat::Jpeg).ok()?.to_rgba8();
    Some((img.width(), img.height(), img.into_raw()))
}

/// `image::load_from_memory` (format guessed from the bytes) then
/// `to_rgba8`. Claims that a result has the size its header gives and four
/// bytes for each of its pixels; which pixels depends on SIMD code the
/// decoders pick when they run.
#[verifier::external_body]
fn read_any_rgba(bytes: &[u8]) -> (r: Option<(u32, u32, Vec<u8>)>)
    ensures
        r matches Some((w, h, p)) ==> p@.len() == w as int * h as int * 4 && header_dims(bytes@) == Some((w, h)),
{
    let img = image::load_from_memory(bytes).ok()?.to_rgba8();
    Some((img.width(), img.height(), img.into_raw()))
}

/// A raster from what a decoder handed back, when its pixels fill it.
pub fn raster_from(decoded: Option<(u32, u32, Vec<u8>)>) -> (r: Option<RgbaBuffer>)
    ensures
        match decoded {
            Some((w, h, p)) => p@.len() == w as int * h as int * 4
                ==> (r matches Some(b) && b.wf() && b.w() == w && b.h() == h && b.bytes() == p@),
            None => r is None,
        },
{
    match decoded {
        Some((w, h, p)) => RgbaBuffer::from_raw(w, h, p),
        None => None,
    }
}

/// A thumbnail read back from the cache's JPEG file, when it decodes.
pub fn cached_thumbnail(bytes: &[u8]) -> (r: Option<RgbaBuffer>)
    ensures
        r matches Some(b) ==> b.wf(),
{
    raster_from(read_jpeg_rgba(bytes))
}

/// Decode an image of any format the program reads, at full size, as
/// RGBA: its size is the one its header gives.
pub fn decode_image(bytes: &[u8]) -> (r: Option<RgbaBuffer>)
    ensures
        r matches Some(b) ==> b.wf() && header_dims(bytes@) == Some((b.w() as u32, b.h() as u32)),
{
    raster_from(read_any_rgba(bytes))
}

/// The JPEG thumbnail embedded in a file's EXIF, decoded; `None` when
/// there is no usable one or it does not decode.
pub fn embedded_thumbnail_image(bytes: &[u8]) -> (r: Option<RgbaBuffer>)
    ensures
        r matches Some(b) ==> b.wf() && embedded_jpeg(bytes@) is Some,
        embedded_jpeg(bytes@) is None ==> r is None,
{
    match embedded_thumbnail(bytes) {
        Some(t) => cached_thumbnail(t.as_slice()),
        None => None,
    }
}

/// `fast_image_resize`'s bilinear convolution of a `w` by `h` RGBA raster
/// to `dw` by `dh`. Claims only that a result has four bytes for each of
/// its pixels: which pixels depends on SIMD code it picks when it runs.
#[verifier::external_body]
fn resize_bilinear(w: u32, h: u32, pixels: Vec<u8>, dw: u32, dh: u32) -> (r: Option<Vec<u8>>)
    requires
        pixels@.len() == w as int * h as int * 4,
        dw >= 1,
        dh >= 1,
    ensures
        r matches Some(p) ==> p@.len() == dw as int * dh as int * 4,
{
    let src = FirImage::from_vec_u8(w, h, pixels, PixelType::U8x4).ok()?;
    let mut dst = FirImage::new(dw, dh, PixelType::U8x4);
    let options = ResizeOptions::new().resize_alg(ResizeAlg::Convolution(FilterType::Bilinear));
    Resizer::new().resize(&src, &mut dst, &options).ok()?;
    Some(dst.into_vec())
}

/// A raster resized to `dw` by `dh`, bilinear, when the resizer takes it.
pub fn resize_to(img: RgbaBuffer, dw: u32, dh: u32) -> (r: Option<RgbaBuffer>)
    requires
        img.wf(),
        dw >= 1,
        dh >= 1,
    ensures
        r matches Some(b) ==> b.wf() && b.w() == dw && b.h() == dh,
{
    let (w, h) = (img.width(), img.height());
    match resize_bilinear(w, h, img.into_raw(), dw, dh) {
        Some(p) => RgbaBuffer::from_raw(dw, dh, p),
        None => None,
    }
}

} // verus!
