use pickture::decode::{
    cached_thumbnail, decode_image, decode_jpeg_scaled, decode_route, embedded_thumbnail_image, raster_from,
    read_dimensions, resize_to, scaled_jpeg_from, DecodeRoute, JpegLayout,
};
use pickture::encode::{encode, kind_for, rgb_bytes, thumbnail_jpeg, ImageKind};
use pickture::exif::{embedded_thumbnail, exposure_words, orientation_of};
use pickture::raster::RgbaBuffer;

fn ramp(w: u32, h: u32) -> RgbaBuffer {
    let mut b = RgbaBuffer::from_pixel(w, h, [0, 0, 0, 255]);
    for y in 0..h {
        for x in 0..w {
            b.put_pixel(x, y, [(x * 4) as u8, (y * 4) as u8, 128, 255]);
        }
    }
    b
}

#[test]
fn the_format_follows_the_extension() {
    assert_eq!(kind_for("/out/a_wb.JPG"), ImageKind::Jpeg);
    assert_eq!(kind_for("/out/a.png"), ImageKind::Png);
    assert_eq!(kind_for("/out/a.tif"), ImageKind::Tiff);
    assert_eq!(kind_for("/out/a.webp"), ImageKind::WebP);
    assert_eq!(kind_for("/out/a.tga"), ImageKind::Other);
    assert_eq!(kind_for("/out/noextension"), ImageKind::Jpeg);
    assert_eq!(kind_for("/out/a.xyz"), ImageKind::Jpeg);
}

#[test]
fn encoded_copies_carry_their_format_signature() {
    let img = ramp(32, 24);
    let jpeg = encode(&img, "/out/a.jpg", 95).unwrap();
    assert_eq!(&jpeg[..2], &[0xFF, 0xD8]);
    let png = encode(&img, "/out/a.png", 95).unwrap();
    assert_eq!(&png[..4], &[0x89, b'P', b'N', b'G']);
    let bmp = encode(&img, "/out/a.bmp", 95).unwrap();
    assert_eq!(&bmp[..2], b"BM");
    assert!(encode(&img, "/out/a.tga", 95).is_err());
}

#[test]
fn alpha_is_dropped_for_jpeg() {
    assert_eq!(rgb_bytes(&vec![1, 2, 3, 4, 5, 6, 7, 8, 9]), vec![1, 2, 3, 5, 6, 7]);
}

#[test]
fn a_scaled_decode_gives_fewer_pixels_and_covers_them() {
    let img = ramp(64, 48);
    let jpeg = encode(&img, "a.jpg", 95).unwrap();
    let full = decode_jpeg_scaled(&jpeg, 64).unwrap();
    assert_eq!((full.width, full.height), (64, 48));
    assert_eq!(full.layout, JpegLayout::Rgb24);
    assert_eq!(full.pixels.len(), 64 * 48 * 3);
    let small = decode_jpeg_scaled(&jpeg, 16).unwrap();
    assert!(small.width < 64 && small.width >= 16, "width {}", small.width);
    assert_eq!(small.pixels.len(), small.width as usize * small.height as usize * 3);
}

#[test]
fn an_unreadable_jpeg_is_reported_not_decoded() {
    let err = decode_jpeg_scaled(&[0xFF, 0xD8, 0x00, 0x01], 100).err().unwrap();
    assert!(err.starts_with("decode jpeg: "), "{err}");
}

#[test]
fn the_cache_reads_back_what_it_wrote() {
    let img = ramp(20, 10);
    let bytes = thumbnail_jpeg(&img).unwrap();
    let back = cached_thumbnail(&bytes).unwrap();
    assert_eq!(back.dimensions(), (20, 10));
    assert!(cached_thumbnail(b"not a jpeg").is_none());
}

#[test]
fn files_without_exif_have_no_orientation_thumbnail_or_exposure() {
    let jpeg = encode(&ramp(8, 8), "a.jpg", 90).unwrap();
    assert_eq!(orientation_of(&jpeg), 1);
    assert!(embedded_thumbnail(&jpeg).is_none());
    assert_eq!(exposure_words(&jpeg), (None, None));
}

#[test]
fn the_route_prefers_the_embedded_thumbnail_then_a_scaled_decode() {
    assert_eq!(decode_route(Some((320, 240)), true, Some((6000, 4000)), 300, 300), DecodeRoute::Embedded);
    assert_eq!(decode_route(Some((160, 120)), true, Some((6000, 4000)), 300, 300), DecodeRoute::ScaledJpeg);
    assert_eq!(decode_route(None, true, Some((1000, 800)), 300, 300), DecodeRoute::Full);
    assert_eq!(decode_route(None, false, Some((6000, 4000)), 300, 300), DecodeRoute::Full);
    assert_eq!(decode_route(None, true, None, 300, 300), DecodeRoute::Full);
}

#[test]
fn the_decoder_outcome_is_checked_and_cmyk_becomes_rgb() {
    let short = scaled_jpeg_from(Ok((vec![0; 5], Some((2, 1, JpegLayout::Rgb24)))));
    assert_eq!(short.err().unwrap(), "jpeg pixel buffer short: 5 < 6");
    let headless = scaled_jpeg_from(Ok((vec![0; 6], None)));
    assert_eq!(headless.err().unwrap(), "jpeg carried no frame header");
    let failed = scaled_jpeg_from(Err("bad marker".to_string()));
    assert_eq!(failed.err().unwrap(), "decode jpeg: bad marker");
    let cmyk = scaled_jpeg_from(Ok((vec![255, 128, 0, 255], Some((1, 1, JpegLayout::Cmyk32))))).ok().unwrap();
    assert_eq!(cmyk.layout, JpegLayout::Rgb24);
    assert_eq!(cmyk.pixels, vec![255, 128, 0]);
}

#[test]
fn a_raster_is_made_only_of_pixels_that_fill_it() {
    assert_eq!(raster_from(Some((2, 1, vec![1; 8]))).map(|b| b.dimensions()), Some((2, 1)));
    assert!(raster_from(Some((2, 1, vec![1; 7]))).is_none());
    assert!(raster_from(None).is_none());
}

#[test]
fn any_format_decodes_at_its_header_size() {
    let png = encode(&ramp(12, 7), "a.png", 95).unwrap();
    assert_eq!(read_dimensions(&png), Some((12, 7)));
    let img = decode_image(&png).unwrap();
    assert_eq!(img.dimensions(), (12, 7));
    assert_eq!(img.get_pixel(3, 2), [12, 8, 128, 255]);
    assert!(decode_image(b"nothing here").is_none());
    assert_eq!(read_dimensions(b"nothing here"), None);
}

#[test]
fn a_file_without_exif_has_no_embedded_image() {
    let jpeg = encode(&ramp(8, 8), "a.jpg", 90).unwrap();
    assert!(embedded_thumbnail_image(&jpeg).is_none());
}

#[test]
fn resizing_gives_the_asked_size() {
    let small = resize_to(ramp(40, 20), 10, 5).unwrap();
    assert_eq!(small.dimensions(), (10, 5));
}
