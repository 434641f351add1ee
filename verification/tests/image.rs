use pickture::exif::{find_app1, insert_app1, is_jpeg, splice_exif};
use pickture::raster::{
    apply_channel_luts, bounds_reaching, histogram_channel, histogram_value, nonzero_bounds,
    rotate_quarters, RgbaBuffer,
};
use pickture::cache::Weighed;

fn app1_segment() -> Vec<u8> {
    let mut v = vec![0xFF, 0xE1];
    let payload = b"Exif\0\0ab";
    v.extend_from_slice(&((payload.len() + 2) as u16).to_be_bytes());
    v.extend_from_slice(payload);
    v
}

#[test]
fn app1_is_found_and_reinserted() {
    // SOI, APP1(Exif) with a 2-byte payload, then EOI.
    let app1 = app1_segment();
    let mut src = vec![0xFF, 0xD8];
    src.extend_from_slice(&app1);
    src.extend_from_slice(&[0xFF, 0xD9]);

    assert_eq!(find_app1(&src), Some(app1.as_slice()));

    let bare = vec![0xFF, 0xD8, 0xFF, 0xD9];
    assert!(find_app1(&bare).is_none());

    let merged = insert_app1(&bare, &app1);
    assert_eq!(find_app1(&merged), Some(app1.as_slice()));
    // SOI stays first — a JPEG that does not start FFD8 is not a JPEG.
    assert_eq!(&merged[..2], &[0xFF, 0xD8]);
}

#[test]
fn truncated_segment_does_not_panic() {
    // Declares a length that runs past the end of the buffer.
    let src = vec![0xFF, 0xD8, 0xFF, 0xE1, 0xFF, 0xFE, 0x00];
    assert!(find_app1(&src).is_none());
}

#[test]
fn app1_after_other_segments_is_found() {
    let app1 = app1_segment();
    // SOI, an APP0 segment of 4 payload bytes, a standalone RST0, then APP1.
    let mut src = vec![0xFF, 0xD8, 0xFF, 0xE0, 0x00, 0x06, 1, 2, 3, 4, 0xFF, 0xD0];
    src.extend_from_slice(&app1);
    assert_eq!(find_app1(&src), Some(app1.as_slice()));
}

#[test]
fn nothing_is_read_past_the_start_of_scan() {
    let app1 = app1_segment();
    let mut src = vec![0xFF, 0xD8, 0xFF, 0xDA, 0x00, 0x02];
    src.extend_from_slice(&app1);
    assert!(find_app1(&src).is_none());
    assert!(find_app1(&[0x00, 0xD8, 0xFF, 0xD9]).is_none());
}

#[test]
fn splice_carries_the_block_only_when_missing() {
    let app1 = app1_segment();
    let mut original = vec![0xFF, 0xD8];
    original.extend_from_slice(&app1);
    original.extend_from_slice(&[0xFF, 0xD9]);
    let encoded = vec![0xFF, 0xD8, 0xFF, 0xD9];

    let carried = splice_exif(encoded.clone(), &original);
    assert_eq!(carried, original);
    // Already carrying one: unchanged.
    assert_eq!(splice_exif(carried.clone(), &original), carried);
    // Nothing to carry: unchanged.
    assert_eq!(splice_exif(encoded.clone(), &encoded), encoded);
}

#[test]
fn jpeg_is_recognised_by_extension_in_any_case() {
    assert!(is_jpeg("a/b.jpg"));
    assert!(is_jpeg("a/b.JPEG"));
    assert!(!is_jpeg("a/b.png"));
    assert!(!is_jpeg("a/jpg"));
}

#[test]
fn quarter_turns_are_lossless_and_swap_axes() {
    let mut img = RgbaBuffer::new(3, 2);
    img.put_pixel(0, 0, [1, 2, 3, 255]);
    let r = rotate_quarters(&img, 1);
    assert_eq!((r.width(), r.height()), (2, 3));
    // Four quarter turns returns the original exactly.
    let full = rotate_quarters(&rotate_quarters(&rotate_quarters(&r, 1), 1), 1);
    assert_eq!(full.as_raw(), img.as_raw());
}

#[test]
fn quarter_turns_wrap() {
    let img = RgbaBuffer::from_pixel(2, 3, [9, 9, 9, 255]);
    assert_eq!(rotate_quarters(&img, 4).dimensions(), (2, 3));
    assert_eq!(rotate_quarters(&img, -1).dimensions(), (3, 2));
}

#[test]
fn a_quarter_turn_moves_the_top_left_pixel_to_the_top_right() {
    let mut img = RgbaBuffer::new(3, 2);
    img.put_pixel(0, 0, [1, 2, 3, 4]);
    let r = rotate_quarters(&img, 1);
    assert_eq!(r.get_pixel(1, 0), [1, 2, 3, 4]);
    assert_eq!(r.get_pixel(0, 0), [0, 0, 0, 0]);
    let back = rotate_quarters(&img, -1);
    assert_eq!(back.get_pixel(0, 2), [1, 2, 3, 4]);
    let half = rotate_quarters(&img, 2);
    assert_eq!(half.get_pixel(2, 1), [1, 2, 3, 4]);
}

#[test]
fn raster_weight_is_its_pixel_bytes() {
    let img = RgbaBuffer::new(5, 4);
    assert_eq!(img.weight(), 80);
    assert!(RgbaBuffer::from_raw(2, 2, vec![0; 15]).is_none());
    assert!(RgbaBuffer::from_raw(2, 2, vec![0; 16]).is_some());
}

#[test]
fn value_histogram_counts_the_largest_channel() {
    let mut img = RgbaBuffer::from_pixel(4, 2, [10, 200, 30, 255]);
    img.put_pixel(0, 0, [0, 0, 0, 255]);
    let h = histogram_value(&img);
    assert_eq!(h.len(), 256);
    assert_eq!(h[200], 7);
    assert_eq!(h[0], 1);
    assert_eq!(h.iter().map(|v| *v as u64).sum::<u64>(), 8);
    let g = histogram_channel(&img, 0);
    assert_eq!(g[10], 7);
    assert_eq!(g[0], 1);
    for c in 0..3 {
        let total: u64 = histogram_channel(&img, c).iter().map(|v| *v as u64).sum();
        assert_eq!(total, 8);
    }
}

#[test]
fn bounds_are_the_lowest_and_highest_filled_bins() {
    let mut h = vec![0u32; 256];
    h[0] = 5;
    h[12] = 3;
    h[240] = 1;
    assert_eq!(nonzero_bounds(&h), (0, 240));
    h[0] = 0;
    assert_eq!(nonzero_bounds(&h), (12, 240));
    assert_eq!(nonzero_bounds(&vec![0u32; 256]), (0, 255));
}

#[test]
fn discarded_tails_move_the_points_inward() {
    let mut h = vec![0u32; 256];
    h[0] = 1;
    h[10] = 100;
    h[250] = 100;
    h[255] = 1;
    assert_eq!(bounds_reaching(&h, 2), (10, 250));
    assert_eq!(bounds_reaching(&h, 1), (0, 255));
    assert_eq!(bounds_reaching(&vec![0u32; 256], 1), (0, 255));
}

#[test]
fn channel_tables_leave_alpha_alone() {
    let mut img = RgbaBuffer::from_pixel(2, 1, [1, 2, 3, 77]);
    let inc: Vec<u8> = (0..=255u8).map(|v| v.saturating_add(1)).collect();
    let same: Vec<u8> = (0..=255u8).collect();
    let zero = vec![0u8; 256];
    apply_channel_luts(&mut img, &inc, &same, &zero);
    assert_eq!(img.get_pixel(1, 0), [2, 2, 0, 77]);
}
