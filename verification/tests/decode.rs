use pickture::cache::{BudgetCache, Weighted};
use pickture::decode::{
    cmyk_to_rgb, embedded_is_big_enough, embedded_range, orientation_value, pixels_cover,
    scale_request, scaled_decode_pays, upright_for, Upright,
};
use pickture::model::{EffectSpec, Frame};
use pickture::session::{frames_in_folder, sort_by_name, without_byte_order_marks};

#[test]
fn levels_span_is_clamped_by_spec() {
    let mut s = EffectSpec::default();
    s.set_high(10);
    s.set_low(200);
    assert!(s.low <= s.high - 4, "low {} high {}", s.low, s.high);
}

#[test]
fn scan_finds_supported_frames_in_natural_order() {
    let entries = vec![
        ("/shoot/_DSC10.jpg".to_string(), 100, Some(5)),
        ("/shoot/_DSC2.jpg".to_string(), 100, Some(5)),
        ("/shoot/_DSC1.jpg".to_string(), 100, Some(5)),
        ("/shoot/notes.txt".to_string(), 7, None),
        ("/shoot/raw.arw".to_string(), 19, None),
    ];
    let frames = frames_in_folder(entries);
    let names: Vec<_> = frames.iter().map(|f| f.id.as_str()).collect();
    assert_eq!(names, vec!["_DSC1.jpg", "_DSC2.jpg", "_DSC10.jpg"]);
    assert_eq!(frames[0].path, "/shoot/_DSC1.jpg");
    assert_eq!(frames[0].stem, "_DSC1");
    assert_eq!(frames[0].file_size, 100);
    assert_eq!(frames[0].modified, Some(5));
}

#[test]
fn equal_names_keep_the_order_they_came_in() {
    let a = Frame::new("/a/IMG_7.jpg".to_string(), 1, None);
    let b = Frame::new("/b/IMG_7.jpg".to_string(), 2, None);
    let c = Frame::new("/c/IMG_3.jpg".to_string(), 3, None);
    let sorted = sort_by_name(vec![a, b, c]);
    let sizes: Vec<u64> = sorted.iter().map(|f| f.file_size).collect();
    assert_eq!(sizes, vec![3, 1, 2]);
}

#[test]
fn byte_order_marks_are_dropped_from_the_front_only() {
    assert_eq!(without_byte_order_marks("\u{feff}{\"a\":1}"), "{\"a\":1}");
    assert_eq!(without_byte_order_marks("\u{feff}\u{feff}[]"), "[]");
    assert_eq!(without_byte_order_marks("[\u{feff}]"), "[\u{feff}]");
    assert_eq!(without_byte_order_marks(""), "");
}

#[test]
fn a_peek_leaves_the_recency_order_alone() {
    let mut c: BudgetCache<u32, Vec<u8>> = BudgetCache::new(20);
    c.insert(1, vec![0; 10]);
    c.insert(2, vec![0; 10]);
    // Peeking at 1 must not save it: it is still the coldest.
    assert_eq!(c.peek(&1).map(|v| v.len()), Some(10));
    assert!(c.peek(&9).is_none());
    c.insert(3, vec![0; 10]);
    assert!(!c.contains(&1));
    assert!(c.contains(&2));
}

#[test]
fn a_weighted_value_is_charged_its_declared_bytes() {
    let mut c: BudgetCache<u32, Weighted<&str>> = BudgetCache::new(100);
    c.insert(1, Weighted { value: "thumb", bytes: 60 });
    assert_eq!(c.used_bytes(), 60);
    c.insert(2, Weighted { value: "preview", bytes: 60 });
    assert_eq!(c.used_bytes(), 60);
    assert!(!c.contains(&1));
    assert_eq!(c.peek(&2).map(|w| w.value), Some("preview"));
}

#[test]
fn a_dct_scaled_decode_is_used_from_four_times_reduction() {
    assert!(scaled_decode_pays(Some((6000, 4000)), 1500));
    assert!(!scaled_decode_pays(Some((6000, 4000)), 1501));
    assert!(scaled_decode_pays(Some((3000, 8000)), 2000));
    assert!(!scaled_decode_pays(None, 300));
    // A zero target is read as one.
    assert!(scaled_decode_pays(Some((4, 1)), 0));
}

#[test]
fn the_scale_request_fits_the_decoder() {
    assert_eq!(scale_request(0), 1);
    assert_eq!(scale_request(300), 300);
    assert_eq!(scale_request(70000), 0xFFFF);
}

#[test]
fn short_decoder_output_is_detected() {
    assert!(pixels_cover(12, 2, 2, 3));
    assert!(!pixels_cover(11, 2, 2, 3));
    assert!(pixels_cover(usize::MAX, 0xFFFF, 0xFFFF, 4));
}

#[test]
fn adobe_cmyk_is_scaled_by_the_fourth_channel() {
    let rgb = cmyk_to_rgb(&[255, 128, 0, 255, 200, 100, 50, 51, 9]);
    assert_eq!(rgb, vec![255, 128, 0, 40, 20, 10]);
}

#[test]
fn the_embedded_thumbnail_must_lie_inside_its_block() {
    assert_eq!(embedded_range(10, 20, 30), Some((10, 30)));
    assert_eq!(embedded_range(10, 21, 30), None);
    assert_eq!(embedded_range(10, 0, 30), None);
    assert_eq!(embedded_range(usize::MAX, 2, 30), None);
    assert!(embedded_is_big_enough(300, 10, 300, 300));
    assert!(!embedded_is_big_enough(160, 120, 300, 300));
}

#[test]
fn orientations_are_undone() {
    assert_eq!(orientation_value(None), 1);
    assert_eq!(orientation_value(Some(6)), 6);
    assert_eq!(orientation_value(Some(65536 + 3)), 3);
    assert_eq!(upright_for(1), Upright::AsIs);
    assert_eq!(upright_for(3), Upright::Rotate180);
    assert_eq!(upright_for(6), Upright::Rotate90);
    assert_eq!(upright_for(8), Upright::Rotate270);
    assert_eq!(upright_for(5), Upright::Rotate90ThenFlipHorizontal);
    assert_eq!(upright_for(9), Upright::AsIs);
}
