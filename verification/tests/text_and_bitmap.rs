use videothumb::settings::Settings;
use videothumb::text::{chars_of, path_wide_z, strip_verbatim_prefix, wide_z};
use videothumb::thumb::{bitmap_bits, source_pixels_allowed, ThumbData};

#[test]
fn wide_strings_end_in_zero() {
    assert_eq!(wide_z(""), vec![0]);
    assert_eq!(wide_z("VideoThumb.ini"), {
        let mut v: Vec<u16> = "VideoThumb.ini".encode_utf16().collect();
        v.push(0);
        v
    });
    // characters outside the basic plane take a surrogate pair
    assert_eq!(wide_z("é😀"), vec![0xE9, 0xD83D, 0xDE00, 0]);
}

#[test]
fn characters_in_order() {
    assert_eq!(chars_of("aé😀"), vec!['a', 'é', '😀']);
    assert!(chars_of("").is_empty());
}

#[test]
fn source_pixel_limit() {
    let cfg = Settings::default();
    assert!(source_pixels_allowed(10_000, 10_000, &cfg));
    assert!(!source_pixels_allowed(10_001, 10_000, &cfg));
    assert!(!source_pixels_allowed(0, 10, &cfg));
    assert!(!source_pixels_allowed(10, -1, &cfg));
    assert!(!source_pixels_allowed(i32::MAX, i32::MAX, &cfg));
    let mut small = Settings::default();
    small.zip_max_source_mp = 1;
    assert!(source_pixels_allowed(1000, 1000, &small));
    assert!(!source_pixels_allowed(1000, 1001, &small));
}

#[test]
fn bitmap_rows_drop_row_padding() {
    // 2 x 2 pixels, rows of 12 bytes of which 8 are pixels
    let bgra: Vec<u8> = (0u8..24).collect();
    let t = ThumbData { width: 2, height: 2, stride: 12, bgra };
    let bits = bitmap_bits(&t).expect("bitmap");
    assert_eq!(bits, vec![0, 1, 2, 3, 4, 5, 6, 7, 12, 13, 14, 15, 16, 17, 18, 19]);
    // packed rows are copied as they are
    let packed = ThumbData { width: 1, height: 2, stride: 4, bgra: vec![9, 8, 7, 6, 5, 4, 3, 2] };
    assert_eq!(bitmap_bits(&packed), Some(vec![9, 8, 7, 6, 5, 4, 3, 2]));
}

#[test]
fn unusable_thumbnails_give_no_bitmap() {
    assert_eq!(bitmap_bits(&ThumbData { width: 0, height: 1, stride: 4, bgra: vec![1; 4] }), None);
    assert_eq!(bitmap_bits(&ThumbData { width: 1, height: 0, stride: 4, bgra: vec![1; 4] }), None);
    assert_eq!(bitmap_bits(&ThumbData { width: 2, height: 1, stride: 4, bgra: vec![1; 8] }), None);
    assert_eq!(bitmap_bits(&ThumbData { width: 1, height: 1, stride: 4, bgra: vec![] }), None);
}

#[test]
fn wide_paths_end_in_zero() {
    assert_eq!(path_wide_z(&[]), vec![0]);
    assert_eq!(path_wide_z(&[67, 58, 92, 0xD83D, 0xDE00]), vec![67, 58, 92, 0xD83D, 0xDE00, 0]);
}

fn units(s: &str) -> Vec<u16> {
    s.encode_utf16().collect()
}

#[test]
fn verbatim_prefixes_are_dropped() {
    assert_eq!(strip_verbatim_prefix(&units(r"\\?\UNC\server\share\v.mp4")), units(r"\\server\share\v.mp4"));
    assert_eq!(strip_verbatim_prefix(&units(r"\\?\C:\videos\v.mp4")), units(r"C:\videos\v.mp4"));
    assert_eq!(strip_verbatim_prefix(&units(r"C:\videos\v.mp4")), units(r"C:\videos\v.mp4"));
    assert_eq!(strip_verbatim_prefix(&units(r"\\server\share")), units(r"\\server\share"));
    assert_eq!(strip_verbatim_prefix(&units(r"\\?\UNC\")), units(r"\\"));
    assert_eq!(strip_verbatim_prefix(&units(r"\\?\")), units(""));
    assert_eq!(strip_verbatim_prefix(&units(r"\\?")), units(r"\\?"));
}
