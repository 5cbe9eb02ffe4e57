use videothumb::frame::{frame_analysis_enabled, frame_sums, luma_of, pixel_luma};
use videothumb::settings::Settings;
use videothumb::thumb::ThumbData;

#[test]
fn luma_values() {
    assert_eq!(pixel_luma(&[10, 20, 30]), 22);
    assert_eq!(pixel_luma(&[0, 0, 0, 255]), 0);
    assert_eq!(pixel_luma(&[255, 255, 255]), 255);
    // blue weighs least, green most
    assert_eq!(pixel_luma(&[255, 0, 0]), 29);
    assert_eq!(pixel_luma(&[0, 255, 0]), 149);
    assert_eq!(pixel_luma(&[0, 0, 255]), 77);
    assert_eq!(luma_of(10, 20, 30), 22);
}

#[test]
fn analysis_is_on_while_any_check_is_on() {
    let mut c = Settings::default();
    assert!(frame_analysis_enabled(&c));
    c.black_frame_detection = false;
    c.title_card_detection = false;
    c.uniform_frame_detection = false;
    assert!(frame_analysis_enabled(&c));
    c.transition_detection = false;
    assert!(!frame_analysis_enabled(&c));
    c.title_card_detection = true;
    assert!(frame_analysis_enabled(&c));
}

#[test]
fn single_black_pixel() {
    let t = ThumbData { width: 1, height: 1, stride: 4, bgra: vec![0, 0, 0, 255] };
    let s = frame_sums(&t, &Settings::default());
    assert_eq!(s.total, 1);
    assert_eq!(s.dark, 1);
    assert_eq!(s.mid, 0);
    assert_eq!(s.luma_sum, 0);
    assert_eq!(s.dominant, 1);
    assert_eq!(s.grad_count, 0);
    assert_eq!(s.edge_count, 0);
}

#[test]
fn sparse_samples_and_gradients() {
    // 5 x 5 white frame with a black pixel at (0, 0); the samples are the
    // pixels (0, 0), (4, 0), (0, 4) and (4, 4).
    let mut bgra = vec![255u8; 5 * 20];
    bgra[0] = 0;
    bgra[1] = 0;
    bgra[2] = 0;
    let t = ThumbData { width: 5, height: 5, stride: 20, bgra };
    let s = frame_sums(&t, &Settings::default());
    assert_eq!(s.total, 4);
    assert_eq!(s.dark, 1);
    assert_eq!(s.mid, 0);
    assert_eq!(s.luma_sum, 765);
    assert_eq!(s.luma_sq, 3 * 255 * 255);
    assert_eq!(s.b_sum, 765);
    assert_eq!(s.g_sum, 765);
    assert_eq!(s.r_sum, 765);
    assert_eq!(s.b_sq, 3 * 255 * 255);
    assert_eq!(s.dominant, 3);
    // two horizontal and two vertical steps, two of them black to white
    assert_eq!(s.grad_count, 4);
    assert_eq!(s.grad_sum, 510);
    assert_eq!(s.edge_count, 2);
}

#[test]
fn mid_tones_and_edge_threshold() {
    // 5 x 1 frame: samples at x = 0 (luma 100) and x = 4 (luma 110)
    let mut bgra = vec![0u8; 20];
    for x in 0..5 {
        let v = if x == 0 { 100 } else { 110 };
        bgra[x * 4] = v;
        bgra[x * 4 + 1] = v;
        bgra[x * 4 + 2] = v;
    }
    let t = ThumbData { width: 5, height: 1, stride: 20, bgra };
    let mut cfg = Settings::default();
    let s = frame_sums(&t, &cfg);
    assert_eq!(s.total, 2);
    assert_eq!(s.dark, 0);
    assert_eq!(s.mid, 2);
    assert_eq!(s.grad_count, 1);
    assert_eq!(s.grad_sum, 10);
    assert_eq!(s.edge_count, 0);
    cfg.edge_threshold = 10;
    assert_eq!(frame_sums(&t, &cfg).edge_count, 1);
    cfg.black_threshold = 100;
    assert_eq!(frame_sums(&t, &cfg).dark, 1);
}

#[test]
fn frames_without_pixels_give_zeros() {
    let cfg = Settings::default();
    let empty = ThumbData { width: 0, height: 4, stride: 0, bgra: vec![] };
    let short_rows = ThumbData { width: 2, height: 1, stride: 4, bgra: vec![1; 8] };
    let no_data = ThumbData { width: 1, height: 1, stride: 4, bgra: vec![] };
    for t in [empty, short_rows, no_data] {
        let s = frame_sums(&t, &cfg);
        assert_eq!(s.total, 0);
        assert_eq!(s.dark, 0);
        assert_eq!(s.dominant, 0);
        assert_eq!(s.grad_count, 0);
    }
}
