use videothumb::settings::{clamp, load_settings, parse_fallback_seeks, IniSettings, Settings};

fn default_ini() -> IniSettings {
    let d = Settings::default();
    IniSettings {
        cache_mb: d.cache_mb,
        cache_entries: d.cache_entries,
        max_parallel: d.max_parallel,
        decoder_threads: d.decoder_threads,
        seek_ms: d.seek_ms,
        timeout_ms: d.timeout_ms,
        packet_limit: d.packet_limit,
        black_frame_detection: 1,
        black_threshold: d.black_threshold,
        black_pixel_percent: d.black_pixel_percent,
        title_card_detection: 1,
        title_card_dark_percent: d.title_card_dark_percent,
        title_card_midtone_max_percent: d.title_card_midtone_max_percent,
        title_card_mean_luma_max: d.title_card_mean_luma_max,
        uniform_frame_detection: 1,
        max_luma_stddev: d.max_luma_stddev,
        max_color_stddev: d.max_color_stddev,
        dominant_color_percent: d.dominant_color_percent,
        transition_detection: 1,
        min_edge_percent: d.min_edge_percent,
        edge_threshold: d.edge_threshold,
        max_mean_gradient: d.max_mean_gradient,
        fallback_seek_ms: "3000,5000,10000".to_string(),
        fallback_percent: d.fallback_percent,
        zip_sequences: 1,
        zip_max_entry_mb: d.zip_max_entry_mb,
        zip_max_candidates: d.zip_max_candidates,
        zip_max_source_mp: d.zip_max_source_mp,
        resolve_symlink_fallback: 0,
    }
}

#[test]
fn clamp_bounds() {
    assert_eq!(clamp(5, 0, 3), 3);
    assert_eq!(clamp(-1, 0, 3), 0);
    assert_eq!(clamp(2, 0, 3), 2);
    // when the bounds cross, the upper bound wins
    assert_eq!(clamp(5, 10, 3), 3);
    assert_eq!(clamp(-5, 10, 3), 3);
}

#[test]
fn defaults_match_the_documented_ini() {
    let d = Settings::default();
    assert_eq!(d.cache_mb, 96);
    assert_eq!(d.cache_entries, 256);
    assert_eq!(d.max_parallel, 2);
    assert_eq!(d.decoder_threads, 2);
    assert_eq!(d.seek_ms, 1000);
    assert_eq!(d.timeout_ms, 12000);
    assert_eq!(d.packet_limit, 5000);
    assert!(d.black_frame_detection);
    assert_eq!(d.black_threshold, 20);
    assert_eq!(d.black_pixel_percent, 95);
    assert_eq!(d.title_card_dark_percent, 70);
    assert_eq!(d.dominant_color_percent, 82);
    assert_eq!(d.fallback_seek_ms, vec![3000, 5000, 10000]);
    assert_eq!(d.fallback_percent, 10);
    assert!(d.zip_sequences);
    assert_eq!(d.zip_max_entry_mb, 64);
    assert_eq!(d.zip_max_candidates, 16);
    assert_eq!(d.zip_max_source_mp, 100);
    assert!(!d.resolve_symlink_fallback);
}

#[test]
fn loading_the_defaults_gives_the_defaults() {
    let s = load_settings(&default_ini());
    let d = Settings::default();
    assert_eq!(s.cache_mb, d.cache_mb);
    assert_eq!(s.cache_entries, d.cache_entries);
    assert_eq!(s.timeout_ms, d.timeout_ms);
    assert_eq!(s.edge_threshold, d.edge_threshold);
    assert_eq!(s.fallback_seek_ms, d.fallback_seek_ms);
    assert_eq!(s.zip_max_candidates, d.zip_max_candidates);
    assert_eq!(s.black_frame_detection, d.black_frame_detection);
    assert_eq!(s.resolve_symlink_fallback, d.resolve_symlink_fallback);
}

#[test]
fn out_of_range_values_are_clamped() {
    let mut ini = default_ini();
    ini.cache_mb = 5000;
    ini.max_parallel = 0;
    ini.timeout_ms = 10;
    ini.packet_limit = 1_000_000;
    ini.black_pixel_percent = 10;
    ini.edge_threshold = 0;
    ini.fallback_percent = 95;
    ini.zip_max_candidates = -3;
    ini.zip_max_source_mp = 5000;
    ini.black_frame_detection = 0;
    ini.zip_sequences = 7;
    let s = load_settings(&ini);
    assert_eq!(s.cache_mb, 1024);
    assert_eq!(s.max_parallel, 1);
    assert_eq!(s.timeout_ms, 1000);
    assert_eq!(s.packet_limit, 100000);
    assert_eq!(s.black_pixel_percent, 50);
    assert_eq!(s.edge_threshold, 1);
    assert_eq!(s.fallback_percent, 90);
    assert_eq!(s.zip_max_candidates, 1);
    assert_eq!(s.zip_max_source_mp, 1000);
    assert!(!s.black_frame_detection);
    assert!(s.zip_sequences);
}

#[test]
fn fallback_list_parsing() {
    assert_eq!(parse_fallback_seeks("3000,5000,10000"), vec![3000, 5000, 10000]);
    assert_eq!(parse_fallback_seeks(""), Vec::<i32>::new());
    assert_eq!(parse_fallback_seeks(" 100 , abc, -5, 100, +200, 700000"), vec![100, 200, 600000]);
    assert_eq!(parse_fallback_seeks("0,0,1"), vec![1]);
    assert_eq!(parse_fallback_seeks("2147483648,2147483647"), vec![600000]);
    assert_eq!(parse_fallback_seeks("-2147483648,5"), vec![5]);
    assert_eq!(parse_fallback_seeks("1 2,3"), vec![3]);
    assert_eq!(parse_fallback_seeks("\u{3000}42\u{a0},\t7\n"), vec![42, 7]);
    assert_eq!(parse_fallback_seeks("+,-,4"), vec![4]);
}

#[test]
fn at_most_eight_fallbacks() {
    assert_eq!(
        parse_fallback_seeks("1,2,3,4,5,6,7,8,9,10"),
        vec![1, 2, 3, 4, 5, 6, 7, 8]
    );
    // duplicates do not count towards the eight
    assert_eq!(
        parse_fallback_seeks("1,1,2,3,4,5,6,7,8,9"),
        vec![1, 2, 3, 4, 5, 6, 7, 8]
    );
}
