use std::sync::Arc;
use videothumb::cache::{keys_equal, normalized_cache_path, CacheKey, ThumbCache};
use videothumb::settings::Settings;
use videothumb::thumb::ThumbData;

fn key(path: &str, w: i32, h: i32) -> CacheKey {
    CacheKey { path: path.encode_utf16().collect(), max_w: w, max_h: h }
}

fn thumb(bytes: usize) -> Arc<ThumbData> {
    Arc::new(ThumbData { width: 1, height: 1, stride: 4, bgra: vec![7u8; bytes] })
}

#[test]
fn new_cache_is_empty() {
    let mut c = ThumbCache::new();
    let cfg = Settings::default();
    assert_eq!(c.total_bytes(), 0);
    assert!(c.get(&key("a", 96, 96), &cfg).is_none());
}

#[test]
fn put_then_get_returns_the_same_thumbnail() {
    let mut c = ThumbCache::new();
    let cfg = Settings::default();
    let d = thumb(16);
    c.put(key("a", 96, 96), d.clone(), &cfg);
    let got = c.get(&key("a", 96, 96), &cfg).expect("cached");
    assert!(Arc::ptr_eq(&got, &d));
    assert_eq!(c.total_bytes(), 16);
    // another box size is another key
    assert!(c.get(&key("a", 64, 96), &cfg).is_none());
    assert!(c.get(&key("b", 96, 96), &cfg).is_none());
}

#[test]
fn disabled_cache_stores_and_finds_nothing() {
    let mut off_mb = Settings::default();
    off_mb.cache_mb = 0;
    let mut off_entries = Settings::default();
    off_entries.cache_entries = 0;
    let mut c = ThumbCache::new();
    c.put(key("a", 1, 1), thumb(8), &off_mb);
    c.put(key("b", 1, 1), thumb(8), &off_entries);
    assert_eq!(c.total_bytes(), 0);
    let on = Settings::default();
    c.put(key("a", 1, 1), thumb(8), &on);
    assert!(c.get(&key("a", 1, 1), &off_mb).is_none());
    assert!(c.get(&key("a", 1, 1), &on).is_some());
}

#[test]
fn storing_again_replaces_the_item() {
    let mut c = ThumbCache::new();
    let cfg = Settings::default();
    let first = thumb(10);
    let second = thumb(20);
    c.put(key("a", 1, 1), first, &cfg);
    c.put(key("a", 1, 1), second.clone(), &cfg);
    assert_eq!(c.total_bytes(), 20);
    assert!(Arc::ptr_eq(&c.get(&key("a", 1, 1), &cfg).unwrap(), &second));
}

#[test]
fn least_recently_used_goes_first_by_entry_count() {
    let mut cfg = Settings::default();
    cfg.cache_entries = 2;
    let mut c = ThumbCache::new();
    c.put(key("a", 1, 1), thumb(4), &cfg);
    c.put(key("b", 1, 1), thumb(4), &cfg);
    // a lookup makes `a` the most recently used
    assert!(c.get(&key("a", 1, 1), &cfg).is_some());
    c.put(key("c", 1, 1), thumb(4), &cfg);
    assert!(c.get(&key("b", 1, 1), &cfg).is_none());
    assert!(c.get(&key("a", 1, 1), &cfg).is_some());
    assert!(c.get(&key("c", 1, 1), &cfg).is_some());
    assert_eq!(c.total_bytes(), 8);
}

#[test]
fn eviction_by_bytes() {
    let mut cfg = Settings::default();
    cfg.cache_mb = 1;
    let mut c = ThumbCache::new();
    c.put(key("a", 1, 1), thumb(600 * 1024), &cfg);
    c.put(key("b", 1, 1), thumb(600 * 1024), &cfg);
    assert!(c.get(&key("a", 1, 1), &cfg).is_none());
    assert!(c.get(&key("b", 1, 1), &cfg).is_some());
    assert_eq!(c.total_bytes(), 600 * 1024);
}

#[test]
fn empty_or_oversized_thumbnails_are_not_stored() {
    let mut cfg = Settings::default();
    cfg.cache_mb = 1;
    let mut c = ThumbCache::new();
    c.put(key("small", 1, 1), thumb(4), &cfg);
    c.put(key("empty", 1, 1), thumb(0), &cfg);
    c.put(key("huge", 1, 1), thumb(1024 * 1024 + 1), &cfg);
    assert!(c.get(&key("empty", 1, 1), &cfg).is_none());
    assert!(c.get(&key("huge", 1, 1), &cfg).is_none());
    // nothing was evicted for them
    assert!(c.get(&key("small", 1, 1), &cfg).is_some());
    assert_eq!(c.total_bytes(), 4);
    // exactly the limit is stored
    c.put(key("full", 1, 1), thumb(1024 * 1024), &cfg);
    assert!(c.get(&key("full", 1, 1), &cfg).is_some());
    assert!(c.get(&key("small", 1, 1), &cfg).is_none());
}

#[test]
fn cache_paths_are_normalized() {
    let w: Vec<u16> = "C:/Videos/Clip.MP4".encode_utf16().collect();
    let expected: Vec<u16> = "c:\\videos\\clip.mp4".encode_utf16().collect();
    assert_eq!(normalized_cache_path(&w), expected);
    // non-ASCII letters are kept as they are
    let u: Vec<u16> = "Ä/É".encode_utf16().collect();
    let ue: Vec<u16> = "Ä\\É".encode_utf16().collect();
    assert_eq!(normalized_cache_path(&u), ue);
    // normalizing twice changes nothing more
    let once = normalized_cache_path(&w);
    assert_eq!(normalized_cache_path(&once), once);
}

#[test]
fn keys_compare_by_path_and_box() {
    assert!(keys_equal(&key("a", 1, 2), &key("a", 1, 2)));
    assert!(!keys_equal(&key("a", 1, 2), &key("a", 2, 1)));
    assert!(!keys_equal(&key("a", 1, 2), &key("ab", 1, 2)));
    assert!(!keys_equal(&key("a", 1, 2), &key("b", 1, 2)));
}
