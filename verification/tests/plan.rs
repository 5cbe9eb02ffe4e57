use std::cell::RefCell;
use videothumb::plan::{
    decode_path, decode_plan, detect_string_bytes, seek_targets, thumb_box_allowed, DecodeStep,
    MemoryIo, MemoryRead, DETECT_STRING,
};
use videothumb::settings::Settings;

fn no_checks() -> Settings {
    let mut c = Settings::default();
    c.black_frame_detection = false;
    c.title_card_detection = false;
    c.uniform_frame_detection = false;
    c.transition_detection = false;
    c
}

#[test]
fn seek_targets_for_a_minute_long_video() {
    let t = seek_targets(60_000_000, &Settings::default());
    assert_eq!(t, vec![1_000_000, 3_000_000, 5_000_000, 10_000_000, 6_000_000, 0]);
}

#[test]
fn seek_targets_for_an_unknown_duration() {
    let t = seek_targets(0, &Settings::default());
    assert_eq!(t, vec![1_000_000, 3_000_000, 5_000_000, 10_000_000, 0]);
    let t = seek_targets(-5, &Settings::default());
    assert_eq!(t, vec![1_000_000, 3_000_000, 5_000_000, 10_000_000, 0]);
}

#[test]
fn seek_targets_for_a_short_video() {
    // the first position moves to a third of the duration, the fallbacks
    // past the end are dropped
    let t = seek_targets(900_000, &Settings::default());
    assert_eq!(t, vec![300_000, 90_000, 0]);
    // positions within 0.1 s of one already planned are dropped
    let t = seek_targets(10_500_000, &Settings::default());
    assert_eq!(t, vec![1_000_000, 3_000_000, 5_000_000, 10_000_000, 0]);
}

#[test]
fn seek_targets_without_frame_checks() {
    assert_eq!(seek_targets(60_000_000, &no_checks()), vec![1_000_000, 0]);
    let mut c = no_checks();
    c.seek_ms = 0;
    assert_eq!(seek_targets(60_000_000, &c), vec![0]);
}

#[test]
fn seek_targets_starting_at_zero() {
    let mut c = Settings::default();
    c.seek_ms = 0;
    c.fallback_percent = 0;
    assert_eq!(seek_targets(60_000_000, &c), vec![0, 3_000_000, 5_000_000, 10_000_000]);
}

#[test]
fn decode_steps_by_content() {
    let cfg = Settings::default();
    assert_eq!(decode_plan(b"PK\x03\x04", &cfg), vec![DecodeStep::Zip, DecodeStep::Libav]);
    assert_eq!(decode_plan(b"RIFF....", &cfg), vec![DecodeStep::Libav]);
    assert_eq!(decode_plan(b"PK", &cfg), vec![DecodeStep::Libav, DecodeStep::Zip]);
    assert_eq!(decode_plan(b"", &cfg), vec![DecodeStep::Libav, DecodeStep::Zip]);
}

#[test]
fn decode_steps_with_resolved_paths() {
    let mut cfg = Settings::default();
    cfg.resolve_symlink_fallback = true;
    assert_eq!(
        decode_plan(b"RIFF", &cfg),
        vec![DecodeStep::Libav, DecodeStep::ResolvedLibav, DecodeStep::ResolvedZip]
    );
    cfg.zip_sequences = false;
    assert_eq!(decode_plan(b"RIFF", &cfg), vec![DecodeStep::Libav, DecodeStep::ResolvedLibav]);
}

#[test]
fn decode_path_returns_the_first_success() {
    let mut cfg = Settings::default();
    cfg.resolve_symlink_fallback = true;
    let tried = RefCell::new(Vec::new());
    let r = decode_path(b"", &cfg, |s| {
        tried.borrow_mut().push(s);
        if s == DecodeStep::Zip || s == DecodeStep::ResolvedZip { Some(s) } else { None }
    });
    assert_eq!(r, Some(DecodeStep::Zip));
    assert_eq!(*tried.borrow(), vec![DecodeStep::Libav, DecodeStep::Zip]);

    let tried = RefCell::new(Vec::new());
    let r: Option<u8> = decode_path(b"PK\x05\x06", &cfg, |s| {
        tried.borrow_mut().push(s);
        None
    });
    assert_eq!(r, None);
    assert_eq!(
        *tried.borrow(),
        vec![DecodeStep::Zip, DecodeStep::Libav, DecodeStep::ResolvedLibav, DecodeStep::ResolvedZip]
    );
}

#[test]
fn memory_reads() {
    let mut io = MemoryIo { len: 10, pos: 0 };
    assert_eq!(io.read(-1), MemoryRead::Invalid);
    assert_eq!(io.read(0), MemoryRead::EndOfData);
    assert_eq!(io.read(4), MemoryRead::Copied(4));
    assert_eq!(io.pos, 4);
    assert_eq!(io.read(100), MemoryRead::Copied(6));
    assert_eq!(io.pos, 10);
    assert_eq!(io.read(1), MemoryRead::EndOfData);
    assert_eq!(io.pos, 10);
}

#[test]
fn memory_seeks() {
    const SIZE: i32 = 0x10000;
    const FORCE: i32 = 0x20000;
    let mut io = MemoryIo { len: 100, pos: 0 };
    assert_eq!(io.seek(0, SIZE, SIZE, FORCE), Some(100));
    assert_eq!(io.pos, 0);
    assert_eq!(io.seek(5, 0, SIZE, FORCE), Some(5));
    assert_eq!(io.seek(-1, 1, SIZE, FORCE), Some(4));
    assert_eq!(io.seek(-10, 2, SIZE, FORCE), Some(90));
    assert_eq!(io.seek(7, FORCE, SIZE, FORCE), Some(7));
    assert_eq!(io.seek(10, 1 | FORCE, SIZE, FORCE), Some(17));
    assert_eq!(io.pos, 17);
    assert_eq!(io.seek(0, 3, SIZE, FORCE), None);
    assert_eq!(io.seek(-1, 0, SIZE, FORCE), None);
    assert_eq!(io.seek(-200, 2, SIZE, FORCE), None);
    assert_eq!(io.pos, 17);
    // past the end is allowed; a read there gives nothing
    assert_eq!(io.seek(150, 0, SIZE, FORCE), Some(150));
    assert_eq!(io.read(8), MemoryRead::EndOfData);
}

#[test]
fn detect_string_into_buffers() {
    assert_eq!(detect_string_bytes(0), None);
    assert_eq!(detect_string_bytes(-3), None);
    assert_eq!(detect_string_bytes(1), Some(vec![0]));
    assert_eq!(detect_string_bytes(5), Some(b"EXT=\0".to_vec()));
    let mut full = DETECT_STRING.as_bytes().to_vec();
    full.push(0);
    assert_eq!(detect_string_bytes(4096), Some(full.clone()));
    assert_eq!(detect_string_bytes(full.len() as i32), Some(full));
    assert!(DETECT_STRING.starts_with("EXT=\"MP4\""));
}

#[test]
fn thumbnail_boxes() {
    assert!(thumb_box_allowed(1, 1));
    assert!(thumb_box_allowed(8192, 8192));
    assert!(!thumb_box_allowed(0, 10));
    assert!(!thumb_box_allowed(10, -1));
    assert!(!thumb_box_allowed(8193, 10));
    assert!(!thumb_box_allowed(10, 8193));
}
