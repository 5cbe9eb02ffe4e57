use videothumb::entry_name::{has_zip_signature, is_image_entry_name};
use videothumb::settings::Settings;
use std::cell::RefCell;
use videothumb::zip_sequence::{
    decode_first_candidate, select_zip_candidates, CandidateSelection, ZipCandidate, ZipEntryInfo,
};

fn entry(name: &str, size: u64, is_dir: bool) -> ZipEntryInfo {
    ZipEntryInfo { name: name.to_string(), size, is_dir }
}

#[test]
fn image_names_by_extension() {
    for n in [
        "a.jpg", "b.JPEG", "c.Png", "d.bmp", "e.gif", "f.tif", "g.TIFF", "h.webp", "i.heic",
        "j.HEIF",
    ] {
        assert!(is_image_entry_name(n), "{n}");
    }
    for n in ["a.txt", "noext", "a.jpg.txt", "a.", "archive.tar.gz", "", "a.pn"] {
        assert!(!is_image_entry_name(n), "{n}");
    }
}

#[test]
fn image_names_use_the_last_component() {
    assert!(is_image_entry_name("frames/0001.png"));
    assert!(is_image_entry_name("frames\\0001.png"));
    assert!(is_image_entry_name("C:0001.png"));
    assert!(is_image_entry_name("dir.png/sub.jpg"));
    assert!(!is_image_entry_name("dir.png/readme"));
    // a trailing separator or `.` component does not hide the file name
    assert!(is_image_entry_name("shots/cover.png/"));
    assert!(is_image_entry_name("shots/cover.png/."));
    // a leading dot starts a hidden name, not an extension
    assert!(!is_image_entry_name(".png"));
    assert!(!is_image_entry_name("dir/.jpg"));
    assert!(is_image_entry_name("dir/.hidden.jpg"));
}

#[test]
fn zip_signatures() {
    assert!(has_zip_signature(b"PK\x03\x04rest"));
    assert!(has_zip_signature(b"PK\x05\x06"));
    assert!(has_zip_signature(b"PK\x07\x08"));
    assert!(!has_zip_signature(b"PK\x01\x02"));
    assert!(!has_zip_signature(b"PK\x03"));
    assert!(!has_zip_signature(b"pk\x03\x04"));
    assert!(!has_zip_signature(b""));
}

#[test]
fn candidates_in_natural_order() {
    let entries = vec![
        entry("img10.png", 100, false),
        entry("img2.png", 100, false),
        entry("readme.txt", 100, false),
        entry("sub/", 0, true),
        entry("img1.png", 100, false),
        entry("empty.png", 0, false),
        entry("img3.png", 65 * 1024 * 1024, false),
    ];
    let r = select_zip_candidates(&entries, &Settings::default());
    let got: Vec<(usize, &str, u64)> = r.iter().map(|c| (c.index, c.name.as_str(), c.size)).collect();
    assert_eq!(got, vec![(4, "img1.png", 100), (1, "img2.png", 100), (0, "img10.png", 100)]);
}

#[test]
fn candidates_are_capped() {
    let mut cfg = Settings::default();
    cfg.zip_max_candidates = 2;
    let entries = vec![
        entry("f5.jpg", 1, false),
        entry("f4.jpg", 1, false),
        entry("f3.jpg", 1, false),
        entry("f2.jpg", 1, false),
        entry("F1.JPG", 1, false),
    ];
    let r = select_zip_candidates(&entries, &cfg);
    let got: Vec<(usize, &str)> = r.iter().map(|c| (c.index, c.name.as_str())).collect();
    assert_eq!(got, vec![(4, "F1.JPG"), (3, "f2.jpg")]);
}

#[test]
fn equal_names_keep_archive_order() {
    let entries = vec![entry("a/x.png", 5, false), entry("A/X.png", 6, false), entry("a/x.png", 7, false)];
    let r = select_zip_candidates(&entries, &Settings::default());
    let got: Vec<usize> = r.iter().map(|c| c.index).collect();
    assert_eq!(got, vec![0, 1, 2]);
}

#[test]
fn entry_size_limit_is_inclusive() {
    let mut cfg = Settings::default();
    cfg.zip_max_entry_mb = 1;
    let entries = vec![entry("a.png", 1024 * 1024, false), entry("b.png", 1024 * 1024 + 1, false)];
    let r = select_zip_candidates(&entries, &cfg);
    assert_eq!(r.len(), 1);
    assert_eq!(r[0].name, "a.png");
    assert!(select_zip_candidates(&Vec::new(), &cfg).is_empty());
}

#[test]
fn entries_offered_one_by_one() {
    let mut cfg = Settings::default();
    cfg.zip_max_candidates = 2;
    let entries = vec![
        entry("c10.png", 1, false),
        entry("c9.png", 1, false),
        entry("notes.txt", 1, false),
        entry("c1.png", 1, false),
    ];
    let mut sel = CandidateSelection::new(&cfg);
    assert_eq!(sel.offered(), 0);
    for e in &entries {
        sel.offer(e);
    }
    assert_eq!(sel.offered(), 4);
    let got: Vec<(usize, String)> = sel.into_candidates().into_iter().map(|c| (c.index, c.name)).collect();
    assert_eq!(got, vec![(3, "c1.png".to_string()), (1, "c9.png".to_string())]);
    let whole: Vec<usize> = select_zip_candidates(&entries, &cfg).iter().map(|c| c.index).collect();
    assert_eq!(whole, vec![3, 1]);
}

fn cand(index: usize, name: &str) -> ZipCandidate {
    ZipCandidate { index, name: name.to_string(), size: 1 }
}

#[test]
fn first_decodable_candidate_wins() {
    let cands = vec![cand(7, "a.png"), cand(3, "b.png"), cand(5, "c.png")];
    let read = |i: usize| -> Option<Vec<u8>> {
        match i {
            7 => Some(vec![0; 10]),
            3 => Some(vec![1; 4]),
            5 => Some(vec![2; 4]),
            _ => None,
        }
    };
    // entry 7 is too large, entry 3 does not decode, entry 5 does
    let r = decode_first_candidate(&cands, 8, read, |b: Vec<u8>| if b[0] == 2 { Some(b.len()) } else { None });
    assert_eq!(r, Some(4));
    // with a larger limit the first entry decodes
    let r = decode_first_candidate(&cands, 10, read, |b: Vec<u8>| Some(b[0]));
    assert_eq!(r, Some(0));
}

#[test]
fn unreadable_candidate_ends_the_attempt() {
    let cands = vec![cand(1, "a.png"), cand(2, "b.png")];
    let tried = RefCell::new(Vec::new());
    let r = decode_first_candidate(
        &cands,
        100,
        |i: usize| {
            tried.borrow_mut().push(i);
            if i == 1 { None } else { Some(vec![1]) }
        },
        |_b: Vec<u8>| Some(()),
    );
    assert_eq!(r, None);
    assert_eq!(*tried.borrow(), vec![1]);
    let none: Vec<ZipCandidate> = Vec::new();
    assert_eq!(decode_first_candidate(&none, 100, |_i: usize| Some(vec![1]), |_b: Vec<u8>| Some(())), None);
}

#[test]
fn windows_prefixes_are_no_file_names() {
    // \\server\share, also with `/`: the share is part of the prefix
    assert!(!is_image_entry_name(r"\\s\x.jpg"));
    assert!(!is_image_entry_name("//s/x.jpg"));
    assert!(is_image_entry_name(r"\\s\x\y.jpg"));
    assert!(is_image_entry_name("//s/x/y.jpg"));
    // without a share there is no prefix
    assert!(is_image_entry_name(r"\\pic.png"));
    // device paths
    assert!(!is_image_entry_name(r"\\.\pics.png"));
    assert!(is_image_entry_name(r"\\.\dev\a.png"));
    // verbatim paths
    assert!(!is_image_entry_name(r"\\?\pics.png"));
    assert!(!is_image_entry_name(r"\\?\C:"));
    assert!(is_image_entry_name(r"\\?\C:\a.png"));
    assert!(is_image_entry_name(r"\\?\UNC\srv\share\v.jpg"));
    assert!(!is_image_entry_name(r"\\?\UNC\srv\pic.jpg"));
    // in verbatim paths only `\` separates and `.` is a component of its own
    assert!(!is_image_entry_name(r"\\?\C:\x.png/"));
    assert!(is_image_entry_name(r"C:\x.png/"));
    assert!(!is_image_entry_name(r"\\?\C:\a.png\."));
    assert!(is_image_entry_name(r"C:\a.png\."));
}
