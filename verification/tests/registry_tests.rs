use escpos_assets::encode::DecodeError;
use escpos_assets::registry::{build_registry, validate_patterns, SourceFile};

fn chars(s: &str) -> Vec<char> {
    s.chars().collect()
}

fn png_bytes(width: u32, height: u32, pixels: Vec<u8>) -> Vec<u8> {
    let img = image::GrayImage::from_raw(width, height, pixels).expect("buffer fits dimensions");
    let mut out = std::io::Cursor::new(Vec::new());
    img.write_to(&mut out, image::ImageFormat::Png).expect("png encodes");
    out.into_inner()
}

fn file(path: &str, bytes: Vec<u8>) -> SourceFile {
    SourceFile { path: chars(path), bytes }
}

fn black(w: u32, h: u32) -> Vec<u8> {
    png_bytes(w, h, vec![0u8; (w * h) as usize])
}

#[test]
fn overlapping_patterns_keep_first_occurrence() {
    // two patterns both matched icons/start.png: the flattened discovery list
    // carries the path twice, and the registry keeps exactly one Start entry
    let files = vec![
        file("icons/start.png", black(4, 4)),
        file("icons/start.png", black(4, 4)),
    ];
    let reg = build_registry(&files).expect("builds");
    assert_eq!(reg.entries.len(), 1);
    assert_eq!(reg.entries[0].variant, chars("Start"));
    assert_eq!(reg.entries[0].storage, chars("START"));
}

#[test]
fn registry_keeps_discovery_order() {
    // patterns a_*.png then b_*.png, the first matching a_2 before a_1
    let files = vec![
        file("a_2.png", black(2, 2)),
        file("a_1.png", black(2, 2)),
        file("b_1.png", black(2, 2)),
    ];
    let reg = build_registry(&files).expect("builds");
    let names: Vec<Vec<char>> = reg.entries.iter().map(|e| e.variant.clone()).collect();
    assert_eq!(names, vec![chars("A2"), chars("A1"), chars("B1")]);
}

#[test]
fn name_collision_across_distinct_files_drops_later() {
    // foo.png and foo.jpg are different files but derive the same name
    let files = vec![
        file("foo.png", black(3, 3)),
        file("foo.jpg", black(5, 5)),
    ];
    let reg = build_registry(&files).expect("builds");
    assert_eq!(reg.entries.len(), 1);
    assert_eq!(reg.entries[0].variant, chars("Foo"));
    // the kept bitmap is the first file's
    assert_eq!(reg.entries[0].bitmap.width, 3);
}

#[test]
fn corrupt_file_aborts_whole_build() {
    let files = vec![
        file("good.png", black(4, 4)),
        file("bad.png", vec![9u8, 9, 9, 9]),
        file("later.png", black(4, 4)),
    ];
    let err = build_registry(&files).expect_err("aborts");
    assert_eq!(err.path, chars("bad.png"));
    assert_eq!(err.error, DecodeError::Unreadable);
}

#[test]
fn corrupt_duplicate_is_skipped_not_decoded() {
    // the second file collides on the name Start and is dropped before any
    // decode, so its bytes never fail the build
    let files = vec![
        file("start.png", black(4, 4)),
        file("start.jpg", vec![0u8, 1, 2]),
    ];
    let reg = build_registry(&files).expect("builds");
    assert_eq!(reg.entries.len(), 1);
}

#[test]
fn lookup_is_closed_over_registered_names() {
    let files = vec![
        file("start.png", black(4, 4)),
        file("stop.png", black(6, 2)),
    ];
    let reg = build_registry(&files).expect("builds");
    let start = reg.get(&chars("Start")).expect("registered");
    assert_eq!(start.width, 4);
    let stop = reg.get(&chars("Stop")).expect("registered");
    assert_eq!(stop.width, 6);
    assert!(reg.get(&chars("Missing")).is_none());
    assert!(reg.get(&chars("start")).is_none());
}

#[test]
fn empty_file_list_builds_empty_registry() {
    let reg = build_registry(&vec![]).expect("builds");
    assert_eq!(reg.entries.len(), 0);
}

#[test]
fn patterns_validate_in_order() {
    let ok = vec![chars("icons/*.png"), chars("**/*.jpg"), chars("a?.png")];
    assert!(validate_patterns(&ok).is_ok());
    let bad = vec![chars("icons/*.png"), chars("broken[")];
    let err = validate_patterns(&bad).expect_err("second pattern is malformed");
    assert_eq!(err.index, 1);
}
