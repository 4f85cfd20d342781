use zapf::layout::compute_offsets;
use zapf::paths::path_escapes_root;
use zapf::utf8::is_valid_utf8;
use zapf::FileEntry;

fn entry(path: &str, content: &[u8]) -> FileEntry {
    FileEntry { path: path.as_bytes().to_vec(), content: content.to_vec() }
}

#[test]
fn path_guard_flags_escaping_paths() {
    assert!(path_escapes_root(&b"..".to_vec()));
    assert!(path_escapes_root(&b"../x".to_vec()));
    assert!(path_escapes_root(&b"a/..".to_vec()));
    assert!(path_escapes_root(&b"a/../b".to_vec()));
    assert!(path_escapes_root(&b"/absolute".to_vec()));
}

#[test]
fn path_guard_accepts_contained_paths() {
    assert!(!path_escapes_root(&b"".to_vec()));
    assert!(!path_escapes_root(&b"a.txt".to_vec()));
    assert!(!path_escapes_root(&b"a/b/c".to_vec()));
    assert!(!path_escapes_root(&b"..a".to_vec()));
    assert!(!path_escapes_root(&b"a..".to_vec()));
    assert!(!path_escapes_root(&b"a/..b/c".to_vec()));
    assert!(!path_escapes_root(&b"a/b../c".to_vec()));
}

#[test]
fn utf8_checker_agrees_with_str_validation() {
    let cases: Vec<Vec<u8>> = vec![
        b"".to_vec(),
        b"plain ascii".to_vec(),
        "caf\u{e9} \u{2603} \u{10348}".as_bytes().to_vec(),
        vec![0xFF],
        vec![0xC2],
        vec![0xC2, 0x41],
        vec![0xC0, 0x80],
        vec![0xE0, 0x80, 0x80],
        vec![0xED, 0xA0, 0x80],
        vec![0xED, 0x9F, 0xBF],
        vec![0xF0, 0x80, 0x80, 0x80],
        vec![0xF0, 0x90, 0x80, 0x80],
        vec![0xF4, 0x8F, 0xBF, 0xBF],
        vec![0xF4, 0x90, 0x80, 0x80],
        vec![0xF5, 0x80, 0x80, 0x80],
        vec![0x61, 0xC3],
    ];
    for bytes in cases {
        assert_eq!(
            is_valid_utf8(&bytes),
            std::str::from_utf8(&bytes).is_ok(),
            "disagreement on {:?}",
            bytes
        );
    }
}

#[test]
fn offsets_are_contiguous() {
    let entries = vec![
        entry("a", b"12345"),
        entry("", b""),
        entry("long/nested/name.txt", b"x"),
    ];
    let offsets = compute_offsets(&entries);
    assert_eq!(offsets.len(), 3);

    // The first path record sits right after the header and metadata table.
    assert_eq!(offsets[0].0, 16 + 24 * 3);
    // The first content blob sits right after the whole path table.
    let path_table: u64 = entries.iter().map(|e| 2 + e.path.len() as u64).sum();
    assert_eq!(offsets[0].1, offsets[0].0 + path_table);

    // Consecutive offsets touch exactly: no gaps, no overlap.
    for i in 0..entries.len() - 1 {
        assert_eq!(offsets[i + 1].0, offsets[i].0 + 2 + entries[i].path.len() as u64);
        assert_eq!(offsets[i + 1].1, offsets[i].1 + entries[i].content.len() as u64);
    }
}
