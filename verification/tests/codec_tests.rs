use zapf::encode::{pack_bytes, try_pack_bytes};
use zapf::decode::unpack_bytes;
use zapf::FileEntry;
use zapf::ZapError;

fn entry(path: &str, content: &[u8]) -> FileEntry {
    FileEntry { path: path.as_bytes().to_vec(), content: content.to_vec() }
}

fn entry_raw(path: &[u8], content: &[u8]) -> FileEntry {
    FileEntry { path: path.to_vec(), content: content.to_vec() }
}

#[test]
fn round_trip_multiple_files() {
    let entries = vec![
        entry("a.txt", b"hello"),
        entry("dir/sub/b.bin", &[0u8, 1, 2, 255, 254]),
        entry("empty.dat", b""),
    ];
    let archive = pack_bytes(&entries);
    let out = unpack_bytes(&archive).expect("round trip should succeed");
    assert_eq!(out.len(), entries.len());
    for (got, want) in out.iter().zip(entries.iter()) {
        assert_eq!(got.path, want.path);
        assert_eq!(got.content, want.content);
    }
}

#[test]
fn round_trip_empty_path_and_zero_bytes() {
    let entries = vec![entry("", b""), entry("z", b"")];
    let archive = pack_bytes(&entries);
    let out = unpack_bytes(&archive).expect("empty records should round trip");
    assert_eq!(out.len(), 2);
    assert_eq!(out[0].path, b"".to_vec());
    assert_eq!(out[0].content, b"".to_vec());
    assert_eq!(out[1].path, b"z".to_vec());
}

#[test]
fn round_trip_multibyte_utf8_path() {
    let entries = vec![entry("caf\u{e9}/na\u{ef}ve \u{2014} \u{2603}.txt", b"snow")];
    let archive = pack_bytes(&entries);
    let out = unpack_bytes(&archive).expect("multi-byte UTF-8 paths should round trip");
    assert_eq!(out[0].path, entries[0].path);
    assert_eq!(out[0].content, b"snow".to_vec());
}

#[test]
fn empty_archive_is_header_only() {
    let entries: Vec<FileEntry> = Vec::new();
    let archive = pack_bytes(&entries);
    assert_eq!(archive.len(), 16);
    let out = unpack_bytes(&archive).expect("the empty archive should unpack");
    assert_eq!(out.len(), 0);
}

#[test]
fn exact_bytes_single_entry() {
    let entries = vec![entry("ab", b"xyz")];
    let archive = pack_bytes(&entries);
    let expected: Vec<u8> = vec![
        0x5A, 0x41, 0x50, 0x46, // magic "ZAPF"
        1, 0, 0, 0, // format version
        1, 0, 0, 0, 0, 0, 0, 0, // entry count
        40, 0, 0, 0, 0, 0, 0, 0, // path offset: 16 + 24
        3, 0, 0, 0, 0, 0, 0, 0, // content size
        44, 0, 0, 0, 0, 0, 0, 0, // content offset: 40 + 2 + 2
        2, 0, // path length
        b'a', b'b', // path
        b'x', b'y', b'z', // content
    ];
    assert_eq!(archive, expected);
}

#[test]
fn bad_magic_rejected() {
    let mut archive = pack_bytes(&vec![entry("a", b"1")]);
    archive[0] ^= 0xFF;
    assert_eq!(unpack_bytes(&archive), Err(ZapError::BadMagic));
}

#[test]
fn bad_magic_takes_precedence_over_version() {
    let mut archive = pack_bytes(&vec![entry("a", b"1")]);
    archive[0] ^= 0xFF;
    archive[4] ^= 0xFF;
    assert_eq!(unpack_bytes(&archive), Err(ZapError::BadMagic));
}

#[test]
fn version_mismatch_rejected() {
    let mut archive = pack_bytes(&vec![entry("a", b"1")]);
    archive[4] = 2;
    assert_eq!(unpack_bytes(&archive), Err(ZapError::VersionMismatch));
}

#[test]
fn short_archive_truncated() {
    assert_eq!(unpack_bytes(&Vec::new()), Err(ZapError::TruncatedArchive));
    assert_eq!(unpack_bytes(&vec![0x5A, 0x41]), Err(ZapError::TruncatedArchive));
}

#[test]
fn truncated_metadata_table_rejected() {
    // A header that claims one entry, with no metadata table behind it.
    let mut archive = pack_bytes(&Vec::new());
    archive[8] = 1;
    assert_eq!(unpack_bytes(&archive), Err(ZapError::TruncatedArchive));
}

#[test]
fn truncated_after_metadata_rejected() {
    let archive = pack_bytes(&vec![entry("a.txt", b"hello")]);
    let truncated: Vec<u8> = archive[..40].to_vec();
    assert_eq!(unpack_bytes(&truncated), Err(ZapError::TruncatedArchive));
}

#[test]
fn truncated_inside_content_rejected() {
    let archive = pack_bytes(&vec![entry("a.txt", b"hello")]);
    let truncated: Vec<u8> = archive[..archive.len() - 2].to_vec();
    assert_eq!(unpack_bytes(&truncated), Err(ZapError::SizeMismatch));
}

#[test]
fn traversal_dotdot_rejected() {
    let archive = pack_bytes(&vec![entry("../escape.txt", b"gotcha")]);
    assert_eq!(unpack_bytes(&archive), Err(ZapError::PathEscapesRoot));
}

#[test]
fn traversal_absolute_rejected() {
    let archive = pack_bytes(&vec![entry("/etc/passwd", b"root")]);
    assert_eq!(unpack_bytes(&archive), Err(ZapError::PathEscapesRoot));
}

#[test]
fn traversal_inner_dotdot_rejected() {
    let archive = pack_bytes(&vec![entry("a/../b.txt", b"x")]);
    assert_eq!(unpack_bytes(&archive), Err(ZapError::PathEscapesRoot));
}

#[test]
fn dots_inside_names_allowed() {
    let entries = vec![entry("a..b/..c", b"1"), entry("c..", b"2"), entry("d/.hidden", b"3")];
    let archive = pack_bytes(&entries);
    let out = unpack_bytes(&archive).expect("dots that are not a `..` segment are fine");
    assert_eq!(out.len(), 3);
    assert_eq!(out[0].path, entries[0].path);
}

#[test]
fn invalid_utf8_path_rejected() {
    let archive = pack_bytes(&vec![entry_raw(&[0xFF, 0x41], b"x")]);
    assert_eq!(unpack_bytes(&archive), Err(ZapError::InvalidPathEncoding));
}

#[test]
fn overlong_utf8_path_rejected() {
    let archive = pack_bytes(&vec![entry_raw(&[0xC0, 0x80], b"x")]);
    assert_eq!(unpack_bytes(&archive), Err(ZapError::InvalidPathEncoding));
}

#[test]
fn surrogate_utf8_path_rejected() {
    let archive = pack_bytes(&vec![entry_raw(&[0xED, 0xA0, 0x80], b"x")]);
    assert_eq!(unpack_bytes(&archive), Err(ZapError::InvalidPathEncoding));
}

#[test]
fn four_byte_utf8_path_accepted() {
    let archive = pack_bytes(&vec![entry_raw(&[0xF0, 0x90, 0x80, 0x80], b"x")]);
    let out = unpack_bytes(&archive).expect("U+10000 is well-formed UTF-8");
    assert_eq!(out[0].path, vec![0xF0, 0x90, 0x80, 0x80]);
}

#[test]
fn size_mismatch_rejected() {
    // Grow the first entry's content size field past the archive's end.
    let mut archive = pack_bytes(&vec![entry("ab", b"xyz")]);
    archive[24] = 4;
    assert_eq!(unpack_bytes(&archive), Err(ZapError::SizeMismatch));
}

#[test]
fn content_offset_past_end_rejected() {
    // Point the first entry's content offset past the archive's end.
    let mut archive = pack_bytes(&vec![entry("ab", b"xyz")]);
    archive[32] = 48;
    assert_eq!(unpack_bytes(&archive), Err(ZapError::TruncatedArchive));
}

#[test]
fn path_offset_past_end_rejected() {
    let mut archive = pack_bytes(&vec![entry("ab", b"xyz")]);
    archive[16] = 47;
    assert_eq!(unpack_bytes(&archive), Err(ZapError::TruncatedArchive));
}

#[test]
fn try_pack_accepts_ordinary_entries() {
    let entries = vec![entry("a.txt", b"hi")];
    let archive = try_pack_bytes(&entries).expect("small entries fit the format");
    assert_eq!(archive, pack_bytes(&entries));
}

#[test]
fn longest_possible_path_round_trips() {
    let long_path = vec![b'a'; 0xFFFF];
    let entries = vec![entry_raw(&long_path, b"x")];
    let archive = try_pack_bytes(&entries).expect("a 65535-byte path still fits the prefix");
    let out = unpack_bytes(&archive).expect("the longest path should round trip");
    assert_eq!(out[0].path, long_path);
}

#[test]
fn try_pack_rejects_overlong_path() {
    let long_path = vec![b'a'; 0x10000];
    let entries = vec![entry_raw(&long_path, b"")];
    assert!(try_pack_bytes(&entries).is_none());
}
