use std::cmp::Ordering;

use cfb::bytes::{get_u16, get_u32, get_u64, get_u8, read_window};
use cfb::dir_entry::DirEntry;
use cfb::directory::{find_entry, find_parent, is_name_taken, resolve_names, Lookup};
use cfb::error::not_a_stream_text;
use cfb::path::{full_path_for, names_for_path, path_of_child, path_of_parent};
use cfb::text::{compare_folded, compare_names};
use cfb::{Error, ErrorKind, PathComponent, Version};

#[test]
fn numbers_are_little_endian() {
    let s: [u8; 9] = [1, 2, 3, 4, 5, 6, 7, 8, 9];
    assert_eq!(get_u8(&s, 8), Ok(9));
    assert_eq!(get_u8(&s, 9), Err(Error::UnexpectedEof));
    assert_eq!(get_u16(&s, 7), Ok(0x0908));
    assert_eq!(get_u16(&s, 8), Err(Error::UnexpectedEof));
    assert_eq!(get_u32(&s, 1), Ok(0x05040302));
    assert_eq!(get_u32(&s, 6), Err(Error::UnexpectedEof));
    assert_eq!(get_u64(&s, 1), Ok(0x0908070605040302));
    assert_eq!(get_u64(&s, 2), Err(Error::UnexpectedEof));
    assert_eq!(get_u64(&s, 100), Err(Error::UnexpectedEof));
    assert_eq!(read_window(&s, 2, 3), [3, 4, 5]);
    assert_eq!(read_window(&s, 7, 3), [8, 9]);
    assert!(read_window(&s, u64::MAX, 3).is_empty());
}

#[test]
fn names_are_compared_by_length_first() {
    assert_eq!(compare_names("zz", "aaa"), Ordering::Less);
    assert_eq!(compare_names("aaa", "zz"), Ordering::Greater);
    assert_eq!(compare_names("abc", "abd"), Ordering::Less);
    assert_eq!(compare_names("abc", "ABC"), Ordering::Equal);
    assert_eq!(compare_names("abC", "ABd"), Ordering::Less);
    assert_eq!(compare_names("_", "a"), Ordering::Greater);
    assert_eq!(compare_names("_", "A"), Ordering::Greater);
    assert_eq!(compare_names("", ""), Ordering::Equal);
    assert_eq!(compare_names("\u{e4}", "\u{c4}"), Ordering::Equal);
    // Two code units against one.
    assert_eq!(compare_names("\u{1f600}", "z"), Ordering::Greater);
    assert_eq!(compare_names("\u{1f600}", "zz"), Ordering::Greater);
    assert_eq!(compare_names("\u{1f600}", "zzz"), Ordering::Less);
    // As many code units before, not after, the change to upper case.
    assert_eq!(compare_names("\u{df}", "ss"), Ordering::Less);
}

#[test]
fn folded_names_are_compared() {
    assert_eq!(compare_folded(1, "Z", 2, "AA"), Ordering::Less);
    assert_eq!(compare_folded(2, "AA", 1, "Z"), Ordering::Greater);
    assert_eq!(compare_folded(2, "AB", 2, "AB"), Ordering::Equal);
    assert_eq!(compare_folded(2, "A", 2, "AB"), Ordering::Less);
    assert_eq!(compare_folded(2, "AC", 2, "AB"), Ordering::Greater);
}

fn entry(name: &str, obj_type: u8, left: u32, right: u32, child: u32) -> DirEntry {
    DirEntry {
        sector: 1,
        name: name.to_string(),
        obj_type,
        left_sibling: left,
        right_sibling: right,
        child,
        start_sector: 0,
        stream_len: 0,
    }
}

const NONE: u32 = 0xffffffff;

fn small_directory() -> Vec<DirEntry> {
    vec![
        entry("Root Entry", 5, NONE, NONE, 2),
        entry("a", 2, NONE, NONE, NONE),
        entry("bb", 1, 1, 3, 4),
        entry("ccc", 2, NONE, NONE, NONE),
        entry("dd", 2, NONE, NONE, NONE),
    ]
}

#[test]
fn directory_is_searched() {
    let dir = small_directory();
    assert_eq!(find_entry(&dir, 2, "A"), Lookup::Found(1));
    assert_eq!(find_entry(&dir, 2, "bB"), Lookup::Found(2));
    assert_eq!(find_entry(&dir, 2, "ccc"), Lookup::Found(3));
    assert_eq!(find_entry(&dir, 2, "b"), Lookup::Missing);
    assert_eq!(find_entry(&dir, NONE, "b"), Lookup::Missing);
    assert_eq!(find_entry(&dir, 9, "b"), Lookup::Stuck);
    let names: Vec<String> = vec!["BB".to_string(), "DD".to_string()];
    assert_eq!(resolve_names(&dir, 0, &names), Lookup::Found(4));
    assert_eq!(resolve_names(&dir, 0, &Vec::new()), Lookup::Found(0));
    let wrong: Vec<String> = vec!["a".to_string(), "dd".to_string()];
    assert_eq!(resolve_names(&dir, 0, &wrong), Lookup::Missing);
}

#[test]
fn family_of_an_entry() {
    let dir = small_directory();
    assert_eq!(find_parent(&dir, 0), None);
    assert_eq!(find_parent(&dir, 1), Some(0));
    assert_eq!(find_parent(&dir, 2), Some(0));
    assert_eq!(find_parent(&dir, 3), Some(0));
    assert_eq!(find_parent(&dir, 4), Some(2));
    assert!(is_name_taken(&dir, 1, "CCC"));
    assert!(is_name_taken(&dir, 3, "bb"));
    assert!(!is_name_taken(&dir, 3, "ccc"));
    assert!(!is_name_taken(&dir, 3, "dd"));
    assert!(!is_name_taken(&dir, 4, "bb"));
    assert!(!is_name_taken(&dir, 0, "a"));
}

#[test]
fn entry_round_trip() {
    let mut written = entry("Caf\u{e9} \u{1f600}", 2, 5, 6, NONE);
    written.start_sector = 0x01020304;
    written.stream_len = 700;
    let mut out: Vec<u8> = vec![9u8];
    written.write(&mut out);
    assert_eq!(out.len(), 129);
    assert_eq!(out[1 + 64..1 + 67], [16, 0, 2]);
    for version in [Version::V3, Version::V4] {
        match DirEntry::read(&out[1..], 8, version) {
            Ok(read) => {
                assert_eq!(read.name, written.name);
                assert_eq!(read.obj_type, 2);
                assert_eq!(read.sector, 8);
                assert_eq!((read.left_sibling, read.right_sibling, read.child), (5, 6, NONE));
                assert_eq!((read.start_sector, read.stream_len), (0, 0));
            }
            Err(e) => panic!("{}", e.message()),
        }
    }
}

#[test]
fn entry_with_a_wrong_link() {
    let mut out: Vec<u8> = Vec::new();
    entry("x", 2, NONE, 0xfffffffb, NONE).write(&mut out);
    match DirEntry::read(&out, 1, Version::V3) {
        Ok(_) => panic!("read"),
        Err(e) => assert_eq!(e, Error::InvalidRightSibling(0xfffffffb)),
    }
}

#[test]
fn unallocated_entry() {
    let mut out: Vec<u8> = Vec::new();
    DirEntry::write_unallacated(&mut out);
    assert_eq!(out, vec![0u8; 128]);
    match DirEntry::read(&out, 1, Version::V3) {
        Ok(read) => {
            assert_eq!(read.name, "");
            assert_eq!(read.obj_type, 0);
        }
        Err(e) => panic!("{}", e.message()),
    }
}

#[test]
fn entry_fields() {
    let mut s: Vec<u8> = vec![0u8; 128];
    s[0] = b'x';
    s[2] = 0x00;
    s[3] = 0xd8;
    s[64] = 6;
    s[66] = 2;
    s[116] = 17;
    s[120..128].copy_from_slice(&0x1122334455667788u64.to_le_bytes());
    match DirEntry::read(&s, 1, Version::V3) {
        Ok(read) => {
            assert_eq!(read.name, "x\u{fffd}");
            assert_eq!(read.start_sector, 17);
            assert_eq!(read.stream_len, 0x55667788);
        }
        Err(e) => panic!("{}", e.message()),
    }
    match DirEntry::read(&s, 1, Version::V4) {
        Ok(read) => assert_eq!(read.stream_len, 0x1122334455667788),
        Err(e) => panic!("{}", e.message()),
    }
    match DirEntry::read(&s[0..127], 1, Version::V4) {
        Ok(_) => panic!("read"),
        Err(e) => assert_eq!(e, Error::UnexpectedEof),
    }
}

#[test]
fn paths() {
    assert_eq!(path_of_child("/", "a"), "/a");
    assert_eq!(path_of_child("/a", "b"), "/a/b");
    assert_eq!(path_of_child("/\u{e4}/b", "c:d"), "/\u{e4}/b/c:d");
    assert_eq!(path_of_parent("/a/b"), "/a");
    assert_eq!(path_of_parent("/a"), "/");
    assert_eq!(path_of_parent("/"), "/");
    assert_eq!(path_of_parent("a"), "/");
    assert_eq!(path_of_parent("\u{e4}/\u{1f600}/x"), "\u{e4}/\u{1f600}");
    let components: Vec<PathComponent> = vec![
        PathComponent::RootDir,
        PathComponent::Normal(Some("a".to_string())),
        PathComponent::Normal(Some("b".to_string())),
        PathComponent::ParentDir,
        PathComponent::CurDir,
        PathComponent::Normal(Some("c".to_string())),
    ];
    assert_eq!(names_for_path(&components), Ok(vec!["a".to_string(), "c".to_string()]));
    assert_eq!(full_path_for(&components), Ok("/a/c".to_string()));
    assert_eq!(full_path_for(&Vec::new()), Ok("/".to_string()));
    let above: Vec<PathComponent> = vec![PathComponent::ParentDir];
    assert_eq!(full_path_for(&above), Err(Error::InvalidPath));
}

#[test]
fn messages() {
    let expected: Vec<(Error, ErrorKind, &str)> = vec![
        (Error::UnexpectedEof, ErrorKind::UnexpectedEof, "failed to fill whole buffer"),
        (
            Error::WrongMagicNumber,
            ErrorKind::InvalidData,
            "Invalid CFB file (wrong magic number)",
        ),
        (
            Error::UnsupportedVersion(65535),
            ErrorKind::InvalidData,
            "CFB version 65535 is not supported",
        ),
        (Error::WrongByteOrderMark, ErrorKind::InvalidData, "Invalid CFB byte order mark"),
        (
            Error::WrongSectorShift { shift: 10, version: 4 },
            ErrorKind::InvalidData,
            "Incorrect sector shift (10) for CFB version 4",
        ),
        (
            Error::InvalidDifatSector(4294967291),
            ErrorKind::InvalidData,
            "Invalid sector index (4294967291) in DIFAT",
        ),
        (
            Error::WrongDifatLength { expected: 3, actual: 0 },
            ErrorKind::InvalidData,
            "Incorrect DIFAT chain length (file says 3, actual is 0)",
        ),
        (
            Error::InvalidNameLength(67),
            ErrorKind::InvalidData,
            "Invalid name length (67) in directory entry",
        ),
        (
            Error::NameNotTerminated,
            ErrorKind::InvalidData,
            "Directory entry name must be null-terminated",
        ),
        (
            Error::InvalidLeftSibling(4294967291),
            ErrorKind::InvalidData,
            "Invalid left sibling in directory entry (4294967291)",
        ),
        (
            Error::InvalidRightSibling(4294967292),
            ErrorKind::InvalidData,
            "Invalid right sibling in directory entry (4294967292)",
        ),
        (
            Error::InvalidChild(4294967293),
            ErrorKind::InvalidData,
            "Invalid child in directory entry (4294967293)",
        ),
        (Error::InvalidPath, ErrorKind::InvalidInput, "Invalid path"),
        (Error::NonUtf8Path, ErrorKind::InvalidInput, "Non UTF-8 path"),
        (Error::NotFound, ErrorKind::InvalidInput, "not found"),
        (
            Error::NotAStream("/a\"b".to_string()),
            ErrorKind::InvalidInput,
            "not a stream: \"/a\\\"b\"",
        ),
        (Error::RenameRoot, ErrorKind::InvalidInput, "Cannot rename the root entry"),
        (
            Error::NameTooLong(40),
            ErrorKind::InvalidInput,
            "New name cannot be more than 31 UTF-16 code units (was 40)",
        ),
        (
            Error::InvalidName,
            ErrorKind::InvalidInput,
            "New name cannot contain '/', '\\', ':', or '!'",
        ),
        (Error::NameTaken, ErrorKind::InvalidInput, "New name is the name of a sibling"),
        (
            Error::InvalidSeek { position: i64::MIN, len: u64::MAX },
            ErrorKind::InvalidInput,
            "Cannot seek to -9223372036854775808, stream length is 18446744073709551615",
        ),
    ];
    for (error, kind, text) in expected {
        assert_eq!(error.kind(), kind);
        assert_eq!(error.message(), text);
    }
    assert_eq!(not_a_stream_text("x"), "not a stream: x");
}
