use cfb::create::write_new_file;
use cfb::{CompoundFile, Error, ErrorKind, Opening, Phase, Version, ROOT_DIR_NAME};

#[test]
#[should_panic(expected = "Invalid CFB file (wrong magic number)")]
fn wrong_magic_number() {
    let file: Vec<u8> = vec![1u8, 2, 3, 4, 5, 6, 7, 8, 9, 10, 11, 12];
    match CompoundFile::open(file) {
        Ok(_) => {}
        Err(e) => panic!("{}", e.message()),
    }
}

#[test]
fn write_and_read_empty_compound_file() {
    let version = Version::V3;

    let mut comp = match CompoundFile::create_with_version(Vec::new(), Version::V3) {
        Ok(comp) => comp,
        Err(e) => panic!("create: {}", e.message()),
    };
    assert_eq!(comp.version(), version);
    {
        let root_storage = comp.root_storage();
        assert_eq!(root_storage.name(), ROOT_DIR_NAME);
    }

    let file = comp.into_inner();
    assert_eq!(file.len(), 3 * version.sector_len());
    let mut comp = match CompoundFile::open(file) {
        Ok(comp) => comp,
        Err(e) => panic!("open: {}", e.message()),
    };
    assert_eq!(comp.version(), version);
    {
        let root_storage = comp.root_storage();
        assert_eq!(root_storage.name(), ROOT_DIR_NAME);
    }
}

fn created(version: Version) -> CompoundFile<Vec<u8>> {
    match CompoundFile::create_with_version(Vec::new(), version) {
        Ok(comp) => comp,
        Err(e) => panic!("create: {}", e.message()),
    }
}

#[test]
fn create_uses_version_4() {
    let comp = match CompoundFile::create(Vec::new()) {
        Ok(comp) => comp,
        Err(e) => panic!("create: {}", e.message()),
    };
    assert_eq!(comp.version(), Version::V4);
    let file = comp.into_inner();
    assert_eq!(file.len(), 3 * 4096);
    let mut comp = match CompoundFile::open(file) {
        Ok(comp) => comp,
        Err(e) => panic!("open: {}", e.message()),
    };
    assert_eq!(comp.version(), Version::V4);
    assert_eq!(comp.root_storage().name(), "Root Entry");
    assert!(comp.root_storage().is_root());
}

#[test]
fn new_file_bytes() {
    let file = created(Version::V3).into_inner();
    assert_eq!(file[0..8], [0xd0, 0xcf, 0x11, 0xe0, 0xa1, 0xb1, 0x1a, 0xe1]);
    assert_eq!(file[8..24], [0u8; 16]);
    assert_eq!(file[24..34], [0x3e, 0, 3, 0, 0xfe, 0xff, 9, 0, 6, 0]);
    assert_eq!(file[34..40], [0u8; 6]);
    assert_eq!(file[40..52], [1, 0, 0, 0, 1, 0, 0, 0, 1, 0, 0, 0]);
    assert_eq!(file[52..60], [0, 0, 0, 0, 0, 16, 0, 0]);
    assert_eq!(file[60..68], [0xfe, 0xff, 0xff, 0xff, 0, 0, 0, 0]);
    assert_eq!(file[68..76], [0xfe, 0xff, 0xff, 0xff, 0, 0, 0, 0]);
    assert_eq!(file[76..80], [0, 0, 0, 0]);
    assert!(file[80..512].iter().all(|b| *b == 0xff));
    assert_eq!(file[512..520], [0xfd, 0xff, 0xff, 0xff, 0xfe, 0xff, 0xff, 0xff]);
    assert!(file[520..1024].iter().all(|b| *b == 0xff));
    assert_eq!(file[1024..1030], [b'R', 0, b'o', 0, b'o', 0]);
    assert_eq!(file[1024 + 64..1024 + 67], [22, 0, 5]);
    assert_eq!(file[1024 + 67], 0);
    assert!(file[1024 + 68..1024 + 80].iter().all(|b| *b == 0xff));
    assert!(file[1024 + 80..1536].iter().all(|b| *b == 0));
}

#[test]
fn new_file_header_is_padded_to_a_sector() {
    let file = created(Version::V4).into_inner();
    assert_eq!(file[26..28], [4, 0]);
    assert_eq!(file[30..32], [12, 0]);
    assert!(file[512..4096].iter().all(|b| *b == 0));
    assert_eq!(file[4096..4104], [0xfd, 0xff, 0xff, 0xff, 0xfe, 0xff, 0xff, 0xff]);
    assert_eq!(file[8192..8194], [b'R', 0]);
}

#[test]
fn new_file_is_appended() {
    let mut out: Vec<u8> = vec![7u8, 8];
    write_new_file(&mut out, Version::V3);
    assert_eq!(out.len(), 2 + 1536);
    assert_eq!(out[0..4], [7, 8, 0xd0, 0xcf]);
    assert_eq!(out[2..], created(Version::V3).into_inner()[..]);
}

#[test]
fn new_compound_file_is_empty() {
    let mut comp = created(Version::V3);
    let root = match comp.entry("/") {
        Ok(entry) => entry,
        Err(e) => panic!("{}", e.message()),
    };
    assert_eq!(root.name(), "Root Entry");
    assert_eq!(root.path(), "/");
    assert!(root.is_root() && root.is_storage() && !root.is_stream());
    assert_eq!(root.len(), 0);
    match comp.entry("/x") {
        Err(e) => assert_eq!(e, Error::NotFound),
        Ok(_) => panic!("found"),
    }
    match comp.read_storage("/") {
        Ok(mut entries) => assert!(entries.next().is_none()),
        Err(e) => panic!("{}", e.message()),
    }
    match comp.open_stream("/") {
        Err(e) => assert_eq!(e.message(), "not a stream: \"/\""),
        Ok(_) => panic!("opened"),
    }
    assert_eq!(comp.root_storage().path(), "/");
    assert!(comp.root_storage().parent().is_none());
}

#[test]
fn reopened_new_file_is_empty() {
    for version in [Version::V3, Version::V4] {
        let file = created(version).into_inner();
        let mut comp = match CompoundFile::open(file) {
            Ok(comp) => comp,
            Err(e) => panic!("{}", e.message()),
        };
        for path in ["/foo", "zzzzzzzzzzzz", "/Root Entry", "a:b", "/a/b"] {
            match comp.entry(path) {
                Err(e) => {
                    assert_eq!(e, Error::NotFound);
                    assert_eq!(e.kind(), ErrorKind::InvalidInput);
                }
                Ok(_) => panic!("found"),
            }
        }
        match comp.entry("/") {
            Ok(entry) => assert!(entry.is_root()),
            Err(e) => panic!("{}", e.message()),
        }
        match comp.read_storage("/") {
            Ok(mut entries) => {
                assert!(entries.can_go_on());
                assert!(entries.next().is_none());
            }
            Err(e) => panic!("{}", e.message()),
        }
        match comp.open_stream("/foo") {
            Err(e) => assert_eq!(e, Error::NotFound),
            Ok(_) => panic!("opened"),
        }
        assert!(comp.root_storage().parent().is_none());
    }
}

#[test]
fn root_has_one_path() {
    let comp = created(Version::V3);
    for path in ["/", "", ".", "foo/..", "/a/b/../.."] {
        match comp.entry(path) {
            Ok(entry) => assert_eq!(entry.path(), "/"),
            Err(e) => panic!("{}", e.message()),
        }
    }
}

#[test]
fn pieces_are_wanted_in_order() {
    let file = created(Version::V3).into_inner();
    let mut opening = Opening::new();
    let mut phases: Vec<Phase> = Vec::new();
    let mut reads: Vec<(u64, usize)> = Vec::new();
    loop {
        phases.push(opening.phase());
        match opening.next_read() {
            None => break,
            Some((at, len)) => {
                reads.push((at, len));
                let piece = &file[at as usize..at as usize + len];
                assert!(opening.feed(piece).is_ok());
            }
        }
    }
    assert_eq!(phases, vec![Phase::Header, Phase::Fat, Phase::Directory, Phase::Done]);
    assert_eq!(reads, vec![(0, 512), (512, 512), (1024, 512)]);
    let mut comp = opening.finish("backing file");
    assert_eq!(comp.version(), Version::V3);
    assert_eq!(comp.root_storage().name(), "Root Entry");
    assert_eq!(comp.into_inner(), "backing file");
}

#[test]
fn sectors_lie_behind_the_header() {
    let comp = CompoundFile::created((), Version::V4);
    assert_eq!(comp.seek_to_sector(0), 4096);
    assert_eq!(comp.seek_within_sector(2, 100), 3 * 4096 + 100);
    assert_eq!(comp.seek_to_sector(0xffffffff), 4096 * 0x1_0000_0000);
}

#[test]
fn versions() {
    assert_eq!(Version::from_number(2), None);
    assert_eq!(Version::from_number(3), Some(Version::V3));
    assert_eq!(Version::from_number(4), Some(Version::V4));
    assert_eq!(Version::from_number(5), None);
    assert_eq!(Version::V3.number(), 3);
    assert_eq!(Version::V4.number(), 4);
    assert_eq!(Version::V3.sector_shift(), 9);
    assert_eq!(Version::V4.sector_shift(), 12);
    assert_eq!(Version::V3.sector_len(), 512);
    assert_eq!(Version::V4.sector_len(), 4096);
    assert_eq!(Version::V3.stream_len_mask(), 0xffffffff);
    assert_eq!(Version::V4.stream_len_mask(), 0xffffffffffffffff);
}
