use cfb::{CompoundFile, Error, ErrorKind, PathComponent, SeekFrom, Storage, Version};

const END: u32 = 0xfffffffe;
const FREE: u32 = 0xffffffff;
const NONE: u32 = 0xffffffff;

fn put16(file: &mut Vec<u8>, at: usize, n: u16) {
    file[at..at + 2].copy_from_slice(&n.to_le_bytes());
}

fn put32(file: &mut Vec<u8>, at: usize, n: u32) {
    file[at..at + 4].copy_from_slice(&n.to_le_bytes());
}

fn put_entry(
    file: &mut Vec<u8>,
    at: usize,
    name: &str,
    obj_type: u8,
    links: [u32; 3],
    start: u32,
    len: u64,
) {
    let units: Vec<u16> = name.encode_utf16().collect();
    for (i, unit) in units.iter().enumerate() {
        put16(file, at + 2 * i, *unit);
    }
    put16(file, at + 64, 2 * (units.len() as u16 + 1));
    file[at + 66] = obj_type;
    put32(file, at + 68, links[0]);
    put32(file, at + 72, links[1]);
    put32(file, at + 76, links[2]);
    put32(file, at + 116, start);
    file[at + 120..at + 128].copy_from_slice(&len.to_le_bytes());
}

// Sectors: 0 FAT, 1 and 4 directory, 2 and 3 stream "bb", 5 stream "a/inner".
fn sample() -> Vec<u8> {
    let mut file: Vec<u8> = vec![0u8; 7 * 512];
    file[0..8].copy_from_slice(&[0xd0, 0xcf, 0x11, 0xe0, 0xa1, 0xb1, 0x1a, 0xe1]);
    put16(&mut file, 24, 0x3e);
    put16(&mut file, 26, 3);
    put16(&mut file, 28, 0xfffe);
    put16(&mut file, 30, 9);
    put16(&mut file, 32, 6);
    put32(&mut file, 44, 1);
    put32(&mut file, 48, 1);
    put32(&mut file, 56, 4096);
    put32(&mut file, 60, END);
    put32(&mut file, 68, END);
    put32(&mut file, 76, 0);
    for i in 1..109 {
        put32(&mut file, 76 + 4 * i, FREE);
    }
    let fat: [u32; 6] = [0xfffffffd, 4, 3, END, END, END];
    for i in 0..128 {
        put32(&mut file, 512 + 4 * i, if i < 6 { fat[i] } else { FREE });
    }
    put_entry(&mut file, 1024, "Root Entry", 5, [NONE, NONE, 1], END, 0);
    put_entry(&mut file, 1152, "bb", 2, [2, 3, NONE], 2, 700);
    put_entry(&mut file, 1280, "a", 1, [NONE, NONE, 4], 0, 0);
    put_entry(&mut file, 1408, "ccc", 2, [NONE, NONE, NONE], END, 0);
    put_entry(&mut file, 2560, "inner", 2, [NONE, NONE, NONE], 5, 10);
    for i in 1..4 {
        put_entry(&mut file, 2560 + 128 * i, "", 0, [NONE, NONE, NONE], 0, 0);
    }
    for i in 0..700 {
        file[1536 + i] = (i % 251) as u8;
    }
    for i in 0..10 {
        file[3072 + i] = 100 + i as u8;
    }
    file
}

fn opened(file: Vec<u8>) -> CompoundFile<Vec<u8>> {
    match CompoundFile::open(file) {
        Ok(comp) => comp,
        Err(e) => panic!("open: {}", e.message()),
    }
}

fn open_error(file: Vec<u8>) -> Error {
    match CompoundFile::try_open(file) {
        Some(Err(e)) => e,
        Some(Ok(_)) => panic!("opened"),
        None => panic!("endless"),
    }
}

fn entry_error(comp: &CompoundFile<Vec<u8>>, path: &str) -> Error {
    match comp.entry(path) {
        Err(e) => e,
        Ok(_) => panic!("found"),
    }
}

#[test]
fn entries_are_found_by_path() {
    let comp = opened(sample());
    assert_eq!(comp.version(), Version::V3);
    for path in ["/bb", "bb", "./bb", "/a/../bb", "//bb", "/bb/"] {
        match comp.entry(path) {
            Ok(entry) => {
                assert_eq!(entry.name(), "bb");
                assert_eq!(entry.path(), "/bb");
                assert_eq!(entry.len(), 700);
                assert!(entry.is_stream() && !entry.is_storage() && !entry.is_root());
            }
            Err(e) => panic!("{}: {}", path, e.message()),
        }
    }
    // Names are the same in upper and lower case.
    match comp.entry("A/../Bb") {
        Ok(entry) => assert_eq!((entry.name(), entry.path()), ("bb", "/Bb")),
        Err(e) => panic!("{}", e.message()),
    }
    match comp.entry("a/./inner") {
        Ok(entry) => {
            assert_eq!(entry.name(), "inner");
            assert_eq!(entry.len(), 10);
            let copy = entry.clone();
            assert_eq!(copy.path(), "/a/inner");
        }
        Err(e) => panic!("{}", e.message()),
    }
    match comp.entry("a") {
        Ok(entry) => assert!(entry.is_storage() && !entry.is_root()),
        Err(e) => panic!("{}", e.message()),
    }
    match comp.entry("a/..") {
        Ok(entry) => assert!(entry.is_root()),
        Err(e) => panic!("{}", e.message()),
    }
}

#[test]
fn wrong_paths() {
    let comp = opened(sample());
    assert_eq!(entry_error(&comp, "/nope"), Error::NotFound);
    assert_eq!(entry_error(&comp, "/a/bb"), Error::NotFound);
    assert_eq!(entry_error(&comp, "/bb/x"), Error::NotFound);
    assert_eq!(entry_error(&comp, ".."), Error::InvalidPath);
    assert_eq!(entry_error(&comp, "/a/../../bb"), Error::InvalidPath);
    let prefix: Vec<PathComponent> = vec![PathComponent::Prefix];
    assert_eq!(comp.stream_id_for_path(&prefix), Err(Error::InvalidPath));
    let not_utf8: Vec<PathComponent> = vec![PathComponent::RootDir, PathComponent::Normal(None)];
    assert_eq!(comp.stream_id_for_path(&not_utf8), Err(Error::NonUtf8Path));
    let inner: Vec<PathComponent> = vec![
        PathComponent::Normal(Some("bb".to_string())),
        PathComponent::RootDir,
        PathComponent::CurDir,
        PathComponent::Normal(Some("A".to_string())),
        PathComponent::Normal(Some("Inner".to_string())),
    ];
    assert!(comp.can_look_up(&inner));
    assert_eq!(comp.stream_id_for_path(&inner), Ok(4));
}

#[test]
fn storage_is_listed_in_order() {
    let comp = opened(sample());
    let mut entries = match comp.read_storage("/") {
        Ok(entries) => entries,
        Err(e) => panic!("{}", e.message()),
    };
    let mut found: Vec<(String, String)> = Vec::new();
    while entries.can_go_on() {
        match entries.next() {
            Some(entry) => {
                // What is listed is found by the path that it is listed with.
                match comp.entry(entry.path()) {
                    Ok(same) => assert_eq!(same.name(), entry.name()),
                    Err(e) => panic!("{}", e.message()),
                }
                found.push((entry.name().to_string(), entry.path().to_string()));
            }
            None => break,
        }
    }
    let expected = [("a", "/a"), ("bb", "/bb"), ("ccc", "/ccc")];
    assert_eq!(found.len(), 3);
    for i in 0..3 {
        assert_eq!(found[i].0, expected[i].0);
        assert_eq!(found[i].1, expected[i].1);
    }
    assert!(entries.next().is_none());
    match comp.read_storage("a") {
        Ok(mut entries) => {
            match entries.next() {
                Some(entry) => assert_eq!(entry.path(), "/a/inner"),
                None => panic!("empty"),
            }
            assert!(entries.next().is_none());
        }
        Err(e) => panic!("{}", e.message()),
    }
    match comp.read_storage("/nope") {
        Err(e) => assert_eq!(e, Error::NotFound),
        Ok(_) => panic!("found"),
    }
}

#[test]
fn stream_is_read_sector_by_sector() {
    let mut comp = opened(sample());
    let mut stream = match comp.open_stream("/bb") {
        Ok(stream) => stream,
        Err(e) => panic!("{}", e.message()),
    };
    assert_eq!(stream.len(), 700);
    let mut buf: Vec<u8> = vec![0xee; 1000];
    assert_eq!(stream.next_span(1000), (1536, 512));
    assert_eq!(stream.read(&mut buf), Ok(512));
    for i in 0..512 {
        assert_eq!(buf[i], (i % 251) as u8);
    }
    assert!(buf[512..].iter().all(|b| *b == 0xee));
    assert_eq!(stream.current_sector, 3);
    assert_eq!(stream.next_span(1000), (2048, 188));
    assert_eq!(stream.read(&mut buf[0..3]), Ok(3));
    assert_eq!(buf[0..3], [(512 % 251) as u8, (513 % 251) as u8, (514 % 251) as u8]);
    assert_eq!(stream.read(&mut buf), Ok(185));
    assert_eq!(buf[0], (515 % 251) as u8);
    assert_eq!(buf[184], (699 % 251) as u8);
    assert_eq!(stream.read(&mut buf), Ok(0));
    assert_eq!(stream.offset_from_start, 700);
}

#[test]
fn stream_is_read_to_its_end() {
    let mut comp = opened(sample());
    for want in [1usize, 7, 100, 512, 4096] {
        let mut stream = match comp.open_stream("bb") {
            Ok(stream) => stream,
            Err(e) => panic!("{}", e.message()),
        };
        let mut all: Vec<u8> = Vec::new();
        let mut buf: Vec<u8> = vec![0u8; want];
        loop {
            match stream.read(&mut buf) {
                Ok(0) => break,
                Ok(n) => all.extend_from_slice(&buf[0..n]),
                Err(e) => panic!("{}", e.message()),
            }
        }
        assert_eq!(all.len(), 700);
        for i in 0..700 {
            assert_eq!(all[i], (i % 251) as u8);
        }
    }
}

#[test]
fn stream_is_read_with_buffers_of_all_sizes() {
    let mut comp = opened(sample());
    let mut stream = match comp.open_stream("bb") {
        Ok(stream) => stream,
        Err(e) => panic!("{}", e.message()),
    };
    let mut all: Vec<u8> = Vec::new();
    for want in [3usize, 600, 1, 50, 1, 4096] {
        let mut buf: Vec<u8> = vec![0u8; want];
        match stream.read(&mut buf) {
            Ok(n) => all.extend_from_slice(&buf[0..n]),
            Err(e) => panic!("{}", e.message()),
        }
    }
    assert_eq!(all.len(), 700);
    for i in 0..700 {
        assert_eq!(all[i], (i % 251) as u8);
    }
}

#[test]
fn seeking_returns_the_new_place() {
    let mut comp = opened(sample());
    let mut stream = match comp.open_stream("/bb") {
        Ok(stream) => stream,
        Err(e) => panic!("{}", e.message()),
    };
    assert_eq!(stream.seek(SeekFrom::Start(1)), Ok(1));
    assert!(stream.can_seek(SeekFrom::Start(600)));
    assert_eq!(stream.seek(SeekFrom::Start(600)), Ok(600));
    assert_eq!(stream.offset_from_start, 600);
    assert_eq!(stream.offset_within_sector, 88);
    let mut buf: [u8; 2] = [0, 0];
    assert_eq!(stream.read(&mut buf), Ok(2));
    assert_eq!(buf, [(600 % 251) as u8, (601 % 251) as u8]);
    assert_eq!(stream.seek(SeekFrom::Current(-602)), Ok(0));
    assert_eq!(stream.read(&mut buf), Ok(2));
    assert_eq!(buf, [0, 1]);
    assert_eq!(stream.seek(SeekFrom::End(-1)), Ok(699));
    assert_eq!(stream.read(&mut buf), Ok(1));
    assert_eq!(buf[0], (699 % 251) as u8);
    assert_eq!(stream.seek(SeekFrom::Current(0)), Ok(700));
    assert_eq!(stream.read(&mut buf), Ok(0));
    assert_eq!(stream.seek(SeekFrom::End(0)), Ok(700));
    assert_eq!(stream.seek(SeekFrom::Start(512)), Ok(512));
    assert_eq!(stream.next_span(5), (2048, 5));
}

#[test]
fn seeking_outside_the_stream_fails() {
    let mut comp = opened(sample());
    let mut stream = match comp.open_stream("/a/inner") {
        Ok(stream) => stream,
        Err(e) => panic!("{}", e.message()),
    };
    assert_eq!(stream.seek(SeekFrom::Start(4)), Ok(4));
    assert_eq!(
        stream.seek(SeekFrom::Start(11)),
        Err(Error::InvalidSeek { position: 11, len: 10 })
    );
    assert_eq!(
        stream.seek(SeekFrom::Current(-5)),
        Err(Error::InvalidSeek { position: -1, len: 10 })
    );
    assert_eq!(
        stream.seek(SeekFrom::End(1)),
        Err(Error::InvalidSeek { position: 11, len: 10 })
    );
    assert_eq!(
        stream.seek(SeekFrom::Start(u64::MAX)),
        Err(Error::InvalidSeek { position: -1, len: 10 })
    );
    assert_eq!(stream.offset_from_start, 4);
    assert!(!stream.can_seek(SeekFrom::End(i64::MAX)));
    let mut buf: [u8; 8] = [0; 8];
    assert_eq!(stream.read(&mut buf), Ok(6));
    assert_eq!(buf, [104, 105, 106, 107, 108, 109, 0, 0]);
}

#[test]
fn short_file_gives_short_reads() {
    let mut file = sample();
    file.truncate(3072 + 4);
    let mut comp = opened(file);
    let mut stream = match comp.open_stream("/a/inner") {
        Ok(stream) => stream,
        Err(e) => panic!("{}", e.message()),
    };
    let mut buf: [u8; 8] = [0; 8];
    assert_eq!(stream.read(&mut buf), Ok(4));
    assert_eq!(buf, [100, 101, 102, 103, 0, 0, 0, 0]);
    assert_eq!(stream.read(&mut buf), Ok(0));
}

#[test]
fn broken_chain_is_noticed() {
    let mut file = sample();
    put32(&mut file, 512 + 4 * 2, 77);
    let mut comp = opened(file);
    let mut stream = match comp.open_stream("/bb") {
        Ok(stream) => stream,
        Err(e) => panic!("{}", e.message()),
    };
    assert!(stream.can_seek(SeekFrom::Start(511)));
    assert!(stream.can_seek(SeekFrom::Start(512)));
    assert!(stream.can_advance(512));
    stream.advance(512);
    assert_eq!(stream.current_sector, 77);
    let mut file = sample();
    put32(&mut file, 512 + 4 * 2, END);
    let mut comp = opened(file);
    let stream = match comp.open_stream("/bb") {
        Ok(stream) => stream,
        Err(e) => panic!("{}", e.message()),
    };
    assert!(!stream.can_advance(512));
    assert!(stream.can_advance(511));
}

#[test]
fn only_streams_are_opened() {
    let mut comp = opened(sample());
    match comp.open_stream("/a") {
        Err(e) => {
            assert_eq!(e, Error::NotAStream("/a".to_string()));
            assert_eq!(e.kind(), ErrorKind::InvalidInput);
            assert_eq!(e.message(), "not a stream: \"/a\"");
        }
        Ok(_) => panic!("opened"),
    }
    match comp.open_stream("/nope") {
        Err(e) => assert_eq!(e, Error::NotFound),
        Ok(_) => panic!("opened"),
    }
    match comp.try_open_stream("/ccc") {
        Some(Ok(stream)) => assert_eq!(stream.len(), 0),
        _ => panic!("not opened"),
    }
}

#[test]
fn searches_in_a_damaged_directory() {
    let mut file = sample();
    put32(&mut file, 1152 + 68, 1);
    put32(&mut file, 1408 + 72, 99);
    let mut comp = opened(file);
    // A link back, and a link that leads out of the directory.
    assert!(comp.try_entry("/a").is_none());
    assert!(comp.try_entry("/dddd").is_none());
    assert!(comp.try_open_stream("/a").is_none());
    match comp.try_entry("/ccc") {
        Some(Ok(entry)) => assert_eq!(entry.name(), "ccc"),
        _ => panic!("not found"),
    }
    match comp.try_read_storage("/") {
        Some(Ok(entries)) => assert!(!entries.can_go_on()),
        _ => panic!("not found"),
    }
    assert!(comp.try_read_storage("/a").is_none());
}

// The first entry is a storage here, so it can be given a name.
fn renamable() -> Vec<u8> {
    let mut file = sample();
    file[1024 + 66] = 1;
    file
}

#[test]
fn set_name_writes_the_name() {
    let mut comp = opened(renamable());
    {
        let mut storage = comp.root_storage();
        assert!(storage.has_entry());
        match storage.plan_rename("Other Name") {
            Ok((at, bytes)) => {
                assert_eq!(at, 1024);
                assert_eq!(bytes.len(), 66);
                assert_eq!(bytes[0..4], [b'O', 0, b't', 0]);
                assert_eq!(bytes[20..64], [0u8; 44]);
                assert_eq!(bytes[64..66], [22, 0]);
            }
            Err(e) => panic!("{}", e.message()),
        }
        assert_eq!(storage.set_name("Other Name"), Ok(()));
        assert_eq!(storage.name(), "Other Name");
        assert_eq!(storage.path(), "/");
    }
    let file = comp.into_inner();
    let mut expected = renamable();
    for (i, c) in "Other Name".chars().enumerate() {
        expected[1024 + 2 * i] = c as u8;
    }
    assert_eq!(file, expected);
    let mut comp = opened(file);
    assert_eq!(comp.root_storage().name(), "Other Name");
    match comp.entry("/bb") {
        Ok(entry) => assert_eq!(entry.len(), 700),
        Err(e) => panic!("{}", e.message()),
    }
}

#[test]
fn names_of_any_length_are_kept_in_the_file() {
    let longest = "y".repeat(31);
    for name in ["x", "", "Other Names", "\u{1f600} \u{e4}", longest.as_str()] {
        let mut comp = opened(renamable());
        assert_eq!(comp.root_storage().set_name("In Between"), Ok(()));
        assert_eq!(comp.root_storage().set_name(name), Ok(()));
        assert_eq!(comp.root_storage().name(), name);
        let mut again = opened(comp.into_inner());
        assert_eq!(again.root_storage().name(), name);
        match again.entry("/a/inner") {
            Ok(entry) => assert_eq!(entry.len(), 10),
            Err(e) => panic!("{}", e.message()),
        }
    }
}

#[test]
fn set_name_refuses_names() {
    let mut comp = opened(sample());
    assert_eq!(comp.root_storage().set_name("x"), Err(Error::RenameRoot));
    let mut file = renamable();
    put32(&mut file, 1024 + 68, 2);
    let before = file.clone();
    let mut comp = opened(file);
    {
        let mut storage = comp.root_storage();
        let long = "x".repeat(32);
        assert_eq!(storage.set_name(&long), Err(Error::NameTooLong(32)));
        for name in ["a/b", "a\\b", "a:b", "a!b"] {
            assert_eq!(storage.set_name(name), Err(Error::InvalidName));
        }
        assert_eq!(storage.set_name("A"), Err(Error::NameTaken));
        assert_eq!(storage.name(), "Root Entry");
        assert_eq!(storage.set_name("root entry"), Ok(()));
        assert_eq!(storage.set_name("Root Entry"), Ok(()));
        assert_eq!(storage.set_name(&"x".repeat(31)), Ok(()));
        assert_eq!(storage.set_name("Root Entry"), Ok(()));
    }
    assert_eq!(comp.into_inner(), before);
}

#[test]
fn storage_within_another() {
    let mut comp = opened(sample());
    {
        let mut storage = Storage { comp: &mut comp, path: "/a".to_string(), stream_id: 2 };
        assert_eq!(storage.name(), "a");
        assert!(!storage.is_root());
        assert_eq!(storage.set_name("BB"), Err(Error::NameTaken));
        assert_eq!(storage.set_name("ccc"), Err(Error::NameTaken));
        assert_eq!(storage.set_name("inner"), Ok(()));
        assert_eq!(storage.set_name("z"), Ok(()));
        match storage.parent() {
            Some(parent) => {
                assert!(parent.is_root());
                assert_eq!(parent.path(), "/");
                assert_eq!(parent.stream_id, 0);
            }
            None => panic!("no parent"),
        }
    }
    {
        let inner = Storage { comp: &mut comp, path: "/a/inner".to_string(), stream_id: 4 };
        match inner.parent() {
            Some(parent) => {
                assert_eq!(parent.name(), "z");
                assert_eq!(parent.path(), "/a");
            }
            None => panic!("no parent"),
        }
    }
    let file = comp.into_inner();
    assert_eq!(file[1280..1284], [b'z', 0, 0, 0]);
    let mut comp = opened(file);
    let lost = Storage { comp: &mut comp, path: "/lost".to_string(), stream_id: 5 };
    match lost.parent() {
        Some(parent) => assert_eq!((parent.path(), parent.stream_id), ("/", 0)),
        None => panic!("no parent"),
    }
}

#[test]
fn damaged_headers() {
    assert_eq!(open_error(Vec::new()), Error::UnexpectedEof);
    assert_eq!(open_error(sample()[0..27].to_vec()), Error::UnexpectedEof);
    assert_eq!(open_error(sample()[0..500].to_vec()), Error::UnexpectedEof);
    let mut file = sample();
    file[0] = 0;
    assert_eq!(open_error(file), Error::WrongMagicNumber);
    let mut file = sample();
    put16(&mut file, 26, 5);
    assert_eq!(open_error(file), Error::UnsupportedVersion(5));
    let mut file = sample();
    put16(&mut file, 28, 0xfeff);
    assert_eq!(open_error(file), Error::WrongByteOrderMark);
    let mut file = sample();
    put16(&mut file, 30, 12);
    assert_eq!(open_error(file), Error::WrongSectorShift { shift: 12, version: 3 });
    let mut file = sample();
    put32(&mut file, 80, 0xfffffffb);
    assert_eq!(open_error(file), Error::InvalidDifatSector(0xfffffffb));
    let mut file = sample();
    put32(&mut file, 72, 5);
    assert_eq!(open_error(file), Error::WrongDifatLength { expected: 5, actual: 0 });
    let mut file = sample();
    put32(&mut file, 76, 500);
    assert_eq!(open_error(file), Error::UnexpectedEof);
}

#[test]
fn damaged_entries() {
    let mut file = sample();
    put16(&mut file, 1152 + 64, 66);
    assert_eq!(open_error(file), Error::InvalidNameLength(66));
    let mut file = sample();
    put16(&mut file, 1152 + 64, 5);
    assert_eq!(open_error(file), Error::InvalidNameLength(5));
    let mut file = sample();
    put16(&mut file, 1152 + 64, 4);
    assert_eq!(open_error(file), Error::NameNotTerminated);
    let mut file = sample();
    put32(&mut file, 1152 + 68, 0xfffffffb);
    assert_eq!(open_error(file), Error::InvalidLeftSibling(0xfffffffb));
    let mut file = sample();
    put32(&mut file, 1152 + 72, 0xfffffffc);
    assert_eq!(open_error(file), Error::InvalidRightSibling(0xfffffffc));
    let mut file = sample();
    put32(&mut file, 1152 + 76, 0xfffffffd);
    assert_eq!(open_error(file), Error::InvalidChild(0xfffffffd));
    let mut file = sample();
    file.truncate(2560 + 300);
    assert_eq!(open_error(file), Error::UnexpectedEof);
}

#[test]
fn difat_goes_on_in_a_sector() {
    let mut file = sample();
    put32(&mut file, 68, 6);
    put32(&mut file, 72, 1);
    file.resize(8 * 512, 0);
    put32(&mut file, 7 * 512 + 508, END);
    let mut comp = opened(file.clone());
    match comp.open_stream("/bb") {
        Ok(stream) => assert_eq!(stream.len(), 700),
        Err(e) => panic!("{}", e.message()),
    }
    put32(&mut file, 72, 2);
    assert_eq!(open_error(file), Error::WrongDifatLength { expected: 2, actual: 1 });
}

#[test]
fn endless_chains_are_noticed() {
    let mut file = sample();
    put32(&mut file, 512 + 4, 1);
    assert!(CompoundFile::try_open(file).is_none());
    let mut file = sample();
    file.resize(8 * 512, 0);
    put32(&mut file, 48, 6);
    assert!(CompoundFile::try_open(file).is_none());
    let mut file = sample();
    put32(&mut file, 68, 6);
    file.resize(8 * 512, 0);
    put32(&mut file, 7 * 512 + 508, 6);
    assert!(CompoundFile::try_open(file).is_none());
}

#[test]
fn root_may_be_missing() {
    let mut file = sample();
    put32(&mut file, 48, END);
    let mut comp = opened(file);
    assert!(!comp.root_storage().has_entry());
    assert!(comp.try_entry("/").is_none());
}
