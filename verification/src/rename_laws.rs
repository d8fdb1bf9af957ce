//! What a file is opened to after an entry has been given a new name.

use vstd::prelude::*;

use crate::bytes::{u32_at, u64_at, window};
use crate::compound::written;
use crate::constants::{DIR_NAME_MAX_LEN, END_OF_CHAIN, HEADER_LEN};
use crate::dir_entry::{name_bytes, parse_entry, DirEntryView};
use crate::error::Error;
use crate::file_laws::lemma_name_at;
use crate::layout::{
    difat_chain, dir_chain, entries_per_sector, fat_sectors, numbers_per_sector, open_file,
    parse_header, sector_entries, sector_window, CompoundView, Walk,
};
use crate::storage::{name_position, renamed};
use crate::text::utf16;
use crate::version::{sector_len, sector_position, Version};

verus! {

/// An entry whose name and name length were overwritten is read back with the new
/// name and all else as it was.
pub proof fn law_renamed_entry(s: Seq<u8>, sector: u32, version: Version, name: Seq<char>)
    requires
        parse_entry(s, sector, version) is Ok,
        utf16(name).len() <= DIR_NAME_MAX_LEN,
    ensures
        parse_entry(name_bytes(name) + s.skip(66), sector, version) == Ok::<_, Error>(
            DirEntryView { name, ..parse_entry(s, sector, version)->Ok_0 },
        ),
{
    let s2 = name_bytes(name) + s.skip(66);
    assert forall|i: int| 66 <= i < s.len() implies #[trigger] s2[i] == s[i] by {
        assert(s.skip(66)[i - 66] == s[i]);
    }
    assert(s2.take(66) =~= name_bytes(name));
    lemma_name_at(s2, name);
    assert(u32_at(s2, 68) == u32_at(s, 68));
    assert(u32_at(s2, 72) == u32_at(s, 72));
    assert(u32_at(s2, 76) == u32_at(s, 76));
    assert(u32_at(s2, 116) == u32_at(s, 116));
    assert(u64_at(s2, 120) == u64_at(s, 120));
}

/// Whether two files are the same but for a name and its length.
spec fn same_but_name(file: Seq<u8>, file2: Seq<u8>, at: nat) -> bool {
    &&& file.len() == file2.len()
    &&& forall|i: int|
        0 <= i < file.len() && !(at <= i < at + 66) ==> #[trigger] file2[i] == file[i]
}

/// What does not reach into the name is the same.
proof fn lemma_window_apart(file: Seq<u8>, file2: Seq<u8>, name_at: nat, at: nat, len: nat)
    requires
        same_but_name(file, file2, name_at),
        at + len <= name_at || name_at + 66 <= at,
    ensures
        window(file2, at, len) == window(file, at, len),
{
    assert(window(file2, at, len) =~= window(file, at, len));
}

/// The other sectors are the same.
proof fn lemma_sector_apart(
    file: Seq<u8>,
    file2: Seq<u8>,
    version: Version,
    sector: u32,
    index: nat,
    other: u32,
)
    requires
        index < entries_per_sector(version),
        same_but_name(file, file2, sector_position(version, sector, index * 128)),
        other != sector,
    ensures
        sector_window(file2, version, other) == sector_window(file, version, other),
{
    let name_at = sector_position(version, sector, index * 128);
    let at = sector_position(version, other, 0);
    let len = sector_len(version);
    match version {
        Version::V3 => {},
        Version::V4 => {},
    }
    if other < sector {
        assert(at + len <= name_at);
    } else {
        assert(name_at + 66 <= at);
    }
    lemma_window_apart(file, file2, name_at, at, len);
}

/// Whether the chain of the DIFAT goes through a sector.
pub open spec fn difat_uses(
    file: Seq<u8>,
    version: Version,
    start: u32,
    sector: u32,
    fuel: nat,
) -> bool
    decreases fuel,
{
    let s = sector_window(file, version, start);
    &&& start != END_OF_CHAIN
    &&& fuel > 0
    &&& {
        ||| start == sector
        ||| difat_uses(
            file,
            version,
            u32_at(s, 4 * (numbers_per_sector(version) - 1)),
            sector,
            (fuel - 1) as nat,
        )
    }
}

/// The DIFAT is the same.
proof fn lemma_same_difat(
    file: Seq<u8>,
    file2: Seq<u8>,
    version: Version,
    sector: u32,
    index: nat,
    start: u32,
    fuel: nat,
)
    requires
        index < entries_per_sector(version),
        same_but_name(file, file2, sector_position(version, sector, index * 128)),
        !difat_uses(file, version, start, sector, fuel),
        difat_chain(file, version, start, fuel) is Done,
    ensures
        difat_chain(file2, version, start, fuel) == difat_chain(file, version, start, fuel),
    decreases fuel,
{
    if start != END_OF_CHAIN {
        lemma_sector_apart(file, file2, version, sector, index, start);
        let s = sector_window(file, version, start);
        lemma_same_difat(
            file,
            file2,
            version,
            sector,
            index,
            u32_at(s, 4 * (numbers_per_sector(version) - 1)),
            (fuel - 1) as nat,
        );
    }
}

/// The FAT is the same.
proof fn lemma_same_fat(
    file: Seq<u8>,
    file2: Seq<u8>,
    version: Version,
    sector: u32,
    index: nat,
    difat: Seq<u32>,
    i: nat,
)
    requires
        index < entries_per_sector(version),
        same_but_name(file, file2, sector_position(version, sector, index * 128)),
        !difat.contains(sector),
    ensures
        fat_sectors(file2, version, difat, i) == fat_sectors(file, version, difat, i),
    decreases difat.len() - i,
{
    if i < difat.len() {
        assert(difat.contains(difat[i as int]));
        lemma_sector_apart(file, file2, version, sector, index, difat[i as int]);
        lemma_same_fat(file, file2, version, sector, index, difat, i + 1);
    }
}

/// Entries of which that at the given index of a sector has a new name.
spec fn with_name(
    entries: Seq<DirEntryView>,
    version: Version,
    sector: u32,
    index: nat,
    name: Seq<char>,
) -> Seq<DirEntryView> {
    Seq::new(
        entries.len(),
        |i: int|
            if entries[i].sector == sector && i as nat % entries_per_sector(version) == index {
                DirEntryView { name, ..entries[i] }
            } else {
                entries[i]
            },
    )
}

/// The entries of a sector, all of which lie in it.
proof fn lemma_sector_entries_len(s: Seq<u8>, sector: u32, version: Version, i: nat)
    requires
        i <= entries_per_sector(version),
        sector_entries(s, sector, version, i) is Ok,
    ensures
        sector_entries(s, sector, version, i)->Ok_0.len() == entries_per_sector(version) - i,
        forall|j: int|
            0 <= j < entries_per_sector(version) - i ==> (
            #[trigger] sector_entries(s, sector, version, i)->Ok_0[j]).sector == sector,
        forall|j: int|
            0 <= j < entries_per_sector(version) - i ==> parse_entry(
                window(s, 128 * (i + j) as nat, 128),
                sector,
                version,
            ) == Ok::<_, Error>(#[trigger] sector_entries(s, sector, version, i)->Ok_0[j]),
    decreases entries_per_sector(version) - i,
{
    if i < entries_per_sector(version) {
        lemma_sector_entries_len(s, sector, version, i + 1);
        let entries = sector_entries(s, sector, version, i)->Ok_0;
        let rest = sector_entries(s, sector, version, i + 1)->Ok_0;
        assert(forall|j: int| 0 < j < entries.len() ==> entries[j] == rest[j - 1]);
    }
}

/// In the sector of the entry just its name is new.
proof fn lemma_renamed_sector(
    s: Seq<u8>,
    s2: Seq<u8>,
    sector: u32,
    version: Version,
    index: nat,
    name: Seq<char>,
    i: nat,
)
    requires
        index < entries_per_sector(version),
        i <= entries_per_sector(version),
        same_but_name(s, s2, index * 128),
        sector_entries(s, sector, version, i) is Ok,
        window(s2, 128 * index, 128) == name_bytes(name) + window(s, 128 * index, 128).skip(66),
        parse_entry(window(s, 128 * index, 128), sector, version) is Ok,
        utf16(name).len() <= DIR_NAME_MAX_LEN,
    ensures
        sector_entries(s2, sector, version, i) is Ok,
        sector_entries(s2, sector, version, i)->Ok_0 == Seq::new(
            (entries_per_sector(version) - i) as nat,
            |j: int|
                if i + j == index {
                    DirEntryView { name, ..sector_entries(s, sector, version, i)->Ok_0[j] }
                } else {
                    sector_entries(s, sector, version, i)->Ok_0[j]
                },
        ),
    decreases entries_per_sector(version) - i,
{
    lemma_sector_entries_len(s, sector, version, i);
    if i < entries_per_sector(version) {
        lemma_sector_entries_len(s, sector, version, i + 1);
        lemma_renamed_sector(s, s2, sector, version, index, name, i + 1);
        let entries = sector_entries(s, sector, version, i)->Ok_0;
        let rest = sector_entries(s, sector, version, i + 1)->Ok_0;
        let slot = window(s, 128 * i, 128);
        assert(entries[0] == parse_entry(slot, sector, version)->Ok_0);
        assert(forall|j: int| 0 < j < entries.len() ==> entries[j] == rest[j - 1]);
        if i == index {
            law_renamed_entry(slot, sector, version, name);
        } else {
            lemma_window_apart(s, s2, index * 128, 128 * i, 128);
        }
        let entries2 = sector_entries(s2, sector, version, i)->Ok_0;
        let rest2 = sector_entries(s2, sector, version, i + 1)->Ok_0;
        assert(forall|j: int| 0 < j < entries2.len() ==> entries2[j] == rest2[j - 1]);
    } else {
        assert(sector_entries(s2, sector, version, i)->Ok_0 =~= Seq::empty());
    }
}

/// A sector whose entries can all be read is a whole one.
proof fn lemma_whole_sector(s: Seq<u8>, sector: u32, version: Version)
    requires
        s.len() <= sector_len(version),
        sector_entries(s, sector, version, 0) is Ok,
    ensures
        s.len() == sector_len(version),
{
    let n = entries_per_sector(version);
    lemma_sector_entries_len(s, sector, version, 0);
    match version {
        Version::V3 => {},
        Version::V4 => {},
    }
    let last = sector_entries(s, sector, version, 0)->Ok_0[n - 1];
    assert(parse_entry(window(s, 128 * (0 + (n - 1)) as nat, 128), sector, version) == Ok::<
        _,
        Error,
    >(last));
}

/// How an index lies to one that is a sector further.
proof fn lemma_next_sector_index(version: Version, i: nat)
    ensures
        ({
            let n = entries_per_sector(version);
            &&& n == 4 || n == 32
            &&& 128 * n == sector_len(version)
            &&& (i + n) % n == i % n
            &&& (i + n) / n == i / n + 1
            &&& ((i + n) / n) * n == (i / n) * n + n
            &&& i < n ==> i % n == i && i / n == 0
        }),
{
    match version {
        Version::V3 => {},
        Version::V4 => {},
    }
}

/// An entry of a whole sector lies in the file.
proof fn lemma_slot(file: Seq<u8>, version: Version, sector: u32, index: nat)
    requires
        index < entries_per_sector(version),
        sector_window(file, version, sector).len() == sector_len(version),
    ensures
        window(sector_window(file, version, sector), 128 * index, 128) == window(
            file,
            sector_position(version, sector, index * 128),
            128,
        ),
{
    lemma_next_sector_index(version, index);
    let at = sector_position(version, sector, 0);
    assert(sector_position(version, sector, index * 128) == at + 128 * index);
    assert(window(sector_window(file, version, sector), 128 * index, 128) =~= window(
        file,
        at + 128 * index,
        128,
    ));
}

/// New names are given to the entries of a sector and to those behind them.
proof fn lemma_with_name_append(
    entries: Seq<DirEntryView>,
    rest: Seq<DirEntryView>,
    version: Version,
    sector: u32,
    index: nat,
    name: Seq<char>,
)
    requires
        entries.len() == entries_per_sector(version),
    ensures
        with_name(entries + rest, version, sector, index, name) == with_name(
            entries,
            version,
            sector,
            index,
            name,
        ) + with_name(rest, version, sector, index, name),
{
    let all = entries + rest;
    let n = entries_per_sector(version);
    let left = with_name(all, version, sector, index, name);
    let right = with_name(entries, version, sector, index, name) + with_name(
        rest,
        version,
        sector,
        index,
        name,
    );
    assert forall|i: int| 0 <= i < all.len() implies left[i] == right[i] by {
        if i >= n {
            lemma_next_sector_index(version, (i - n) as nat);
            assert(all[i] == rest[i - n]);
        }
    }
    assert(left =~= right);
}

/// What the two files must have in common for the name of an entry to be new.
spec fn is_renamed(
    file: Seq<u8>,
    file2: Seq<u8>,
    version: Version,
    sector: u32,
    index: nat,
    name: Seq<char>,
) -> bool {
    let at = sector_position(version, sector, index * 128);
    let slot = window(file, at, 128);
    &&& index < entries_per_sector(version)
    &&& same_but_name(file, file2, at)
    &&& window(file2, at, 128) == name_bytes(name) + slot.skip(66)
    &&& parse_entry(slot, sector, version) is Ok
    &&& utf16(name).len() <= DIR_NAME_MAX_LEN
}

/// In a sector of the directory just the name of the entry is new.
proof fn lemma_renamed_window(
    file: Seq<u8>,
    file2: Seq<u8>,
    version: Version,
    start: u32,
    sector: u32,
    index: nat,
    name: Seq<char>,
)
    requires
        is_renamed(file, file2, version, sector, index, name),
        sector_entries(sector_window(file, version, start), start, version, 0) is Ok,
    ensures
        sector_entries(sector_window(file2, version, start), start, version, 0) == Ok::<_, Error>(
            with_name(
                sector_entries(sector_window(file, version, start), start, version, 0)->Ok_0,
                version,
                sector,
                index,
                name,
            ),
        ),
{
    let s = sector_window(file, version, start);
    let s2 = sector_window(file2, version, start);
    let entries = sector_entries(s, start, version, 0)->Ok_0;
    lemma_sector_entries_len(s, start, version, 0);
    if start == sector {
        lemma_whole_sector(s, start, version);
        lemma_next_sector_index(version, index);
        lemma_slot(file, version, sector, index);
        lemma_slot(file2, version, sector, index);
        assert(same_but_name(s, s2, index * 128));
        lemma_renamed_sector(s, s2, sector, version, index, name, 0);
    } else {
        lemma_sector_apart(file, file2, version, sector, index, start);
    }
    let entries2 = sector_entries(s2, start, version, 0)->Ok_0;
    let expected = with_name(entries, version, sector, index, name);
    assert forall|i: int| 0 <= i < entries.len() implies entries2[i] == expected[i] by {
        lemma_next_sector_index(version, i as nat);
    }
    assert(entries2 =~= expected);
}

/// In the chain of the directory just the name of the entry is new.
proof fn lemma_renamed_chain(
    file: Seq<u8>,
    file2: Seq<u8>,
    version: Version,
    fat: Seq<u32>,
    start: u32,
    fuel: nat,
    sector: u32,
    index: nat,
    name: Seq<char>,
)
    requires
        is_renamed(file, file2, version, sector, index, name),
        dir_chain(file, version, fat, start, fuel) is Done,
    ensures
        dir_chain(file2, version, fat, start, fuel) == Walk::Done(
            with_name(
                dir_chain(file, version, fat, start, fuel)->Done_0,
                version,
                sector,
                index,
                name,
            ),
        ),
    decreases fuel,
{
    let all = dir_chain(file, version, fat, start, fuel)->Done_0;
    if start == END_OF_CHAIN {
        assert(with_name(all, version, sector, index, name) =~= Seq::empty());
    } else {
        let s = sector_window(file, version, start);
        let entries = sector_entries(s, start, version, 0)->Ok_0;
        let next = fat[start as int];
        let rest = dir_chain(file, version, fat, next, (fuel - 1) as nat)->Done_0;
        lemma_renamed_chain(
            file,
            file2,
            version,
            fat,
            next,
            (fuel - 1) as nat,
            sector,
            index,
            name,
        );
        lemma_renamed_window(file, file2, version, start, sector, index, name);
        lemma_sector_entries_len(s, start, version, 0);
        lemma_with_name_append(entries, rest, version, sector, index, name);
    }
}

/// More fuel does not change a chain that ends.
proof fn lemma_chain_more(
    file: Seq<u8>,
    version: Version,
    fat: Seq<u32>,
    start: u32,
    n: nat,
    m: nat,
)
    requires
        dir_chain(file, version, fat, start, n) is Done,
        n <= m,
    ensures
        dir_chain(file, version, fat, start, m) == dir_chain(file, version, fat, start, n),
    decreases n,
{
    if start != END_OF_CHAIN {
        lemma_chain_more(file, version, fat, fat[start as int], (n - 1) as nat, (m - 1) as nat);
    }
}

/// The rest of a chain is the chain of the sector that it starts with.  What
/// lies in it can be read from there.
proof fn lemma_chain_from(
    file: Seq<u8>,
    version: Version,
    fat: Seq<u32>,
    start: u32,
    fuel: nat,
    i: int,
)
    requires
        dir_chain(file, version, fat, start, fuel) is Done,
        0 <= i < dir_chain(file, version, fat, start, fuel)->Done_0.len(),
    ensures
        ({
            let all = dir_chain(file, version, fat, start, fuel)->Done_0;
            let n = entries_per_sector(version);
            let steps = i as nat / n;
            &&& steps <= fuel
            &&& dir_chain(file, version, fat, all[i].sector, (fuel - steps) as nat) == Walk::Done(
                all.skip((steps * n) as int),
            )
            &&& parse_entry(
                window(
                    file,
                    sector_position(version, all[i].sector, (i as nat % n) * 128),
                    128,
                ),
                all[i].sector,
                version,
            ) == Ok::<_, Error>(all[i])
        }),
    decreases fuel,
{
    let all = dir_chain(file, version, fat, start, fuel)->Done_0;
    let n = entries_per_sector(version);
    let s = sector_window(file, version, start);
    let entries = sector_entries(s, start, version, 0)->Ok_0;
    let rest = dir_chain(file, version, fat, fat[start as int], (fuel - 1) as nat)->Done_0;
    lemma_sector_entries_len(s, start, version, 0);
    if i < n {
        lemma_next_sector_index(version, i as nat);
        lemma_whole_sector(s, start, version);
        lemma_slot(file, version, start, i as nat);
        assert(all[i] == entries[i]);
        assert(all.skip(0) =~= all);
        assert(128 * (0 + i) as nat == 128 * i as nat);
    } else {
        let j = (i - n) as nat;
        lemma_next_sector_index(version, j);
        lemma_chain_from(file, version, fat, fat[start as int], (fuel - 1) as nat, i - n);
        assert(all[i] == rest[i - n]);
        assert(rest.skip(((j / n) * n) as int) =~= all.skip(((j / n) * n + n) as int));
    }
}

/// A chain that ends goes through no sector twice.
proof fn lemma_sector_once(
    file: Seq<u8>,
    version: Version,
    fat: Seq<u32>,
    start: u32,
    fuel: nat,
    i: int,
    j: int,
)
    requires
        dir_chain(file, version, fat, start, fuel) is Done,
        0 <= i < dir_chain(file, version, fat, start, fuel)->Done_0.len(),
        0 <= j < dir_chain(file, version, fat, start, fuel)->Done_0.len(),
        dir_chain(file, version, fat, start, fuel)->Done_0[i].sector == dir_chain(
            file,
            version,
            fat,
            start,
            fuel,
        )->Done_0[j].sector,
        i as nat % entries_per_sector(version) == j as nat % entries_per_sector(version),
    ensures
        i == j,
{
    let all = dir_chain(file, version, fat, start, fuel)->Done_0;
    let n = entries_per_sector(version);
    lemma_chain_from(file, version, fat, start, fuel, i);
    lemma_chain_from(file, version, fat, start, fuel, j);
    let a = i as nat / n;
    let b = j as nat / n;
    let low = (fuel - if a < b { b } else { a }) as nat;
    let high = (fuel - if a < b { a } else { b }) as nat;
    lemma_chain_more(file, version, fat, all[i].sector, low, high);
    match version {
        Version::V3 => {},
        Version::V4 => {},
    }
    assert(all.skip((a * n) as int).len() == all.skip((b * n) as int).len());
}

/// The entry is the only one that has a new name.
proof fn lemma_only_one_renamed(
    file: Seq<u8>,
    v: CompoundView,
    start: u32,
    id: u32,
    name: Seq<char>,
)
    requires
        dir_chain(file, v.version, v.fat, start, v.fat.len()) == Walk::Done(v.directory),
        id < v.directory.len(),
    ensures
        with_name(
            v.directory,
            v.version,
            v.directory[id as int].sector,
            id as nat % entries_per_sector(v.version),
            name,
        ) == renamed(v, id, name).directory,
{
    let sector = v.directory[id as int].sector;
    let n = entries_per_sector(v.version);
    let index = id as nat % n;
    assert forall|i: int|
        0 <= i < v.directory.len() && i != id && v.directory[i].sector
            == sector implies i as nat % n != index by {
        if i as nat % n == index {
            lemma_sector_once(file, v.version, v.fat, start, v.fat.len(), i, id as int);
        }
    }
    assert(with_name(v.directory, v.version, sector, index, name) =~= renamed(
        v,
        id,
        name,
    ).directory);
}

/// A file in which an entry was given a new name is opened to what the file was
/// before, but for that name: where the sector of the entry is neither one of
/// the FAT nor one of the DIFAT.
#[verifier::spinoff_prover]
#[verifier::rlimit(30)]
pub proof fn law_rename_reopens(file: Seq<u8>, v: CompoundView, id: u32, name: Seq<char>)
    requires
        open_file(file) == Walk::Done(v),
        id < v.directory.len(),
        utf16(name).len() <= DIR_NAME_MAX_LEN,
        !v.difat.contains(v.directory[id as int].sector),
        !difat_uses(
            file,
            v.version,
            parse_header(window(file, 0, HEADER_LEN as nat))->Ok_0.first_difat_sector,
            v.directory[id as int].sector,
            file.len(),
        ),
    ensures
        open_file(written(file, name_position(v, id), name_bytes(name))) == Walk::Done(
            renamed(v, id, name),
        ),
{
    let version = v.version;
    let header = parse_header(window(file, 0, HEADER_LEN as nat))->Ok_0;
    let sector = v.directory[id as int].sector;
    let n = entries_per_sector(version);
    let index = id as nat % n;
    let at = sector_position(version, sector, index * 128);
    assert(at == name_position(v, id));
    match version {
        Version::V3 => {},
        Version::V4 => {},
    }
    lemma_chain_from(file, version, v.fat, header.first_dir_sector, v.fat.len(), id as int);
    assert(window(file, at, 128).len() >= 128);
    let file2 = written(file, at, name_bytes(name));
    assert(same_but_name(file, file2, at));
    assert(window(file2, at, 128) =~= name_bytes(name) + window(file, at, 128).skip(66));
    assert(is_renamed(file, file2, version, sector, index, name));
    lemma_window_apart(file, file2, at, 0, HEADER_LEN as nat);
    lemma_same_difat(
        file,
        file2,
        version,
        sector,
        index,
        header.first_difat_sector,
        file.len(),
    );
    lemma_same_fat(file, file2, version, sector, index, v.difat, 0);
    lemma_renamed_chain(
        file,
        file2,
        version,
        v.fat,
        header.first_dir_sector,
        v.fat.len(),
        sector,
        index,
        name,
    );
    lemma_only_one_renamed(file, v, header.first_dir_sector, id, name);
}

/// The chain of the DIFAT goes through the same sectors.
proof fn lemma_same_difat_sectors(
    file: Seq<u8>,
    file2: Seq<u8>,
    version: Version,
    sector: u32,
    index: nat,
    start: u32,
    other: u32,
    fuel: nat,
)
    requires
        index < entries_per_sector(version),
        same_but_name(file, file2, sector_position(version, sector, index * 128)),
        !difat_uses(file, version, start, sector, fuel),
    ensures
        difat_uses(file2, version, start, other, fuel) == difat_uses(
            file,
            version,
            start,
            other,
            fuel,
        ),
    decreases fuel,
{
    if start != END_OF_CHAIN && fuel > 0 {
        lemma_sector_apart(file, file2, version, sector, index, start);
        let s = sector_window(file, version, start);
        lemma_same_difat_sectors(
            file,
            file2,
            version,
            sector,
            index,
            u32_at(s, 4 * (numbers_per_sector(version) - 1)),
            other,
            (fuel - 1) as nat,
        );
    }
}

/// A new name leaves the header as it is, and the chain of the DIFAT goes
/// through the same sectors: so names can be given one after the other.
pub proof fn law_rename_keeps_layout(
    file: Seq<u8>,
    v: CompoundView,
    id: u32,
    name: Seq<char>,
    other: u32,
)
    requires
        open_file(file) == Walk::Done(v),
        id < v.directory.len(),
        !difat_uses(
            file,
            v.version,
            parse_header(window(file, 0, HEADER_LEN as nat))->Ok_0.first_difat_sector,
            v.directory[id as int].sector,
            file.len(),
        ),
    ensures
        ({
            let file2 = written(file, name_position(v, id), name_bytes(name));
            let first = parse_header(window(file, 0, HEADER_LEN as nat))->Ok_0.first_difat_sector;
            &&& file2.len() == file.len()
            &&& parse_header(window(file2, 0, HEADER_LEN as nat)) == parse_header(
                window(file, 0, HEADER_LEN as nat),
            )
            &&& difat_uses(file2, v.version, first, other, file.len()) == difat_uses(
                file,
                v.version,
                first,
                other,
                file.len(),
            )
        }),
{
    let version = v.version;
    let header = parse_header(window(file, 0, HEADER_LEN as nat))->Ok_0;
    let sector = v.directory[id as int].sector;
    let index = id as nat % entries_per_sector(version);
    let at = sector_position(version, sector, index * 128);
    assert(at == name_position(v, id));
    match version {
        Version::V3 => {},
        Version::V4 => {},
    }
    lemma_chain_from(file, version, v.fat, header.first_dir_sector, v.fat.len(), id as int);
    assert(window(file, at, 128).len() >= 128);
    let file2 = written(file, at, name_bytes(name));
    assert(same_but_name(file, file2, at));
    lemma_window_apart(file, file2, at, 0, HEADER_LEN as nat);
    lemma_same_difat_sectors(
        file,
        file2,
        version,
        sector,
        index,
        header.first_difat_sector,
        other,
        file.len(),
    );
}

} // verus!
