//! What the bytes of a file are when it is opened, place by place.

use vstd::prelude::*;

use crate::bytes::{u16_at, u32_at, u64_at, window};
use crate::constants::MAGIC_NUMBER;
use crate::dir_entry::{
    field_units, is_link, name_unit_count, parse_entry, parse_name, DirEntryView,
};
use crate::error::Error;
use crate::file_laws::{law_difat_fuel, law_directory_fuel};
use crate::layout::{
    difat_chain, dir_chain, fat_sectors, header_difat, open_file, open_tables, parse_header,
    sector_entries, sector_numbers, sector_window, trimmed, CompoundView, Walk,
};
use crate::open::{
    is_opening, is_staged, law_opening_step, open_rest, opening_start, opening_step, wanted,
    OpeningView,
};
use crate::text::utf16_lossy;
use crate::version::{sector_len, sector_position, stream_len, Version};

verus! {

/// The number that two bytes are, the low one first.
pub open spec fn le16(s: Seq<u8>, at: int) -> int {
    s[at] + 256 * s[at + 1]
}

/// The number that four bytes are, the lowest one first.
pub open spec fn le32(s: Seq<u8>, at: int) -> int {
    s[at] + 256 * s[at + 1] + 65536 * s[at + 2] + 16777216 * s[at + 3]
}

/// The number that eight bytes are, the lowest one first.
pub open spec fn le64(s: Seq<u8>, at: int) -> int {
    le32(s, at) + 4294967296 * le32(s, at + 4)
}

/// How many bytes a sector has.
pub open spec fn sector_size(version: Version) -> int {
    match version {
        Version::V3 => 512,
        Version::V4 => 4096,
    }
}

/// Where a byte of a sector lies in the file: the header takes the place of one
/// sector.
pub open spec fn place(version: Version, sector: u32, offset: int) -> int {
    match version {
        Version::V3 => 512 * sector + 512 + offset,
        Version::V4 => 4096 * sector + 4096 + offset,
    }
}

/// Whether a file has the whole of a sector.
pub open spec fn has_sector(file: Seq<u8>, version: Version, sector: u32) -> bool {
    place(version, sector, sector_size(version)) <= file.len()
}

/// Whether a file starts with the header of a version, with so many sectors of
/// the FAT named in it.
pub open spec fn is_header(file: Seq<u8>, version: Version, named: int) -> bool {
    &&& 0 <= named <= 109
    &&& file.len() >= 76 + 4 * named + if named < 109 {
        4int
    } else {
        0
    }
    &&& file[0] == 0xd0 && file[1] == 0xcf && file[2] == 0x11 && file[3] == 0xe0
    &&& file[4] == 0xa1 && file[5] == 0xb1 && file[6] == 0x1a && file[7] == 0xe1
    &&& match version {
        Version::V3 => le16(file, 26) == 3 && le16(file, 30) == 9,
        Version::V4 => le16(file, 26) == 4 && le16(file, 30) == 12,
    }
    &&& le16(file, 28) == 0xfffe
    &&& forall|i: int| 0 <= i < named ==> #[trigger] le32(file, 76 + 4 * i) <= 0xfffffffa
    &&& named < 109 ==> le32(file, 76 + 4 * named) == 0xffffffff
}

/// Whether sectors are the chain of the DIFAT: the header names the first of
/// them and their number, and the last number of each is the next.
pub open spec fn is_difat_chain(file: Seq<u8>, version: Version, sectors: Seq<u32>) -> bool {
    &&& le32(file, 72) == sectors.len()
    &&& is_linked_by_last(file, version, le32(file, 68), sectors)
}

/// Whether sectors are a chain that starts with `first`, and in which the last
/// number of each sector is the next.
pub open spec fn is_linked_by_last(
    file: Seq<u8>,
    version: Version,
    first: int,
    sectors: Seq<u32>,
) -> bool {
    &&& first == if sectors.len() > 0 {
        sectors[0] as int
    } else {
        0xfffffffe
    }
    &&& forall|i: int|
        0 <= i < sectors.len() ==> {
            &&& #[trigger] sectors[i] != 0xfffffffe
            &&& has_sector(file, version, sectors[i])
            &&& le32(file, place(version, sectors[i], sector_size(version) - 4)) == if i + 1
                < sectors.len() {
                sectors[i + 1] as int
            } else {
                0xfffffffe
            }
        }
}

/// Whether numbers are the DIFAT: those that the header names, and behind them
/// all numbers but the last of each sector of its chain.
pub open spec fn is_difat(
    file: Seq<u8>,
    version: Version,
    named: int,
    sectors: Seq<u32>,
    difat: Seq<u32>,
) -> bool {
    let n = sector_size(version) / 4 - 1;
    &&& difat.len() == named + n * sectors.len()
    &&& forall|i: int| 0 <= i < named ==> #[trigger] difat[i] == le32(file, 76 + 4 * i)
    &&& forall|i: int|
        named <= i < difat.len() ==> #[trigger] difat[i] == le32(
            file,
            place(version, sectors[(i - named) / n], 4 * ((i - named) % n)),
        )
}

/// Whether numbers are the FAT: those of the sectors that the DIFAT names, one
/// sector after the other, without the free ones at the end.
pub open spec fn is_fat(file: Seq<u8>, version: Version, difat: Seq<u32>, fat: Seq<u32>) -> bool {
    let n = sector_size(version) / 4;
    &&& forall|i: int| 0 <= i < difat.len() ==> has_sector(file, version, #[trigger] difat[i])
    &&& fat.len() <= n * difat.len()
    &&& forall|k: int|
        0 <= k < fat.len() ==> #[trigger] fat[k] == le32(
            file,
            place(version, difat[k / n], 4 * (k % n)),
        )
    &&& forall|i: int, k: int|
        0 <= i < difat.len() && 0 <= k < n && i * n + k >= fat.len() ==> #[trigger] le32(
            file,
            place(version, difat[i], 4 * k),
        ) == 0xffffffff
    &&& fat.len() > 0 ==> fat[fat.len() - 1] != 0xffffffff
}

/// Whether a number is that of an entry, or stands for none.
pub open spec fn is_entry_number(n: int) -> bool {
    n == 0xffffffff || 0 <= n <= 0xfffffffa
}

/// How many code units the name has whose length, in bytes and with the zero at
/// its end, is `len`.
pub open spec fn unit_count(len: int) -> int {
    if len == 0 {
        0
    } else {
        len / 2 - 1
    }
}

/// Whether an entry is the one whose bytes start at a place.
pub open spec fn is_entry_at(
    s: Seq<u8>,
    at: int,
    version: Version,
    sector: u32,
    entry: DirEntryView,
) -> bool {
    let len = le16(s, at + 64);
    &&& at + 128 <= s.len()
    &&& len <= 64
    &&& len % 2 == 0
    &&& le16(s, at + 2 * unit_count(len)) == 0
    &&& entry.name == utf16_lossy(
        Seq::new(unit_count(len) as nat, |i: int| le16(s, at + 2 * i) as u16),
    )
    &&& entry.sector == sector
    &&& entry.obj_type == s[at + 66]
    &&& entry.left_sibling == le32(s, at + 68)
    &&& entry.right_sibling == le32(s, at + 72)
    &&& entry.child == le32(s, at + 76)
    &&& is_entry_number(le32(s, at + 68))
    &&& is_entry_number(le32(s, at + 72))
    &&& is_entry_number(le32(s, at + 76))
    &&& entry.start_sector == le32(s, at + 116)
    &&& match version {
        Version::V3 => entry.stream_len == le32(s, at + 120),
        Version::V4 => entry.stream_len == le64(s, at + 120),
    }
}

/// Whether sectors are a chain of the FAT that starts with `first`.
pub open spec fn is_linked_by_fat(fat: Seq<u32>, first: int, sectors: Seq<u32>) -> bool {
    &&& first == if sectors.len() > 0 {
        sectors[0] as int
    } else {
        0xfffffffe
    }
    &&& forall|i: int|
        0 <= i < sectors.len() ==> {
            &&& #[trigger] sectors[i] != 0xfffffffe
            &&& sectors[i] < fat.len()
            &&& fat[sectors[i] as int] == if i + 1 < sectors.len() {
                sectors[i + 1] as int
            } else {
                0xfffffffe
            }
        }
}

/// Whether entries are those of the given sectors, one sector after the other.
pub open spec fn is_directory(
    file: Seq<u8>,
    version: Version,
    sectors: Seq<u32>,
    directory: Seq<DirEntryView>,
) -> bool {
    let n = sector_size(version) / 128;
    &&& directory.len() == n * sectors.len()
    &&& forall|k: int|
        0 <= k < directory.len() ==> is_entry_at(
            file,
            place(version, sectors[k / n], 128 * (k % n)),
            version,
            sectors[k / n],
            #[trigger] directory[k],
        )
}

/// Whether this is what the bytes of a file say, with so many sectors of the FAT
/// named in the header, and these sectors in the chains of the DIFAT and of the
/// directory.
pub open spec fn describes(
    file: Seq<u8>,
    v: CompoundView,
    named: int,
    difat_sectors: Seq<u32>,
    dir_sectors: Seq<u32>,
) -> bool {
    &&& is_header(file, v.version, named)
    &&& is_difat_chain(file, v.version, difat_sectors)
    &&& is_difat(file, v.version, named, difat_sectors, v.difat)
    &&& is_fat(file, v.version, v.difat, v.fat)
    &&& is_linked_by_fat(v.fat, le32(file, 48), dir_sectors)
    &&& is_directory(file, v.version, dir_sectors, v.directory)
}

/// Which block of `n` a number is in, and where.
proof fn lemma_block(n: int, i: int, k: int)
    requires
        0 <= k < n,
    ensures
        (i * n + k) / n == i,
        (i * n + k) % n == k,
{
    vstd::arithmetic::div_mod::lemma_fundamental_div_mod_converse(i * n + k, n, i, k);
}

/// How a number lies to the one a block of `n` before it.
proof fn lemma_block_before(n: int, k: int)
    requires
        n > 0,
    ensures
        (k - n) / n == k / n - 1,
        (k - n) % n == k % n,
        k == k / n * n + k % n,
        0 <= k % n < n,
{
    vstd::arithmetic::div_mod::lemma_fundamental_div_mod(k, n);
    vstd::arithmetic::div_mod::lemma_mod_bound(k, n);
    assert(n * (k / n) == k / n * n) by (nonlinear_arith);
    assert((k / n - 1) * n == k / n * n - n) by (nonlinear_arith);
    lemma_block(n, k / n - 1, k % n);
}

/// How many numbers one block more has.
proof fn lemma_blocks(n: int, blocks: int)
    ensures
        n * blocks == n + n * (blocks - 1),
        n * blocks == blocks * n,
        n * 0 == 0,
{
    assert(n * blocks == n + n * (blocks - 1)) by (nonlinear_arith);
    assert(n * blocks == blocks * n) by (nonlinear_arith);
}

/// How a number in a piece of a file is read.
proof fn lemma_number_in_window(file: Seq<u8>, at: nat, len: nat, j: int)
    requires
        0 <= j,
        j + 4 <= len,
        at + len <= file.len(),
    ensures
        u32_at(window(file, at, len), j) == le32(file, at + j),
        0 <= le32(file, at + j) <= 0xffffffff,
{
}

/// Where a sector starts.
proof fn lemma_sector_start(version: Version, sector: u32)
    ensures
        sector_position(version, sector, 0) == place(version, sector, 0),
{
    let len = sector_len(version);
    let next: nat = 1 + sector as nat;
    match version {
        Version::V3 => {
            assert(len * next == 512 * next) by (nonlinear_arith)
                requires
                    len == 512,
            ;
        },
        Version::V4 => {
            assert(len * next == 4096 * next) by (nonlinear_arith)
                requires
                    len == 4096,
            ;
        },
    }
}

/// The bytes of a sector that the file has.
proof fn lemma_sector(file: Seq<u8>, version: Version, sector: u32)
    ensures
        sector_window(file, version, sector).len() >= sector_size(version) <==> has_sector(
            file,
            version,
            sector,
        ),
        has_sector(file, version, sector) ==> sector_window(file, version, sector)
            == file.subrange(
            place(version, sector, 0),
            place(version, sector, sector_size(version)),
        ),
        has_sector(file, version, sector) ==> forall|j: int|
            0 <= j <= sector_size(version) - 4 ==> #[trigger] u32_at(
                sector_window(file, version, sector),
                j,
            ) == le32(file, place(version, sector, j)),
{
    let at = place(version, sector, 0) as nat;
    let len = sector_size(version) as nat;
    let s = sector_window(file, version, sector);
    lemma_sector_start(version, sector);
    assert(s == window(file, at, len));
    assert(place(version, sector, sector_size(version)) == at + len);
    if has_sector(file, version, sector) {
        assert(s == file.subrange(at as int, (at + len) as int));
        assert forall|j: int| 0 <= j <= sector_size(version) - 4 implies #[trigger] u32_at(s, j)
            == le32(file, place(version, sector, j)) by {
            assert(place(version, sector, j) == at + j);
            lemma_number_in_window(file, at, len, j);
        }
    }
}

/// The numbers of the sectors that the DIFAT names from one on, before the free
/// ones are taken off.
proof fn lemma_fat_numbers(file: Seq<u8>, version: Version, difat: Seq<u32>, i: nat)
    requires
        i <= difat.len(),
        fat_sectors(file, version, difat, i) is Ok,
    ensures
        ({
            let n = sector_size(version) / 4;
            let fat = fat_sectors(file, version, difat, i)->Ok_0;
            &&& fat.len() == n * (difat.len() - i)
            &&& forall|k: int|
                0 <= k < fat.len() ==> #[trigger] fat[k] == le32(
                    file,
                    place(version, difat[i + k / n], 4 * (k % n)),
                )
            &&& forall|j: int|
                i <= j < difat.len() ==> has_sector(file, version, #[trigger] difat[j])
        }),
    decreases difat.len() - i,
{
    let n = sector_size(version) / 4;
    let fat = fat_sectors(file, version, difat, i)->Ok_0;
    lemma_blocks(n, difat.len() - i);
    if i < difat.len() {
        let rest = fat_sectors(file, version, difat, i + 1)->Ok_0;
        let s = sector_window(file, version, difat[i as int]);
        lemma_fat_numbers(file, version, difat, i + 1);
        lemma_sector(file, version, difat[i as int]);
        assert forall|k: int| 0 <= k < fat.len() implies #[trigger] fat[k] == le32(
            file,
            place(version, difat[i + k / n], 4 * (k % n)),
        ) by {
            if k < n {
                lemma_block(n, 0, k);
                assert(fat[k] == u32_at(s, 4 * k));
            } else {
                lemma_block_before(n, k);
                assert(fat[k] == rest[k - n]);
            }
        }
    }
}

/// The numbers of a table up to the free ones at the end.
proof fn lemma_trimmed_prefix(fat: Seq<u32>)
    ensures
        trimmed(fat).len() <= fat.len(),
        trimmed(fat) == fat.take(trimmed(fat).len() as int),
        forall|k: int| trimmed(fat).len() <= k < fat.len() ==> #[trigger] fat[k] == 0xffffffff,
        trimmed(fat).len() > 0 ==> trimmed(fat).last() != 0xffffffff,
    decreases fat.len(),
{
    if fat.len() > 0 && fat.last() == 0xffffffff {
        let front = fat.drop_last();
        lemma_trimmed_prefix(front);
        assert(trimmed(fat) =~= fat.take(trimmed(fat).len() as int));
        assert forall|k: int| trimmed(fat).len() <= k < fat.len() implies #[trigger] fat[k]
            == 0xffffffff by {
            if k < front.len() {
                assert(front[k] == 0xffffffff);
            }
        }
    } else {
        assert(fat.take(fat.len() as int) =~= fat);
    }
}

/// The FAT of a file that is opened lies in the sectors that the DIFAT names, in
/// their order.
proof fn lemma_fat_described(file: Seq<u8>, version: Version, difat: Seq<u32>)
    requires
        fat_sectors(file, version, difat, 0) is Ok,
    ensures
        is_fat(file, version, difat, trimmed(fat_sectors(file, version, difat, 0)->Ok_0)),
{
    let n = sector_size(version) / 4;
    let all = fat_sectors(file, version, difat, 0)->Ok_0;
    let fat = trimmed(all);
    lemma_fat_numbers(file, version, difat, 0);
    lemma_trimmed_prefix(all);
    match version {
        Version::V3 => {},
        Version::V4 => {},
    }
    assert forall|k: int| 0 <= k < fat.len() implies #[trigger] fat[k] == le32(
        file,
        place(version, difat[k / n], 4 * (k % n)),
    ) by {
        assert(fat[k] == all[k]);
    }
    assert forall|i: int, k: int|
        0 <= i < difat.len() && 0 <= k < n && i * n + k >= fat.len() implies #[trigger] le32(
        file,
        place(version, difat[i], 4 * k),
    ) == 0xffffffff by {
        let m = i * n + k;
        lemma_block(n, i, k);
        assert(m < n * difat.len()) by (nonlinear_arith)
            requires
                m == i * n + k,
                i + 1 <= difat.len(),
                0 <= k < n,
        ;
        assert(all[m] == 0xffffffff);
    }
}

/// Where the sectors of the FAT are all there, they can be read.
proof fn lemma_fat_can_be_read(file: Seq<u8>, version: Version, difat: Seq<u32>, i: nat)
    requires
        forall|j: int| 0 <= j < difat.len() ==> has_sector(file, version, #[trigger] difat[j]),
    ensures
        fat_sectors(file, version, difat, i) is Ok,
    decreases difat.len() - i,
{
    if i < difat.len() {
        lemma_sector(file, version, difat[i as int]);
        lemma_fat_can_be_read(file, version, difat, i + 1);
    }
}

/// A table has one form without the free numbers at its end.
proof fn lemma_trimmed_is(all: Seq<u32>, fat: Seq<u32>)
    requires
        fat.len() <= all.len(),
        forall|k: int| 0 <= k < fat.len() ==> #[trigger] fat[k] == all[k],
        forall|k: int| fat.len() <= k < all.len() ==> #[trigger] all[k] == 0xffffffff,
        fat.len() > 0 ==> fat.last() != 0xffffffff,
    ensures
        trimmed(all) == fat,
{
    lemma_trimmed_prefix(all);
    let t = trimmed(all);
    if t.len() < fat.len() {
        assert(all[fat.len() - 1] == 0xffffffff);
        assert(fat[fat.len() - 1] == all[fat.len() - 1]);
    } else if t.len() > fat.len() {
        assert(t[t.len() - 1] == all[t.len() - 1]);
    }
    assert(t =~= fat);
}

/// Numbers that are the FAT are read as the FAT.
proof fn lemma_described_fat(file: Seq<u8>, version: Version, difat: Seq<u32>, fat: Seq<u32>)
    requires
        is_fat(file, version, difat, fat),
    ensures
        fat_sectors(file, version, difat, 0) is Ok,
        trimmed(fat_sectors(file, version, difat, 0)->Ok_0) == fat,
{
    let n = sector_size(version) / 4;
    lemma_fat_can_be_read(file, version, difat, 0);
    lemma_fat_numbers(file, version, difat, 0);
    let all = fat_sectors(file, version, difat, 0)->Ok_0;
    assert forall|k: int| fat.len() <= k < all.len() implies #[trigger] all[k] == 0xffffffff by {
        lemma_block_before(n, k);
        let i = k / n;
        assert(0 <= i < difat.len()) by (nonlinear_arith)
            requires
                0 <= k < n * difat.len(),
                k == i * n + k % n,
                0 <= k % n < n,
        ;
        assert(le32(file, place(version, difat[i], 4 * (k % n))) == 0xffffffff);
    }
    lemma_trimmed_is(all, fat);
}

/// The DIFAT entries of the header.
proof fn lemma_header_numbers(s: Seq<u8>, i: nat)
    requires
        i <= 109,
        header_difat(s, i) is Ok,
    ensures
        ({
            let difat = header_difat(s, i)->Ok_0;
            let end = i + difat.len();
            &&& end <= 109
            &&& difat.len() > 0 ==> s.len() >= 76 + 4 * end
            &&& forall|j: int|
                0 <= j < difat.len() ==> #[trigger] difat[j] == le32(s, 76 + 4 * (i + j))
            &&& forall|j: int| i <= j < end ==> #[trigger] le32(s, 76 + 4 * j) <= 0xfffffffa
            &&& end < 109 ==> s.len() >= 80 + 4 * end && le32(s, 76 + 4 * end as int)
                == 0xffffffff
        }),
    decreases 109 - i,
{
    if i < 109 && u32_at(s, 76 + 4 * i as int) != 0xffffffff {
        let difat = header_difat(s, i)->Ok_0;
        let rest = header_difat(s, i + 1)->Ok_0;
        lemma_header_numbers(s, i + 1);
        assert forall|j: int| 0 <= j < difat.len() implies #[trigger] difat[j] == le32(
            s,
            76 + 4 * (i + j),
        ) by {
            if j > 0 {
                assert(difat[j] == rest[j - 1]);
            }
        }
    }
}

/// DIFAT entries of the header that are there are read.
proof fn lemma_header_is_read(s: Seq<u8>, i: nat, named: int)
    requires
        i <= named <= 109,
        s.len() >= 76 + 4 * named,
        forall|j: int| i <= j < named ==> #[trigger] le32(s, 76 + 4 * j) <= 0xfffffffa,
        named < 109 ==> s.len() >= 80 + 4 * named && le32(s, 76 + 4 * named) == 0xffffffff,
    ensures
        header_difat(s, i) is Ok,
        header_difat(s, i)->Ok_0.len() == named - i,
    decreases named - i,
{
    if i < named {
        lemma_header_is_read(s, i + 1, named);
        assert(le32(s, 76 + 4 * i as int) <= 0xfffffffa);
    }
}

/// What the header says, and where.
proof fn lemma_header_described(file: Seq<u8>)
    requires
        parse_header(window(file, 0, 512)) is Ok,
    ensures
        ({
            let header = parse_header(window(file, 0, 512))->Ok_0;
            &&& is_header(file, header.version, header.difat.len() as int)
            &&& header.first_dir_sector == le32(file, 48)
            &&& header.first_difat_sector == le32(file, 68)
            &&& header.num_difat_sectors == le32(file, 72)
            &&& forall|i: int|
                0 <= i < header.difat.len() ==> #[trigger] header.difat[i] == le32(
                    file,
                    76 + 4 * i,
                )
        }),
{
    let s = window(file, 0, 512);
    let header = parse_header(s)->Ok_0;
    let named = header.difat.len() as int;
    lemma_header_numbers(s, 0);
    assert(forall|i: int| 0 <= i < s.len() ==> #[trigger] s[i] == file[i]);
    let magic = s.take(8);
    assert(magic[0] == 0xd0 && magic[1] == 0xcf && magic[2] == 0x11 && magic[3] == 0xe0);
    assert(magic[4] == 0xa1 && magic[5] == 0xb1 && magic[6] == 0x1a && magic[7] == 0xe1);
    assert(forall|i: int| 0 <= i < 8 ==> #[trigger] magic[i] == s[i]);
    assert(u16_at(s, 26) == le16(file, 26));
    assert(u16_at(s, 28) == le16(file, 28));
    assert(u16_at(s, 30) == le16(file, 30));
    assert(u32_at(s, 48) == le32(file, 48));
    assert(u32_at(s, 68) == le32(file, 68));
    assert(u32_at(s, 72) == le32(file, 72));
    assert forall|i: int| 0 <= i < named implies #[trigger] le32(file, 76 + 4 * i) <= 0xfffffffa
        && header.difat[i] == le32(file, 76 + 4 * i) by {
        assert(header.difat[i] == le32(s, 76 + 4 * (0 + i)));
        assert(le32(s, 76 + 4 * i) <= 0xfffffffa);
        assert(le32(s, 76 + 4 * i) == le32(file, 76 + 4 * i));
    }
    if named < 109 {
        assert(le32(s, 76 + 4 * named) == le32(file, 76 + 4 * named));
    }
}

/// A header that is there is read.
proof fn lemma_described_header(file: Seq<u8>, version: Version, named: int)
    requires
        is_header(file, version, named),
    ensures
        parse_header(window(file, 0, 512)) is Ok,
        parse_header(window(file, 0, 512))->Ok_0.version == version,
        parse_header(window(file, 0, 512))->Ok_0.difat.len() == named,
{
    let s = window(file, 0, 512);
    assert(forall|i: int| 0 <= i < s.len() ==> #[trigger] s[i] == file[i]);
    assert(s.len() >= 76 + 4 * named);
    assert(s.take(8) =~= MAGIC_NUMBER@);
    assert(u16_at(s, 26) == le16(file, 26));
    assert(u16_at(s, 28) == le16(file, 28));
    assert(u16_at(s, 30) == le16(file, 30));
    assert forall|j: int| 0 <= j < named implies #[trigger] le32(s, 76 + 4 * j) <= 0xfffffffa by {
        assert(le32(s, 76 + 4 * j) == le32(file, 76 + 4 * j));
    }
    if named < 109 {
        assert(le32(s, 76 + 4 * named) == le32(file, 76 + 4 * named));
    }
    lemma_header_is_read(s, 0, named);
}

/// The sectors that the chain of the DIFAT goes through.
spec fn difat_list(file: Seq<u8>, version: Version, start: u32, fuel: nat) -> Seq<u32>
    decreases fuel,
{
    if start == 0xfffffffe || fuel == 0 {
        Seq::empty()
    } else {
        let next = u32_at(sector_window(file, version, start), sector_size(version) - 4);
        seq![start] + difat_list(file, version, next, (fuel - 1) as nat)
    }
}

/// The sectors of the chain of the DIFAT are linked, and all there.
proof fn lemma_difat_linked(file: Seq<u8>, version: Version, start: u32, fuel: nat)
    requires
        difat_chain(file, version, start, fuel) is Done,
    ensures
        difat_chain(file, version, start, fuel)->Done_0.1 == difat_list(
            file,
            version,
            start,
            fuel,
        ).len(),
        is_linked_by_last(
            file,
            version,
            start as int,
            difat_list(file, version, start, fuel),
        ),
    decreases fuel,
{
    let sectors = difat_list(file, version, start, fuel);
    if start != 0xfffffffe {
        let next = u32_at(sector_window(file, version, start), sector_size(version) - 4);
        lemma_sector(file, version, start);
        lemma_difat_linked(file, version, next, (fuel - 1) as nat);
        let rest = difat_list(file, version, next, (fuel - 1) as nat);
        assert forall|i: int| 0 <= i < sectors.len() implies {
            &&& #[trigger] sectors[i] != 0xfffffffe
            &&& has_sector(file, version, sectors[i])
            &&& le32(file, place(version, sectors[i], sector_size(version) - 4)) == if i + 1
                < sectors.len() {
                sectors[i + 1] as int
            } else {
                0xfffffffe
            }
        } by {
            if i > 0 {
                assert(sectors[i] == rest[i - 1]);
                if i + 1 < sectors.len() {
                    assert(sectors[i + 1] == rest[i]);
                }
            } else if sectors.len() > 1 {
                assert(sectors[1] == rest[0]);
            }
        }
    }
}

/// In which of so many blocks of `n` a number is.
proof fn lemma_block_index(n: int, k: int, blocks: int)
    requires
        n > 0,
        0 <= k < n * blocks,
    ensures
        0 <= k / n < blocks,
        0 <= k % n < n,
        k >= n ==> k / n >= 1,
{
    lemma_block_before(n, k);
    let q = k / n;
    let r = k % n;
    assert(0 <= q < blocks && (k >= n ==> q >= 1)) by (nonlinear_arith)
        requires
            0 <= k < n * blocks,
            k == q * n + r,
            0 <= r < n,
    ;
}

/// What the chain of the DIFAT holds, and where.
proof fn lemma_difat_numbers(file: Seq<u8>, version: Version, start: u32, fuel: nat)
    requires
        difat_chain(file, version, start, fuel) is Done,
    ensures
        ({
            let n = sector_size(version) / 4 - 1;
            let sectors = difat_list(file, version, start, fuel);
            let numbers = difat_chain(file, version, start, fuel)->Done_0.0;
            &&& numbers.len() == n * sectors.len()
            &&& forall|k: int|
                0 <= k < numbers.len() ==> #[trigger] numbers[k] == le32(
                    file,
                    place(version, sectors[k / n], 4 * (k % n)),
                )
        }),
    decreases fuel,
{
    let n = sector_size(version) / 4 - 1;
    let sectors = difat_list(file, version, start, fuel);
    let numbers = difat_chain(file, version, start, fuel)->Done_0.0;
    lemma_blocks(n, sectors.len() as int);
    if start != 0xfffffffe {
        let s = sector_window(file, version, start);
        let next = u32_at(s, sector_size(version) - 4);
        lemma_sector(file, version, start);
        lemma_difat_numbers(file, version, next, (fuel - 1) as nat);
        let rest_numbers = difat_chain(file, version, next, (fuel - 1) as nat)->Done_0.0;
        let rest = difat_list(file, version, next, (fuel - 1) as nat);
        assert(numbers == sector_numbers(s, n as nat) + rest_numbers);
        assert forall|k: int| 0 <= k < numbers.len() implies #[trigger] numbers[k] == le32(
            file,
            place(version, sectors[k / n], 4 * (k % n)),
        ) by {
            lemma_block_before(n, k);
            lemma_block_index(n, k, sectors.len() as int);
            if k < n {
                lemma_block(n, 0, k);
                assert(numbers[k] == u32_at(s, 4 * k));
            } else {
                assert(numbers[k] == rest_numbers[k - n]);
                assert(sectors[k / n] == rest[k / n - 1]);
            }
        }
    }
}

/// A chain of the DIFAT that is there is read.
proof fn lemma_described_difat(file: Seq<u8>, version: Version, start: u32, sectors: Seq<u32>)
    requires
        is_linked_by_last(file, version, start as int, sectors),
    ensures
        difat_chain(file, version, start, sectors.len()) is Done,
        difat_list(file, version, start, sectors.len()) == sectors,
    decreases sectors.len(),
{
    if sectors.len() > 0 {
        let rest = sectors.drop_first();
        let next = u32_at(sector_window(file, version, start), sector_size(version) - 4);
        assert(sectors[0] == start);
        lemma_sector(file, version, start);
        assert(is_linked_by_last(file, version, next as int, rest)) by {
            if rest.len() > 0 {
                assert(sectors[1] == rest[0]);
            }
            assert forall|i: int| 0 <= i < rest.len() implies {
                &&& #[trigger] rest[i] != 0xfffffffe
                &&& has_sector(file, version, rest[i])
                &&& le32(file, place(version, rest[i], sector_size(version) - 4)) == if i + 1
                    < rest.len() {
                    rest[i + 1] as int
                } else {
                    0xfffffffe
                }
            } by {
                assert(rest[i] == sectors[i + 1]);
                if i + 1 < rest.len() {
                    assert(rest[i + 1] == sectors[i + 2]);
                }
            }
        }
        lemma_described_difat(file, version, next, rest);
        assert(seq![start] + rest =~= sectors);
    } else {
        assert(difat_list(file, version, start, 0) =~= sectors);
    }
}

/// The name of an entry lies in the file.
proof fn lemma_entry_name(s: Seq<u8>, at: nat)
    requires
        at + 128 <= s.len(),
    ensures
        ({
            let len = le16(s, at as int + 64);
            let count = unit_count(len);
            parse_name(window(s, at, 128)) == if len > 64 || len % 2 != 0 {
                Err(Error::InvalidNameLength(len as u16))
            } else if le16(s, at + 2 * count) != 0 {
                Err(Error::NameNotTerminated)
            } else {
                Ok(utf16_lossy(Seq::new(count as nat, |i: int| le16(s, at + 2 * i) as u16)))
            }
        }),
{
    let b = at as int;
    let w = window(s, at, 128);
    assert(w.len() == 128);
    assert(w[64] == s[b + 64] && w[65] == s[b + 65]);
    let len = u16_at(w, 64);
    assert(len == le16(s, b + 64));
    if len <= 64 && len % 2 == 0 {
        let count = name_unit_count(len);
        assert(count == unit_count(len as int));
        assert(0 <= count <= 31);
        assert(w[2 * count as int] == s[b + 2 * count]);
        assert(w[2 * count as int + 1] == s[b + 2 * count + 1]);
        let units = Seq::new(count, |i: int| le16(s, b + 2 * i) as u16);
        assert forall|i: int| 0 <= i < count implies #[trigger] field_units(w, count)[i]
            == units[i] by {
            assert(w[2 * i] == s[b + 2 * i]);
            assert(w[2 * i + 1] == s[b + 2 * i + 1]);
        }
        assert(field_units(w, count) =~= units);
    }
}

/// A number of an entry lies in the file.
proof fn lemma_entry_number(s: Seq<u8>, at: nat, k: int)
    requires
        at + 128 <= s.len(),
        0 <= k <= 124,
    ensures
        u32_at(window(s, at, 128), k) == le32(s, at + k),
{
    let w = window(s, at, 128);
    assert(w[k] == s[at + k] && w[k + 1] == s[at + k + 1]);
    assert(w[k + 2] == s[at + k + 2] && w[k + 3] == s[at + k + 3]);
}

/// An entry is read from the bytes at a place just where it is the one that lies
/// there.
pub proof fn law_entry_at(
    s: Seq<u8>,
    at: nat,
    sector: u32,
    version: Version,
    entry: DirEntryView,
)
    ensures
        parse_entry(window(s, at, 128), sector, version) == Ok::<_, Error>(entry) <==> is_entry_at(
            s,
            at as int,
            version,
            sector,
            entry,
        ),
{
    let w = window(s, at, 128);
    if at + 128 <= s.len() {
        lemma_entry_name(s, at);
        lemma_entry_number(s, at, 68);
        lemma_entry_number(s, at, 72);
        lemma_entry_number(s, at, 76);
        lemma_entry_number(s, at, 116);
        lemma_entry_number(s, at, 120);
        lemma_entry_number(s, at, 124);
        assert(w[66] == s[at as int + 66]);
        let low = u32_at(w, 120);
        let high = u32_at(w, 124);
        lemma_stream_len(version, low, high);
        lemma_fields_read(w, sector, version, stream_len(version, u64_at(w, 120)), entry);
    } else {
        assert(w.len() < 128);
    }
}

/// The length of a stream, of the two numbers that its field is made of.
proof fn lemma_stream_len(version: Version, low: u32, high: u32)
    ensures
        stream_len(version, (low + 0x1_0000_0000 * high) as u64) == match version {
            Version::V3 => low as int,
            Version::V4 => low + 4294967296 * high,
        },
{
    assert((low + 0x1_0000_0000 * high) % 0x1_0000_0000 == low);
}

/// The fields of an entry, once its name and its numbers are known.
proof fn lemma_fields_read(
    w: Seq<u8>,
    sector: u32,
    version: Version,
    len: u64,
    entry: DirEntryView,
)
    requires
        w.len() == 128,
        len == stream_len(version, u64_at(w, 120)),
    ensures
        parse_entry(w, sector, version) == Ok::<_, Error>(entry) <==> {
            &&& parse_name(w) == Ok::<_, Error>(entry.name)
            &&& entry.sector == sector
            &&& entry.obj_type == w[66]
            &&& entry.left_sibling == u32_at(w, 68)
            &&& entry.right_sibling == u32_at(w, 72)
            &&& entry.child == u32_at(w, 76)
            &&& is_link(u32_at(w, 68))
            &&& is_link(u32_at(w, 72))
            &&& is_link(u32_at(w, 76))
            &&& entry.start_sector == u32_at(w, 116)
            &&& entry.stream_len == len
        },
{
    match parse_entry(w, sector, version) {
        Ok(e) => {
            assert(e == entry <==> e =~= entry);
        },
        Err(_) => {},
    }
}

/// A piece of a piece of a file is a piece of the file.
proof fn lemma_window_in_window(file: Seq<u8>, at: nat, len: nat, j: nat, m: nat)
    requires
        j + m <= len,
    ensures
        window(window(file, at, len), j, m) == window(file, at + j, m),
{
    assert(window(window(file, at, len), j, m) =~= window(file, at + j, m));
}

/// An entry of a sector lies in the file.
proof fn lemma_entry_of_sector(
    file: Seq<u8>,
    version: Version,
    sector: u32,
    q: nat,
    entry: DirEntryView,
)
    requires
        q < sector_size(version) / 128,
    ensures
        parse_entry(
            window(sector_window(file, version, sector), 128 * q, 128),
            sector,
            version,
        ) == Ok::<_, Error>(entry) <==> is_entry_at(
            file,
            place(version, sector, 128 * q as int),
            version,
            sector,
            entry,
        ),
{
    let at = place(version, sector, 0) as nat;
    lemma_sector_start(version, sector);
    assert(place(version, sector, 128 * q as int) == at + 128 * q);
    lemma_window_in_window(file, at, sector_size(version) as nat, 128 * q, 128);
    law_entry_at(file, at + 128 * q, sector, version, entry);
}

/// The entries of a sector from one on are those that lie there.
proof fn lemma_sector_described(
    file: Seq<u8>,
    version: Version,
    sector: u32,
    q: nat,
    entries: Seq<DirEntryView>,
)
    requires
        q <= sector_size(version) / 128,
    ensures
        sector_entries(sector_window(file, version, sector), sector, version, q) == Ok::<_, Error>(
            entries,
        ) <==> {
            &&& entries.len() == sector_size(version) / 128 - q
            &&& forall|k: int|
                0 <= k < entries.len() ==> is_entry_at(
                    file,
                    place(version, sector, 128 * (q + k)),
                    version,
                    sector,
                    #[trigger] entries[k],
                )
        },
    decreases sector_size(version) / 128 - q,
{
    let n = sector_size(version) / 128;
    let s = sector_window(file, version, sector);
    let slot = window(s, 128 * q, 128);
    if q < n {
        if entries.len() > 0 {
            let rest = entries.drop_first();
            lemma_entry_of_sector(file, version, sector, q, entries[0]);
            lemma_sector_described(file, version, sector, q + 1, rest);
            assert(seq![entries[0]] + rest =~= entries);
            if sector_entries(s, sector, version, q) == Ok::<_, Error>(entries) {
                let first = parse_entry(slot, sector, version)->Ok_0;
                let others = sector_entries(s, sector, version, q + 1)->Ok_0;
                assert(entries == seq![first] + others);
                assert(entries[0] == first);
                assert(rest =~= others);
                assert forall|k: int| 0 <= k < entries.len() implies is_entry_at(
                    file,
                    place(version, sector, 128 * (q + k)),
                    version,
                    sector,
                    #[trigger] entries[k],
                ) by {
                    if k > 0 {
                        assert(entries[k] == rest[k - 1]);
                        assert(q + 1 + (k - 1) == q + k);
                    }
                }
            }
            if entries.len() == n - q && forall|k: int|
                0 <= k < entries.len() ==> is_entry_at(
                    file,
                    place(version, sector, 128 * (q + k)),
                    version,
                    sector,
                    #[trigger] entries[k],
                ) {
                assert(is_entry_at(
                    file,
                    place(version, sector, 128 * (q + 0int)),
                    version,
                    sector,
                    entries[0],
                ));
                assert forall|k: int| 0 <= k < rest.len() implies is_entry_at(
                    file,
                    place(version, sector, 128 * (q + 1 + k)),
                    version,
                    sector,
                    #[trigger] rest[k],
                ) by {
                    assert(rest[k] == entries[k + 1]);
                    assert(q + (k + 1) == q + 1 + k);
                }
            }
        } else if let Ok(found) = sector_entries(s, sector, version, q) {
            assert(found.len() > 0);
        }
    } else {
        assert(entries.len() == 0 <==> entries =~= Seq::empty());
    }
}

/// The sectors that the chain of the directory goes through.
spec fn dir_list(fat: Seq<u32>, start: u32, fuel: nat) -> Seq<u32>
    decreases fuel,
{
    if start == 0xfffffffe || fuel == 0 {
        Seq::empty()
    } else {
        seq![start] + dir_list(fat, fat[start as int], (fuel - 1) as nat)
    }
}

/// The sectors of the chain of the directory are linked.
proof fn lemma_dir_linked(
    file: Seq<u8>,
    version: Version,
    fat: Seq<u32>,
    start: u32,
    fuel: nat,
)
    requires
        dir_chain(file, version, fat, start, fuel) is Done,
    ensures
        is_linked_by_fat(fat, start as int, dir_list(fat, start, fuel)),
    decreases fuel,
{
    let sectors = dir_list(fat, start, fuel);
    if start != 0xfffffffe {
        let next = fat[start as int];
        lemma_dir_linked(file, version, fat, next, (fuel - 1) as nat);
        let rest = dir_list(fat, next, (fuel - 1) as nat);
        assert forall|i: int| 0 <= i < sectors.len() implies {
            &&& #[trigger] sectors[i] != 0xfffffffe
            &&& sectors[i] < fat.len()
            &&& fat[sectors[i] as int] == if i + 1 < sectors.len() {
                sectors[i + 1] as int
            } else {
                0xfffffffe
            }
        } by {
            if i > 0 {
                assert(sectors[i] == rest[i - 1]);
                if i + 1 < sectors.len() {
                    assert(sectors[i + 1] == rest[i]);
                }
            } else if sectors.len() > 1 {
                assert(sectors[1] == rest[0]);
            }
        }
    }
}

/// The entries of sectors, one after the other.
proof fn lemma_directory_step(
    file: Seq<u8>,
    version: Version,
    sectors: Seq<u32>,
    entries: Seq<DirEntryView>,
    rest: Seq<DirEntryView>,
)
    requires
        sectors.len() > 0,
        entries.len() == sector_size(version) / 128,
    ensures
        is_directory(file, version, sectors, entries + rest) <==> {
            &&& is_directory(file, version, sectors.drop_first(), rest)
            &&& forall|k: int|
                0 <= k < entries.len() ==> is_entry_at(
                    file,
                    place(version, sectors[0], 128 * (0 + k)),
                    version,
                    sectors[0],
                    #[trigger] entries[k],
                )
        },
{
    let n = sector_size(version) / 128;
    let all = entries + rest;
    let later = sectors.drop_first();
    lemma_blocks(n, sectors.len() as int);
    if is_directory(file, version, sectors, all) {
        assert forall|k: int| 0 <= k < entries.len() implies is_entry_at(
            file,
            place(version, sectors[0], 128 * (0 + k)),
            version,
            sectors[0],
            #[trigger] entries[k],
        ) by {
            lemma_block(n, 0, k);
            assert(entries[k] == all[k]);
        }
        assert forall|k: int| 0 <= k < rest.len() implies is_entry_at(
            file,
            place(version, later[k / n], 128 * (k % n)),
            version,
            later[k / n],
            #[trigger] rest[k],
        ) by {
            lemma_block_before(n, k + n);
            lemma_block_index(n, k, later.len() as int);
            assert(rest[k] == all[k + n]);
            assert(later[k / n] == sectors[k / n + 1]);
        }
    }
    if is_directory(file, version, later, rest) && forall|k: int|
        0 <= k < entries.len() ==> is_entry_at(
            file,
            place(version, sectors[0], 128 * (0 + k)),
            version,
            sectors[0],
            #[trigger] entries[k],
        ) {
        assert forall|k: int| 0 <= k < all.len() implies is_entry_at(
            file,
            place(version, sectors[k / n], 128 * (k % n)),
            version,
            sectors[k / n],
            #[trigger] all[k],
        ) by {
            if k < n {
                lemma_block(n, 0, k);
                assert(all[k] == entries[k]);
            } else {
                lemma_block_before(n, k);
                lemma_block_index(n, k - n, later.len() as int);
                assert(all[k] == rest[k - n]);
                assert(later[(k - n) / n] == sectors[k / n]);
            }
        }
    }
}

/// The entries of the directory lie in the sectors of its chain.
proof fn lemma_dir_described(
    file: Seq<u8>,
    version: Version,
    fat: Seq<u32>,
    start: u32,
    fuel: nat,
)
    requires
        dir_chain(file, version, fat, start, fuel) is Done,
    ensures
        is_directory(
            file,
            version,
            dir_list(fat, start, fuel),
            dir_chain(file, version, fat, start, fuel)->Done_0,
        ),
    decreases fuel,
{
    let n = sector_size(version) / 128;
    if start == 0xfffffffe {
        lemma_blocks(n, 0);
    } else {
        let next = fat[start as int];
        let sectors = dir_list(fat, start, fuel);
        let entries = sector_entries(
            sector_window(file, version, start),
            start,
            version,
            0,
        )->Ok_0;
        let rest = dir_chain(file, version, fat, next, (fuel - 1) as nat)->Done_0;
        lemma_dir_described(file, version, fat, next, (fuel - 1) as nat);
        lemma_sector_described(file, version, start, 0, entries);
        assert(sectors.drop_first() =~= dir_list(fat, next, (fuel - 1) as nat));
        lemma_directory_step(file, version, sectors, entries, rest);
    }
}

/// A directory that is there is read.
proof fn lemma_described_dir(
    file: Seq<u8>,
    version: Version,
    fat: Seq<u32>,
    start: u32,
    sectors: Seq<u32>,
    directory: Seq<DirEntryView>,
)
    requires
        is_linked_by_fat(fat, start as int, sectors),
        is_directory(file, version, sectors, directory),
    ensures
        dir_chain(file, version, fat, start, sectors.len()) == Walk::Done(directory),
    decreases sectors.len(),
{
    let n = sector_size(version) / 128;
    lemma_blocks(n, sectors.len() as int);
    if sectors.len() == 0 {
        assert(directory =~= Seq::empty());
    } else {
        let later = sectors.drop_first();
        let next = fat[start as int];
        assert(sectors[0] == start);
        assert(directory.len() >= n) by (nonlinear_arith)
            requires
                directory.len() == n * sectors.len(),
                sectors.len() >= 1,
                n >= 0,
        ;
        let entries = directory.take(n);
        let rest = directory.skip(n);
        assert(entries + rest =~= directory);
        lemma_directory_step(file, version, sectors, entries, rest);
        lemma_sector_described(file, version, start, 0, entries);
        assert(is_linked_by_fat(fat, next as int, later)) by {
            if later.len() > 0 {
                assert(later[0] == sectors[1]);
            }
            assert forall|i: int| 0 <= i < later.len() implies {
                &&& #[trigger] later[i] != 0xfffffffe
                &&& later[i] < fat.len()
                &&& fat[later[i] as int] == if i + 1 < later.len() {
                    later[i + 1] as int
                } else {
                    0xfffffffe
                }
            } by {
                assert(later[i] == sectors[i + 1]);
                if i + 1 < later.len() {
                    assert(later[i + 1] == sectors[i + 2]);
                }
            }
        }
        lemma_described_dir(file, version, fat, next, later, rest);
    }
}

/// Numbers of the header and numbers of the chain together are the DIFAT.
proof fn lemma_difat_together(
    file: Seq<u8>,
    version: Version,
    first: Seq<u32>,
    sectors: Seq<u32>,
    rest: Seq<u32>,
    difat: Seq<u32>,
)
    requires
        forall|i: int| 0 <= i < first.len() ==> #[trigger] first[i] == le32(file, 76 + 4 * i),
        rest.len() == (sector_size(version) / 4 - 1) * sectors.len(),
        forall|k: int|
            0 <= k < rest.len() ==> #[trigger] rest[k] == le32(
                file,
                place(
                    version,
                    sectors[k / (sector_size(version) / 4 - 1)],
                    4 * (k % (sector_size(version) / 4 - 1)),
                ),
            ),
    ensures
        is_difat(file, version, first.len() as int, sectors, difat) <==> difat == first + rest,
{
    let all = first + rest;
    let named = first.len() as int;
    let n = sector_size(version) / 4 - 1;
    assert(is_difat(file, version, named, sectors, all)) by {
        assert forall|i: int| 0 <= i < named implies #[trigger] all[i]
            == le32(file, 76 + 4 * i) by {
            assert(all[i] == first[i]);
        }
        assert forall|i: int| named <= i < all.len() implies #[trigger] all[i] == le32(
            file,
            place(version, sectors[(i - named) / n], 4 * ((i - named) % n)),
        ) by {
            assert(all[i] == rest[i - named]);
        }
    }
    if is_difat(file, version, named, sectors, difat) {
        assert forall|i: int| 0 <= i < all.len() implies difat[i] == all[i] by {
            if i < named {
                assert(all[i] == first[i]);
            } else {
                assert(all[i] == rest[i - named]);
            }
        }
        assert(difat =~= all);
    }
}

/// A file is opened to what its bytes say, place by place: there are a number of
/// sectors that the header names, a chain of the DIFAT and a chain of the
/// directory with which what it is opened to describes the file.
pub proof fn law_opened_file(file: Seq<u8>)
    requires
        open_file(file) is Done,
    ensures
        exists|named: int, difat_sectors: Seq<u32>, dir_sectors: Seq<u32>| #[trigger]
            describes(file, open_file(file)->Done_0, named, difat_sectors, dir_sectors),
{
    let v = open_file(file)->Done_0;
    let header = parse_header(window(file, 0, 512))->Ok_0;
    let version = header.version;
    let named = header.difat.len() as int;
    lemma_header_described(file);
    lemma_difat_linked(file, version, header.first_difat_sector, file.len());
    lemma_difat_numbers(file, version, header.first_difat_sector, file.len());
    let sectors = difat_list(file, version, header.first_difat_sector, file.len());
    let rest = difat_chain(file, version, header.first_difat_sector, file.len())->Done_0.0;
    lemma_difat_together(file, version, header.difat, sectors, rest, v.difat);
    lemma_fat_described(file, version, v.difat);
    lemma_dir_linked(file, version, v.fat, header.first_dir_sector, v.fat.len());
    lemma_dir_described(file, version, v.fat, header.first_dir_sector, v.fat.len());
    let dirs = dir_list(v.fat, header.first_dir_sector, v.fat.len());
    assert(describes(file, v, named, sectors, dirs));
}

/// A file that something describes, place by place, is opened to that.
pub proof fn law_described_file_opens(
    file: Seq<u8>,
    v: CompoundView,
    named: int,
    difat_sectors: Seq<u32>,
    dir_sectors: Seq<u32>,
)
    requires
        describes(file, v, named, difat_sectors, dir_sectors),
    ensures
        open_file(file) == Walk::Done(v),
{
    lemma_described_header(file, v.version, named);
    lemma_header_described(file);
    let header = parse_header(window(file, 0, 512))->Ok_0;
    let first = header.first_difat_sector;
    lemma_described_difat(file, v.version, first, difat_sectors);
    lemma_difat_linked(file, v.version, first, difat_sectors.len());
    lemma_difat_numbers(file, v.version, first, difat_sectors.len());
    law_difat_fuel(file, v.version, first, difat_sectors.len());
    let rest = difat_chain(file, v.version, first, file.len())->Done_0.0;
    lemma_difat_together(file, v.version, header.difat, difat_sectors, rest, v.difat);
    lemma_described_fat(file, v.version, v.difat, v.fat);
    lemma_described_dir(
        file,
        v.version,
        v.fat,
        header.first_dir_sector,
        dir_sectors,
        v.directory,
    );
    law_directory_fuel(file, v.version, v.fat, header.first_dir_sector, dir_sectors.len());
}

/// Where an opening comes to that is given so many of the pieces of a file that it
/// wants, one after the other.
pub open spec fn opening_run(file: Seq<u8>, v: OpeningView, steps: nat) -> Result<
    OpeningView,
    Error,
>
    decreases steps,
{
    match wanted(v) {
        None => Ok(v),
        Some((at, len)) => if steps == 0 {
            Ok(v)
        } else {
            match opening_step(v, window(file, at, len)) {
                Err(e) => Err(e),
                Ok(next) => opening_run(file, next, (steps - 1) as nat),
            }
        },
    }
}

/// A piece leaves a phase that fits what was read.
proof fn lemma_step_fits(v: OpeningView, s: Seq<u8>)
    requires
        is_opening(v),
        is_staged(v),
        opening_step(v, s) is Ok,
    ensures
        is_opening(opening_step(v, s)->Ok_0),
{
}

/// Where an opening comes to from where it is.
proof fn lemma_run(file: Seq<u8>, v: OpeningView, steps: nat)
    requires
        is_opening(v),
        is_staged(v),
    ensures
        match opening_run(file, v, steps) {
            Err(e) => open_rest(v, file, steps) == Walk::<CompoundView>::Failed(e),
            Ok(end) => end.phase is Done ==> open_rest(v, file, steps) == Walk::Done(
                CompoundView {
                    version: end.version,
                    difat: end.difat,
                    fat: end.fat,
                    directory: end.directory,
                },
            ),
        },
    decreases steps,
{
    if wanted(v) is Some && steps > 0 {
        let (at, len) = wanted(v)->0;
        let s = window(file, at, len);
        law_opening_step(v, file, steps);
        if let Ok(next) = opening_step(v, s) {
            let fuel = (steps - 1) as nat;
            lemma_step_fits(v, s);
            lemma_run(file, next, fuel);
            if next.phase is Difat && !(v.phase is Difat) && !(open_rest(
                next,
                file,
                fuel,
            ) is Stuck) {
                law_difat_fuel(file, next.version, next.current, fuel);
            }
            if next.phase is Directory && !(v.phase is Directory) && !(open_rest(
                next,
                file,
                fuel,
            ) is Stuck) {
                law_directory_fuel(file, next.version, next.fat, next.current, fuel);
            }
        }
    }
}

/// An opening that is given the pieces that it wants, and comes to its end, has
/// what the file is opened to; where a piece is refused, the file is for the same
/// reason.
pub proof fn law_opening_run(file: Seq<u8>, steps: nat)
    ensures
        match opening_run(file, opening_start(), steps) {
            Err(e) => open_file(file) == Walk::<CompoundView>::Failed(e),
            Ok(end) => end.phase is Done ==> open_file(file) == Walk::Done(
                CompoundView {
                    version: end.version,
                    difat: end.difat,
                    fat: end.fat,
                    directory: end.directory,
                },
            ),
        },
{
    lemma_run(file, opening_start(), steps);
}

/// Number `k` of the sector that entry `i` of the DIFAT names is the number of
/// the FAT that comes after those of all sectors before it, or it is free and so
/// are all that follow.
pub proof fn law_opened_fat(file: Seq<u8>, i: int, k: int)
    requires
        open_file(file) is Done,
        0 <= i < open_file(file)->Done_0.difat.len(),
        0 <= k < sector_size(open_file(file)->Done_0.version) / 4,
    ensures
        ({
            let v = open_file(file)->Done_0;
            let n = sector_size(v.version) / 4;
            let number = le32(file, place(v.version, v.difat[i], 4 * k));
            if i * n + k < v.fat.len() {
                v.fat[i * n + k] == number
            } else {
                number == 0xffffffff
            }
        }),
{
    let v = open_file(file)->Done_0;
    let n = sector_size(v.version) / 4;
    law_opened_file(file);
    lemma_block(n, i, k);
    assert(i * n + k >= 0) by (nonlinear_arith)
        requires
            0 <= i,
            0 <= k < n,
    ;
    assert(is_fat(file, v.version, v.difat, v.fat));
    if i * n + k < v.fat.len() {
        assert(v.fat[i * n + k] == le32(file, place(v.version, v.difat[i], 4 * k)));
    }
}

/// Whether a file starts with the magic number.
pub open spec fn is_magic(file: Seq<u8>) -> bool {
    &&& file[0] == 0xd0 && file[1] == 0xcf && file[2] == 0x11 && file[3] == 0xe0
    &&& file[4] == 0xa1 && file[5] == 0xb1 && file[6] == 0x1a && file[7] == 0xe1
}

/// A file that is too short, or whose header is wrong, is refused for what is
/// first found to be wrong with it.
pub proof fn law_refused_header(file: Seq<u8>)
    ensures
        ({
            let refused = |e: Error| open_file(file) == Walk::<CompoundView>::Failed(e);
            let number = le16(file, 26);
            let shift = if number == 3 {
                9int
            } else {
                12
            };
            if file.len() < 8 {
                refused(Error::UnexpectedEof)
            } else if !is_magic(file) {
                refused(Error::WrongMagicNumber)
            } else if file.len() < 28 {
                refused(Error::UnexpectedEof)
            } else if number != 3 && number != 4 {
                refused(Error::UnsupportedVersion(number as u16))
            } else if file.len() < 30 {
                refused(Error::UnexpectedEof)
            } else if le16(file, 28) != 0xfffe {
                refused(Error::WrongByteOrderMark)
            } else if file.len() < 32 {
                refused(Error::UnexpectedEof)
            } else if le16(file, 30) != shift {
                refused(
                    Error::WrongSectorShift {
                        shift: le16(file, 30) as u16,
                        version: number as u16,
                    },
                )
            } else {
                file.len() < 76 ==> refused(Error::UnexpectedEof)
            }
        }),
{
    let s = window(file, 0, 512);
    assert(forall|i: int| 0 <= i < s.len() ==> #[trigger] s[i] == file[i]);
    if s.len() >= 8 {
        let magic = MAGIC_NUMBER@;
        assert(s.take(8) == magic <==> is_magic(file)) by {
            if is_magic(file) {
                assert(s.take(8) =~= magic);
            }
            if s.take(8) == magic {
                assert(forall|i: int| 0 <= i < 8 ==> #[trigger] magic[i] == s.take(8)[i]);
                assert(magic[0] == file[0] && magic[1] == file[1] && magic[2] == file[2]);
                assert(magic[3] == file[3] && magic[4] == file[4] && magic[5] == file[5]);
                assert(magic[6] == file[6] && magic[7] == file[7]);
            }
        }
    }
    if s.len() >= 28 {
        assert(u16_at(s, 26) == le16(file, 26));
    }
    if s.len() >= 30 {
        assert(u16_at(s, 28) == le16(file, 28));
    }
    if s.len() >= 32 {
        assert(u16_at(s, 30) == le16(file, 30));
    }
}

/// Whether the fields of a header are right, up to the DIFAT.
pub open spec fn has_fields(file: Seq<u8>, version: Version) -> bool {
    &&& file.len() >= 76
    &&& is_magic(file)
    &&& le16(file, 28) == 0xfffe
    &&& match version {
        Version::V3 => le16(file, 26) == 3 && le16(file, 30) == 9,
        Version::V4 => le16(file, 26) == 4 && le16(file, 30) == 12,
    }
}

/// How the reading of the header's DIFAT entries fails.
proof fn lemma_header_fails(s: Seq<u8>, i: nat, k: int)
    requires
        i <= k < 109,
        s.len() >= 76 + 4 * k,
        forall|j: int| i <= j < k ==> #[trigger] le32(s, 76 + 4 * j) <= 0xfffffffa,
        s.len() < 80 + 4 * k || 0xfffffffa < le32(s, 76 + 4 * k) < 0xffffffff,
    ensures
        header_difat(s, i) == Err::<Seq<u32>, _>(
            if s.len() < 80 + 4 * k {
                Error::UnexpectedEof
            } else {
                Error::InvalidDifatSector(le32(s, 76 + 4 * k) as u32)
            },
        ),
    decreases k - i,
{
    if i < k {
        lemma_header_fails(s, i + 1, k);
        assert(le32(s, 76 + 4 * i as int) <= 0xfffffffa);
    }
}

/// A file whose header names a sector of the FAT that cannot exist, or that ends
/// among the sectors named, is refused for it.
pub proof fn law_refused_header_difat(file: Seq<u8>, version: Version, k: int)
    requires
        has_fields(file, version),
        0 <= k < 109,
        file.len() >= 76 + 4 * k,
        forall|j: int| 0 <= j < k ==> #[trigger] le32(file, 76 + 4 * j) <= 0xfffffffa,
    ensures
        file.len() < 80 + 4 * k ==> open_file(file) == Walk::<CompoundView>::Failed(
            Error::UnexpectedEof,
        ),
        file.len() >= 80 + 4 * k && 0xfffffffa < le32(file, 76 + 4 * k) < 0xffffffff
            ==> open_file(file) == Walk::<CompoundView>::Failed(
            Error::InvalidDifatSector(le32(file, 76 + 4 * k) as u32),
        ),
{
    let s = window(file, 0, 512);
    assert(forall|i: int| 0 <= i < s.len() ==> #[trigger] s[i] == file[i]);
    assert(s.take(8) =~= MAGIC_NUMBER@);
    assert(u16_at(s, 26) == le16(file, 26));
    assert(u16_at(s, 28) == le16(file, 28));
    assert(u16_at(s, 30) == le16(file, 30));
    assert forall|j: int| 0 <= j < k implies #[trigger] le32(s, 76 + 4 * j) <= 0xfffffffa by {
        assert(le32(s, 76 + 4 * j) == le32(file, 76 + 4 * j));
    }
    if file.len() < 80 + 4 * k {
        lemma_header_fails(s, 0, k);
    } else if 0xfffffffa < le32(file, 76 + 4 * k) < 0xffffffff {
        assert(le32(s, 76 + 4 * k) == le32(file, 76 + 4 * k));
        lemma_header_fails(s, 0, k);
    }
}

/// Whether the chain of the DIFAT goes from `first` through sectors to `next`.
pub open spec fn leads_by_last(
    file: Seq<u8>,
    version: Version,
    first: int,
    sectors: Seq<u32>,
    next: u32,
) -> bool {
    &&& first == if sectors.len() > 0 {
        sectors[0]
    } else {
        next
    }
    &&& forall|i: int|
        0 <= i < sectors.len() ==> {
            &&& #[trigger] sectors[i] != 0xfffffffe
            &&& has_sector(file, version, sectors[i])
            &&& le32(file, place(version, sectors[i], sector_size(version) - 4)) == if i + 1
                < sectors.len() {
                sectors[i + 1]
            } else {
                next
            }
        }
}

/// A chain of the DIFAT fails at a sector that is not there.
proof fn lemma_difat_fails(
    file: Seq<u8>,
    version: Version,
    first: u32,
    sectors: Seq<u32>,
    next: u32,
)
    requires
        leads_by_last(file, version, first as int, sectors, next),
        next != 0xfffffffe,
        !has_sector(file, version, next),
    ensures
        difat_chain(file, version, first, sectors.len()) == Walk::<(Seq<u32>, nat)>::Failed(
            Error::UnexpectedEof,
        ),
    decreases sectors.len(),
{
    lemma_sector(file, version, first);
    if sectors.len() > 0 {
        let rest = sectors.drop_first();
        let second = u32_at(sector_window(file, version, first), sector_size(version) - 4);
        assert(sectors[0] == first);
        assert(leads_by_last(file, version, second as int, rest, next)) by {
            if rest.len() > 0 {
                assert(rest[0] == sectors[1]);
            }
            assert forall|i: int| 0 <= i < rest.len() implies {
                &&& #[trigger] rest[i] != 0xfffffffe
                &&& has_sector(file, version, rest[i])
                &&& le32(file, place(version, rest[i], sector_size(version) - 4)) == if i + 1
                    < rest.len() {
                    rest[i + 1]
                } else {
                    next
                }
            } by {
                assert(rest[i] == sectors[i + 1]);
                if i + 1 < rest.len() {
                    assert(rest[i + 1] == sectors[i + 2]);
                }
            }
        }
        lemma_difat_fails(file, version, second, rest, next);
    }
}

/// A file in which the chain of the DIFAT leads to a sector that is not there, or
/// has not as many sectors as the header says, is refused for it.
pub proof fn law_refused_difat(
    file: Seq<u8>,
    version: Version,
    named: int,
    sectors: Seq<u32>,
    next: u32,
)
    requires
        is_header(file, version, named),
        leads_by_last(file, version, le32(file, 68), sectors, next),
    ensures
        next != 0xfffffffe && !has_sector(file, version, next) ==> open_file(file) == Walk::<
            CompoundView,
        >::Failed(Error::UnexpectedEof),
        next == 0xfffffffe && le32(file, 72) != sectors.len() ==> open_file(file) == Walk::<
            CompoundView,
        >::Failed(
            Error::WrongDifatLength {
                expected: le32(file, 72) as u32,
                actual: sectors.len() as usize,
            },
        ),
{
    lemma_described_header(file, version, named);
    lemma_header_described(file);
    let header = parse_header(window(file, 0, 512))->Ok_0;
    let first = header.first_difat_sector;
    if next == 0xfffffffe {
        assert(is_linked_by_last(file, version, first as int, sectors));
        lemma_described_difat(file, version, first, sectors);
        lemma_difat_linked(file, version, first, sectors.len());
        law_difat_fuel(file, version, first, sectors.len());
    } else if !has_sector(file, version, next) {
        lemma_difat_fails(file, version, first, sectors, next);
        law_difat_fuel(file, version, first, sectors.len());
    }
}

/// The FAT cannot be read where one of its sectors is not there.
proof fn lemma_fat_fails(file: Seq<u8>, version: Version, difat: Seq<u32>, i: nat, k: int)
    requires
        i <= k < difat.len(),
        !has_sector(file, version, difat[k]),
    ensures
        fat_sectors(file, version, difat, i) == Err::<Seq<u32>, _>(Error::UnexpectedEof),
    decreases k - i,
{
    lemma_sector(file, version, difat[i as int]);
    if i < k {
        lemma_fat_fails(file, version, difat, i + 1, k);
    }
}

/// What is opened of a file whose DIFAT is known.
proof fn lemma_tables_of(
    file: Seq<u8>,
    version: Version,
    named: int,
    sectors: Seq<u32>,
    difat: Seq<u32>,
)
    requires
        is_header(file, version, named),
        is_difat_chain(file, version, sectors),
        is_difat(file, version, named, sectors, difat),
    ensures
        parse_header(window(file, 0, 512)) is Ok,
        parse_header(window(file, 0, 512))->Ok_0.version == version,
        parse_header(window(file, 0, 512))->Ok_0.first_dir_sector == le32(file, 48),
        open_file(file) == open_tables(
            file,
            parse_header(window(file, 0, 512))->Ok_0,
            difat,
            sectors.len(),
        ),
        parse_header(window(file, 0, 512))->Ok_0.num_difat_sectors == sectors.len(),
{
    lemma_described_header(file, version, named);
    lemma_header_described(file);
    let header = parse_header(window(file, 0, 512))->Ok_0;
    let first = header.first_difat_sector;
    lemma_described_difat(file, version, first, sectors);
    lemma_difat_linked(file, version, first, sectors.len());
    lemma_difat_numbers(file, version, first, sectors.len());
    law_difat_fuel(file, version, first, sectors.len());
    let rest = difat_chain(file, version, first, file.len())->Done_0.0;
    lemma_difat_together(file, version, header.difat, sectors, rest, difat);
}

/// A file without one of the sectors of the FAT is refused for it.
pub proof fn law_refused_fat(
    file: Seq<u8>,
    version: Version,
    named: int,
    sectors: Seq<u32>,
    difat: Seq<u32>,
    k: int,
)
    requires
        is_header(file, version, named),
        is_difat_chain(file, version, sectors),
        is_difat(file, version, named, sectors, difat),
        0 <= k < difat.len(),
        !has_sector(file, version, difat[k]),
    ensures
        open_file(file) == Walk::<CompoundView>::Failed(Error::UnexpectedEof),
{
    lemma_tables_of(file, version, named, sectors, difat);
    lemma_fat_fails(file, version, difat, 0, k);
}

/// Why the bytes of an entry at a place are refused: the first of these reasons
/// that holds, if one does.
pub open spec fn entry_refusal(s: Seq<u8>, at: int) -> Option<Error> {
    let len = le16(s, at + 64);
    if s.len() < at + 66 {
        Some(Error::UnexpectedEof)
    } else if len > 64 || len % 2 == 1 {
        Some(Error::InvalidNameLength(len as u16))
    } else if le16(s, at + 2 * unit_count(len)) != 0 {
        Some(Error::NameNotTerminated)
    } else if s.len() < at + 72 {
        Some(Error::UnexpectedEof)
    } else if !is_entry_number(le32(s, at + 68)) {
        Some(Error::InvalidLeftSibling(le32(s, at + 68) as u32))
    } else if s.len() < at + 76 {
        Some(Error::UnexpectedEof)
    } else if !is_entry_number(le32(s, at + 72)) {
        Some(Error::InvalidRightSibling(le32(s, at + 72) as u32))
    } else if s.len() < at + 80 {
        Some(Error::UnexpectedEof)
    } else if !is_entry_number(le32(s, at + 76)) {
        Some(Error::InvalidChild(le32(s, at + 76) as u32))
    } else if s.len() < at + 128 {
        Some(Error::UnexpectedEof)
    } else {
        None
    }
}

/// The bytes of an entry are refused just where there is a reason, and for it.
pub proof fn law_refused_entry(s: Seq<u8>, at: nat, sector: u32, version: Version)
    ensures
        match entry_refusal(s, at as int) {
            Some(e) => parse_entry(window(s, at, 128), sector, version) == Err::<
                DirEntryView,
                Error,
            >(e),
            None => parse_entry(window(s, at, 128), sector, version) is Ok,
        },
{
    let b = at as int;
    let w = window(s, at, 128);
    if w.len() >= 66 {
        assert(forall|i: int| 0 <= i < w.len() ==> #[trigger] w[i] == s[b + i]);
        let len = u16_at(w, 64);
        assert(len == le16(s, b + 64));
        if len <= 64 && len % 2 == 0 {
            let count = name_unit_count(len) as int;
            assert(u16_at(w, 2 * count) == le16(s, b + 2 * count));
        }
        if w.len() >= 72 {
            assert(u32_at(w, 68) == le32(s, b + 68));
        }
        if w.len() >= 76 {
            assert(u32_at(w, 72) == le32(s, b + 72));
        }
        if w.len() >= 80 {
            assert(u32_at(w, 76) == le32(s, b + 76));
        }
    }
}

/// Whether a chain of the FAT goes from `first` through sectors to `next`.
pub open spec fn leads_by_fat(fat: Seq<u32>, first: int, sectors: Seq<u32>, next: u32) -> bool {
    &&& first == if sectors.len() > 0 {
        sectors[0]
    } else {
        next
    }
    &&& forall|i: int|
        0 <= i < sectors.len() ==> {
            &&& #[trigger] sectors[i] != 0xfffffffe
            &&& sectors[i] < fat.len()
            &&& fat[sectors[i] as int] == if i + 1 < sectors.len() {
                sectors[i + 1]
            } else {
                next
            }
        }
}

/// A sector of the directory fails at its first entry that is refused.
proof fn lemma_sector_fails(file: Seq<u8>, version: Version, sector: u32, q: nat, k: nat)
    requires
        q <= k < sector_size(version) / 128,
        forall|j: int|
            q <= j < k ==> entry_refusal(
                file,
                #[trigger] place(version, sector, 128 * j),
            ) is None,
        entry_refusal(file, place(version, sector, 128 * k as int)) is Some,
    ensures
        sector_entries(sector_window(file, version, sector), sector, version, q) == Err::<
            Seq<DirEntryView>,
            Error,
        >(entry_refusal(file, place(version, sector, 128 * k as int))->0),
    decreases k - q,
{
    let at = place(version, sector, 0) as nat;
    lemma_sector_start(version, sector);
    assert(place(version, sector, 128 * q as int) == at + 128 * q);
    lemma_window_in_window(file, at, sector_size(version) as nat, 128 * q, 128);
    law_refused_entry(file, at + 128 * q, sector, version);
    if q < k {
        assert(entry_refusal(file, place(version, sector, 128 * q as int)) is None);
        lemma_sector_fails(file, version, sector, q + 1, k);
    }
}

/// A directory fails at its first sector that does.
proof fn lemma_dir_fails(
    file: Seq<u8>,
    version: Version,
    fat: Seq<u32>,
    first: u32,
    sectors: Seq<u32>,
    next: u32,
    before: Seq<DirEntryView>,
    e: Error,
)
    requires
        leads_by_fat(fat, first as int, sectors, next),
        is_directory(file, version, sectors, before),
        next != 0xfffffffe,
        sector_entries(sector_window(file, version, next), next, version, 0) == Err::<
            Seq<DirEntryView>,
            Error,
        >(e),
    ensures
        dir_chain(file, version, fat, first, sectors.len()) == Walk::<
            Seq<DirEntryView>,
        >::Failed(e),
    decreases sectors.len(),
{
    let n = sector_size(version) / 128;
    lemma_blocks(n, sectors.len() as int);
    if sectors.len() > 0 {
        let later = sectors.drop_first();
        let second = fat[first as int];
        assert(sectors[0] == first);
        assert(before.len() >= n) by (nonlinear_arith)
            requires
                before.len() == n * sectors.len(),
                sectors.len() >= 1,
                n >= 0,
        ;
        let entries = before.take(n);
        let rest = before.skip(n);
        assert(entries + rest =~= before);
        lemma_directory_step(file, version, sectors, entries, rest);
        lemma_sector_described(file, version, first, 0, entries);
        assert(leads_by_fat(fat, second as int, later, next)) by {
            if later.len() > 0 {
                assert(later[0] == sectors[1]);
            }
            assert forall|i: int| 0 <= i < later.len() implies {
                &&& #[trigger] later[i] != 0xfffffffe
                &&& later[i] < fat.len()
                &&& fat[later[i] as int] == if i + 1 < later.len() {
                    later[i + 1]
                } else {
                    next
                }
            } by {
                assert(later[i] == sectors[i + 1]);
                if i + 1 < later.len() {
                    assert(later[i + 1] == sectors[i + 2]);
                }
            }
        }
        lemma_dir_fails(file, version, fat, second, later, next, rest, e);
    }
}

/// A file with an entry that is refused, behind entries and sectors that are not,
/// is refused for that entry.
pub proof fn law_refused_directory(
    file: Seq<u8>,
    v: CompoundView,
    named: int,
    difat_sectors: Seq<u32>,
    dir_sectors: Seq<u32>,
    next: u32,
    k: nat,
)
    requires
        is_header(file, v.version, named),
        is_difat_chain(file, v.version, difat_sectors),
        is_difat(file, v.version, named, difat_sectors, v.difat),
        is_fat(file, v.version, v.difat, v.fat),
        leads_by_fat(v.fat, le32(file, 48), dir_sectors, next),
        is_directory(file, v.version, dir_sectors, v.directory),
        next != 0xfffffffe,
        k < sector_size(v.version) / 128,
        forall|j: int|
            0 <= j < k ==> entry_refusal(
                file,
                #[trigger] place(v.version, next, 128 * j),
            ) is None,
        entry_refusal(file, place(v.version, next, 128 * k as int)) is Some,
    ensures
        open_file(file) == Walk::<CompoundView>::Failed(
            entry_refusal(file, place(v.version, next, 128 * k as int))->0,
        ),
{
    let e = entry_refusal(file, place(v.version, next, 128 * k as int))->0;
    lemma_tables_of(file, v.version, named, difat_sectors, v.difat);
    let header = parse_header(window(file, 0, 512))->Ok_0;
    lemma_described_fat(file, v.version, v.difat, v.fat);
    lemma_sector_fails(file, v.version, next, 0, k);
    lemma_dir_fails(
        file,
        v.version,
        v.fat,
        header.first_dir_sector,
        dir_sectors,
        next,
        v.directory,
        e,
    );
    law_directory_fuel(file, v.version, v.fat, header.first_dir_sector, dir_sectors.len());
}

} // verus!
