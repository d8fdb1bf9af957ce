//! What holds of seeking and reading in streams.

use vstd::prelude::*;

use crate::compound::stream_id;
use crate::constants::END_OF_CHAIN;
use crate::error::Error;
use crate::layout::CompoundView;
use crate::open_laws::{place, sector_size};
use crate::path::PathComponentView;
use crate::storage::{is_entry_for_path, StorageEntry};
use crate::stream::{
    as_signed, byte_position, chain_sector, is_in_stream, is_read, is_sought, is_stream_for_path,
    lemma_step, read_len_at, seek_target, span_len, stream_bytes, SeekFrom, Stream,
};
use crate::version::{sector_len, Version};

verus! {

/// Seeking counts from the start, from the end or from where the stream is at,
/// as long as the stream and the offset are below 2^63.
pub proof fn law_seek_targets(total_len: u64, offset: u64, place: u64, delta: i64)
    requires
        total_len <= i64::MAX,
        offset <= total_len,
        place <= i64::MAX,
    ensures
        seek_target(SeekFrom::Start(place), total_len, offset) == place,
        seek_target(SeekFrom::End(delta), total_len, offset) == total_len + delta,
        seek_target(SeekFrom::Current(delta), total_len, offset) == offset + delta,
{
}

/// A read in a stream that is not at its end can give some of the bytes that
/// are wanted, and does not go behind the end; at the end it gives none.
pub proof fn law_read_goes_on(version: Version, total_len: u64, offset: u64, want: nat)
    requires
        offset <= total_len,
        want > 0,
    ensures
        span_len(version, total_len, offset, want) == 0 <==> offset == total_len,
        span_len(version, total_len, offset, want) <= want,
        offset + span_len(version, total_len, offset, want) <= total_len,
{
}

/// Bytes of a stream and those behind them are the bytes of both.
pub proof fn law_reads_join(
    file: Seq<u8>,
    v: CompoundView,
    start: u32,
    offset: nat,
    n: nat,
    m: nat,
)
    ensures
        stream_bytes(file, v, start, offset, n) + stream_bytes(file, v, start, offset + n, m)
            == stream_bytes(file, v, start, offset, n + m),
{
    let both = stream_bytes(file, v, start, offset, n) + stream_bytes(
        file,
        v,
        start,
        offset + n,
        m,
    );
    assert forall|i: int| 0 <= i < n + m implies both[i] == stream_bytes(
        file,
        v,
        start,
        offset,
        n + m,
    )[i] by {
        if i >= n {
            assert(offset + n + (i - n) == offset + i);
        }
    }
    assert(both =~= stream_bytes(file, v, start, offset, n + m));
}

/// Whether all bytes of a stream lie in the file.
pub open spec fn lies_in(file: Seq<u8>, v: CompoundView, start: u32, total_len: u64) -> bool {
    forall|offset: nat|
        offset < total_len ==> #[trigger] byte_position(v, start, offset) < file.len()
}

/// Where all bytes of a stream lie in the file, a read gives as many bytes as can
/// be read at once.
pub proof fn law_whole_read(
    file: Seq<u8>,
    v: CompoundView,
    start: u32,
    total_len: u64,
    offset: u64,
    want: nat,
)
    requires
        offset <= total_len,
        lies_in(file, v, start, total_len),
    ensures
        read_len_at(file, v, start, total_len, offset, want) == span_len(
            v.version,
            total_len,
            offset,
            want,
        ),
{
    let n = span_len(v.version, total_len, offset, want);
    if n > 0 {
        let last = (offset + n - 1) as nat;
        lemma_step(offset as nat, (n - 1) as nat, sector_len(v.version));
        assert(byte_position(v, start, last) == byte_position(v, start, offset as nat) + n - 1);
    }
}

/// A read of a stream whose bytes all lie in the file gives as many bytes as can
/// be read at once.
pub proof fn law_stream_reads_whole<'a>(s: Stream<'a, Vec<u8>>, want: nat)
    requires
        s.is_valid(),
        lies_in(s.comp.underlying()@, s.comp@, s.start_sector, s.total_len),
    ensures
        s.read_len(want) == s.span(want),
{
    law_whole_read(
        s.comp.underlying()@,
        s.comp@,
        s.start_sector,
        s.total_len,
        s.offset_from_start,
        want,
    );
}

/// Whether the FAT has a sector for every part of a stream.
pub open spec fn has_sectors(v: CompoundView, start: u32, total_len: u64) -> bool {
    forall|k: nat|
        k * sector_len(v.version) < total_len ==> {
            &&& #[trigger] chain_sector(v.fat, start, k) is Some
            &&& chain_sector(v.fat, start, k)->0 < v.fat.len()
            &&& chain_sector(v.fat, start, k)->0 != END_OF_CHAIN
        }
}

/// Where the FAT has a sector for every part of a stream, the stream can go on
/// after any read.
pub proof fn law_stream_goes_on<'a, F>(s: Stream<'a, F>, n: nat)
    requires
        s.is_valid(),
        has_sectors(s.comp@, s.start_sector, s.total_len),
        n <= s.span(n),
    ensures
        s.can_advance_by(n),
{
    let v = s.comp@;
    let len = sector_len(v.version);
    let offset = s.offset_from_start as nat;
    if s.offset_within_sector + n == len {
        let k = offset / len;
        lemma_step(offset, n, len);
        vstd::arithmetic::div_mod::lemma_fundamental_div_mod(offset as int, len as int);
        assert(k * len == len * k) by (nonlinear_arith);
        assert((k + 1) * len == len * k + len) by (nonlinear_arith);
        assert(k * len < s.total_len);
        assert(chain_sector(v.fat, s.start_sector, k) is Some);
        if offset + n < s.total_len {
            assert(chain_sector(v.fat, s.start_sector, k + 1) is Some);
        }
    }
}

/// What reads give, one after the other, each for as many bytes as are wanted.
pub open spec fn read_on(
    file: Seq<u8>,
    v: CompoundView,
    start: u32,
    total_len: u64,
    offset: u64,
    wants: Seq<nat>,
) -> Seq<u8>
    decreases wants.len(),
{
    if wants.len() == 0 {
        Seq::empty()
    } else {
        let n = read_len_at(file, v, start, total_len, offset, wants[0]);
        stream_bytes(file, v, start, offset as nat, n) + read_on(
            file,
            v,
            start,
            total_len,
            (offset + n) as u64,
            wants.drop_first(),
        )
    }
}

/// One read after the other gives the bytes of the stream from where it is at,
/// once each and in order, however many are wanted each time, where they all
/// lie in the file.  Every read for
/// some bytes gives at least one until the end is come to, so as many reads as
/// there are bytes give them all.
pub proof fn law_reads_to_end(
    file: Seq<u8>,
    v: CompoundView,
    start: u32,
    total_len: u64,
    offset: u64,
    wants: Seq<nat>,
)
    requires
        offset <= total_len,
        lies_in(file, v, start, total_len),
        forall|i: int| 0 <= i < wants.len() ==> #[trigger] wants[i] > 0,
    ensures
        ({
            let all = read_on(file, v, start, total_len, offset, wants);
            &&& all == stream_bytes(file, v, start, offset as nat, all.len())
            &&& all.len() <= total_len - offset
            &&& all.len() < total_len - offset ==> all.len() >= wants.len()
            &&& wants.len() >= total_len - offset ==> all.len() == total_len - offset
        }),
    decreases wants.len(),
{
    let all = read_on(file, v, start, total_len, offset, wants);
    if wants.len() == 0 {
        assert(all =~= stream_bytes(file, v, start, offset as nat, 0));
    } else {
        let n = read_len_at(file, v, start, total_len, offset, wants[0]);
        law_whole_read(file, v, start, total_len, offset, wants[0]);
        law_read_goes_on(v.version, total_len, offset, wants[0]);
        let later = wants.drop_first();
        assert forall|i: int| 0 <= i < later.len() implies #[trigger] later[i] > 0 by {
            assert(later[i] == wants[i + 1]);
        }
        law_reads_to_end(file, v, start, total_len, (offset + n) as u64, later);
        let rest = read_on(file, v, start, total_len, (offset + n) as u64, later);
        law_reads_join(file, v, start, offset as nat, n, rest.len());
    }
}

/// Whether sectors are a chain of the FAT from `start` on.
pub open spec fn is_chain(fat: Seq<u32>, start: u32, sectors: Seq<u32>) -> bool {
    &&& sectors.len() > 0
    &&& sectors[0] == start
    &&& forall|k: int|
        0 <= k < sectors.len() - 1 ==> {
            &&& (#[trigger] sectors[k]) < fat.len()
            &&& fat[sectors[k] as int] == sectors[k + 1]
        }
}

/// Links lead through a chain.
proof fn lemma_chain_is(fat: Seq<u32>, start: u32, sectors: Seq<u32>, k: nat)
    requires
        is_chain(fat, start, sectors),
        k < sectors.len(),
    ensures
        chain_sector(fat, start, k) == Some(sectors[k as int]),
    decreases k,
{
    if k > 0 {
        lemma_chain_is(fat, start, sectors, (k - 1) as nat);
        assert(sectors[k - 1] < fat.len());
    }
}

/// A byte of a stream lies in the sector of its chain that comes after as many
/// whole sectors as there are before the byte, and there behind the bytes that
/// are left over.
pub proof fn law_byte_place(
    v: CompoundView,
    start: u32,
    sectors: Seq<u32>,
    offset: nat,
)
    requires
        is_chain(v.fat, start, sectors),
        offset as int / sector_size(v.version) < sectors.len(),
    ensures
        byte_position(v, start, offset) == place(
            v.version,
            sectors[offset as int / sector_size(v.version)],
            offset as int % sector_size(v.version),
        ),
{
    match v.version {
        Version::V3 => {},
        Version::V4 => {},
    }
    lemma_chain_is(v.fat, start, sectors, offset / sector_len(v.version));
}

/// The bytes that a read gives are those of the file at the places of the stream.
pub proof fn law_bytes_read(
    file: Seq<u8>,
    v: CompoundView,
    start: u32,
    sectors: Seq<u32>,
    offset: nat,
    len: nat,
    i: int,
)
    requires
        is_chain(v.fat, start, sectors),
        0 <= i < len,
        (offset + i) / sector_size(v.version) < sectors.len(),
    ensures
        stream_bytes(file, v, start, offset, len).len() == len,
        stream_bytes(file, v, start, offset, len)[i] == file[place(
            v.version,
            sectors[(offset + i) / sector_size(v.version)],
            (offset + i) % sector_size(v.version),
        )],
{
    law_byte_place(v, start, sectors, (offset + i) as nat);
}

/// A read gives no more than is wanted, than the stream has left and than the
/// sector has left, and it goes up to one of these ends or to the end of the
/// file, which it does not go behind.
pub proof fn law_read_len(
    file: Seq<u8>,
    v: CompoundView,
    start: u32,
    total_len: u64,
    offset: u64,
    want: nat,
)
    requires
        offset <= total_len,
    ensures
        ({
            let n = read_len_at(file, v, start, total_len, offset, want);
            let at = byte_position(v, start, offset as nat);
            let within = offset as int % sector_size(v.version);
            &&& n <= want
            &&& offset + n <= total_len
            &&& within + n <= sector_size(v.version)
            &&& n > 0 ==> at + n <= file.len()
            &&& n == want || offset + n == total_len || within + n == sector_size(v.version) || at
                + n >= file.len()
        }),
        ({
            let n = span_len(v.version, total_len, offset, want);
            let within = offset as int % sector_size(v.version);
            &&& n <= want
            &&& offset + n <= total_len
            &&& within + n <= sector_size(v.version)
            &&& n == want || offset + n == total_len || within + n == sector_size(v.version)
        }),
{
    match v.version {
        Version::V3 => {},
        Version::V4 => {},
    }
}

/// A path can be opened as a stream where what is looked up by it is one, which
/// is then as long as was looked up and at its start; it fails for the reason for
/// which the look-up does, and names the path where there is something else.
pub proof fn law_opened_stream<'a, F>(
    v: CompoundView,
    components: Seq<PathComponentView>,
    path: Seq<char>,
    r: Result<Stream<'a, F>, Error>,
    looked_up: Result<StorageEntry, Error>,
)
    requires
        is_stream_for_path(v, components, path, r),
        is_entry_for_path(v, components, looked_up),
    ensures
        match looked_up {
            Err(e) => r is Err && r->Err_0 == e,
            Ok(entry) => if entry@.obj_type == 2 {
                &&& r is Ok
                &&& r->Ok_0.total_len == entry@.stream_len
                &&& r->Ok_0.offset_from_start == 0
                &&& r->Ok_0.offset_within_sector == 0
                &&& r->Ok_0.current_sector == r->Ok_0.start_sector
                &&& stream_id(v, components) matches Ok(id) && r->Ok_0.start_sector
                    == v.directory[id as int].start_sector
            } else {
                r matches Err(Error::NotAStream(p)) && p@ == path
            },
        },
{
    if r is Ok {
        assert(0nat / sector_len(v.version) == 0);
        assert(chain_sector(v.fat, r->Ok_0.start_sector, 0) == Some(r->Ok_0.start_sector));
    }
}

/// A seek goes to the place that is asked for where that is in the stream or at
/// its end, and gives it back; else it fails, says which place and which length,
/// and the stream stays where it is.
pub proof fn law_sought(
    pos: SeekFrom,
    total_len: u64,
    before: u64,
    after: u64,
    r: Result<u64, Error>,
)
    requires
        is_sought(pos, total_len, before, after, r),
        before <= total_len <= 0x7fff_ffff_ffff_ffff,
        pos matches SeekFrom::Start(n) ==> n <= 0x7fff_ffff_ffff_ffff,
    ensures
        ({
            let asked = match pos {
                SeekFrom::Start(n) => n as int,
                SeekFrom::End(delta) => total_len + delta,
                SeekFrom::Current(delta) => before + delta,
            };
            if 0 <= asked <= total_len {
                r == Ok::<u64, Error>(asked as u64) && after == asked
            } else {
                &&& after == before
                &&& r matches Err(Error::InvalidSeek { position, len }) && len == total_len && (
                asked <= 0x7fff_ffff_ffff_ffff ==> position == asked)
            }
        }),
{
}

/// A read puts the bytes of the stream from its offset on into the front of the
/// buffer, as they lie in the sectors of its chain, and changes nothing behind
/// them.  There are as many as are wanted, or they go up to the end of the stream,
/// of the sector or of the file.
pub proof fn law_read(
    file: Seq<u8>,
    v: CompoundView,
    start: u32,
    sectors: Seq<u32>,
    total_len: u64,
    offset: u64,
    before: Seq<u8>,
    after: Seq<u8>,
    r: Result<usize, Error>,
    k: int,
)
    requires
        is_read(file, v, start, total_len, offset, before, after, r),
        is_chain(v.fat, start, sectors),
        offset <= total_len,
        offset as int / sector_size(v.version) < sectors.len(),
    ensures
        r is Ok,
        after.len() == before.len(),
        ({
            let n = r->Ok_0;
            let sector = sectors[offset as int / sector_size(v.version)];
            let within = offset as int % sector_size(v.version);
            let at = place(v.version, sector, within);
            &&& n <= before.len()
            &&& offset + n <= total_len
            &&& within + n <= sector_size(v.version)
            &&& n > 0 ==> at + n <= file.len()
            &&& n == before.len() || offset + n == total_len || within + n == sector_size(
                v.version,
            ) || at + n >= file.len()
            &&& 0 <= k < n ==> after[k] == file[at + k]
            &&& n <= k < before.len() ==> after[k] == before[k]
        }),
{
    let n = r->Ok_0;
    let within = offset as int % sector_size(v.version);
    law_read_len(file, v, start, total_len, offset, before.len());
    law_byte_place(v, start, sectors, offset as nat);
    if 0 <= k < n {
        lemma_step(offset as nat, k as nat, sector_len(v.version));
        law_bytes_read(file, v, start, sectors, offset as nat, n as nat, k);
        assert(after[k] == stream_bytes(file, v, start, offset as nat, n as nat)[k]);
    }
    if n <= k < before.len() {
        assert(after[k] == before.skip(n as int)[k - n]);
    }
}

/// A stream is in the sector of its chain, and at the place in it, that its
/// offset gives.
pub proof fn law_stream_place<'a, F>(s: Stream<'a, F>, sectors: Seq<u32>)
    requires
        s.is_valid(),
        is_chain(s.comp@.fat, s.start_sector, sectors),
        s.offset_from_start as int / sector_size(s.comp@.version) < sectors.len(),
    ensures
        s.offset_from_start <= s.total_len,
        s.offset_within_sector == s.offset_from_start as int % sector_size(
            old(s.comp)@.version,
        ),
        s.current_sector == sectors[s.offset_from_start as int / sector_size(
            old(s.comp)@.version,
        )],
{
    match s.comp@.version {
        Version::V3 => {},
        Version::V4 => {},
    }
    lemma_chain_is(
        s.comp@.fat,
        s.start_sector,
        sectors,
        s.offset_from_start as nat / sector_len(s.comp@.version),
    );
}

/// A place can be sought where it lies between the start and the end, both of
/// which are such places, and the chain goes that far.
pub proof fn law_seekable<'a, F>(s: Stream<'a, F>, pos: SeekFrom, sectors: Seq<u32>)
    requires
        s.is_valid(),
        is_chain(s.comp@.fat, s.start_sector, sectors),
        -0x8000_0000_0000_0000 <= seek_target(pos, s.total_len, s.offset_from_start)
            <= 0x7fff_ffff_ffff_ffff,
    ensures
        is_in_stream(seek_target(pos, s.total_len, s.offset_from_start), s.total_len) <==> 0
            <= seek_target(pos, s.total_len, s.offset_from_start) <= s.total_len,
        seek_target(pos, s.total_len, s.offset_from_start) / sector_size(old(s.comp)@.version)
            < sectors.len() ==> s.can_seek_to(pos),
{
    let target = seek_target(pos, s.total_len, s.offset_from_start);
    match s.comp@.version {
        Version::V3 => {},
        Version::V4 => {},
    }
    if 0 <= target && target / sector_size(s.comp@.version) < sectors.len() {
        lemma_chain_is(
            s.comp@.fat,
            s.start_sector,
            sectors,
            target as nat / sector_len(s.comp@.version),
        );
    }
}

/// A number that is taken as a signed one differs by 2^64 at most, and is in the
/// range of the signed ones.
pub proof fn law_as_signed(n: u64)
    ensures
        -0x8000_0000_0000_0000 <= as_signed(n) <= 0x7fff_ffff_ffff_ffff,
        as_signed(n) == n || as_signed(n) == n - 0x1_0000_0000_0000_0000,
{
}

} // verus!
