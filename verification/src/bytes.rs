//! Little-endian numbers in bytes.

use byteorder::{LittleEndian, ReadBytesExt, WriteBytesExt};
use vstd::prelude::*;

use crate::error::Error;

verus! {

/// The 16-bit number that lies at a place in `s`.
pub open spec fn u16_at(s: Seq<u8>, at: int) -> u16 {
    (s[at] + 0x100 * s[at + 1]) as u16
}

/// The 32-bit number that lies at a place in `s`.
pub open spec fn u32_at(s: Seq<u8>, at: int) -> u32 {
    (s[at] + 0x100 * s[at + 1] + 0x1_0000 * s[at + 2] + 0x100_0000 * s[at + 3]) as u32
}

/// The 64-bit number that lies at a place in `s`.
pub open spec fn u64_at(s: Seq<u8>, at: int) -> u64 {
    (u32_at(s, at) + 0x1_0000_0000 * u32_at(s, at + 4)) as u64
}

/// The bytes of a 16-bit number.
pub open spec fn u16_bytes(n: u16) -> Seq<u8> {
    seq![(n % 0x100) as u8, (n / 0x100) as u8]
}

/// The bytes of a 32-bit number.
pub open spec fn u32_bytes(n: u32) -> Seq<u8> {
    seq![
        (n % 0x100) as u8,
        (n / 0x100 % 0x100) as u8,
        (n / 0x1_0000 % 0x100) as u8,
        (n / 0x100_0000) as u8,
    ]
}

/// So many bytes of zero.
pub open spec fn zeros(n: nat) -> Seq<u8> {
    Seq::new(n, |i: int| 0u8)
}

/// The bytes of a file from a place on, `len` of them or as many as there are.
pub open spec fn window(file: Seq<u8>, at: nat, len: nat) -> Seq<u8> {
    if at >= file.len() {
        Seq::empty()
    } else if at + len <= file.len() {
        file.subrange(at as int, (at + len) as int)
    } else {
        file.subrange(at as int, file.len() as int)
    }
}

/// Calls `byteorder::ReadBytesExt::read_u8` on a slice: the first byte, and an
/// error where the slice is empty.
#[verifier::external_body]
fn read_u8(buf: &[u8]) -> (r: Option<u8>)
    ensures
        r == if buf@.len() >= 1 { Some(buf@[0]) } else { None },
{
    let mut reader: &[u8] = buf;
    reader.read_u8().ok()
}

/// Calls `byteorder::ReadBytesExt::read_u16` on a slice, in little-endian
/// order: the number in the first two bytes, and an error where the slice is
/// shorter.
#[verifier::external_body]
fn read_u16(buf: &[u8]) -> (r: Option<u16>)
    ensures
        r == if buf@.len() >= 2 { Some(u16_at(buf@, 0)) } else { None },
{
    let mut reader: &[u8] = buf;
    reader.read_u16::<LittleEndian>().ok()
}

/// Calls `byteorder::ReadBytesExt::read_u32` on a slice, in little-endian
/// order: the number in the first four bytes, and an error where the slice is
/// shorter.
#[verifier::external_body]
fn read_u32(buf: &[u8]) -> (r: Option<u32>)
    ensures
        r == if buf@.len() >= 4 { Some(u32_at(buf@, 0)) } else { None },
{
    let mut reader: &[u8] = buf;
    reader.read_u32::<LittleEndian>().ok()
}

/// Calls `byteorder::ReadBytesExt::read_u64` on a slice, in little-endian
/// order: the number in the first eight bytes, and an error where the slice is
/// shorter.
#[verifier::external_body]
fn read_u64(buf: &[u8]) -> (r: Option<u64>)
    ensures
        r == if buf@.len() >= 8 { Some(u64_at(buf@, 0)) } else { None },
{
    let mut reader: &[u8] = buf;
    reader.read_u64::<LittleEndian>().ok()
}

/// Calls `byteorder::WriteBytesExt::write_u8` on a vector, which appends the
/// byte.
#[verifier::external_body]
pub(crate) fn write_u8(out: &mut Vec<u8>, n: u8)
    ensures
        final(out)@ == old(out)@ + seq![n],
{
    out.write_u8(n).unwrap()
}

/// Calls `byteorder::WriteBytesExt::write_u16` on a vector, which appends the
/// two bytes of the number in little-endian order.
#[verifier::external_body]
pub(crate) fn write_u16(out: &mut Vec<u8>, n: u16)
    ensures
        final(out)@ == old(out)@ + u16_bytes(n),
{
    out.write_u16::<LittleEndian>(n).unwrap()
}

/// Calls `byteorder::WriteBytesExt::write_u32` on a vector, which appends the
/// four bytes of the number in little-endian order.
#[verifier::external_body]
pub(crate) fn write_u32(out: &mut Vec<u8>, n: u32)
    ensures
        final(out)@ == old(out)@ + u32_bytes(n),
{
    out.write_u32::<LittleEndian>(n).unwrap()
}

/// The bytes from a place on, none where the place lies behind the end.
fn tail(s: &[u8], at: usize) -> (r: &[u8])
    ensures
        at <= s@.len() ==> r@ == s@.subrange(at as int, s@.len() as int),
        at > s@.len() ==> r@.len() == 0,
{
    if at <= s.len() {
        vstd::slice::slice_subrange(s, at, s.len())
    } else {
        vstd::slice::slice_subrange(s, 0, 0)
    }
}

/// Reads the byte at a place.
pub fn get_u8(s: &[u8], at: usize) -> (r: Result<u8, Error>)
    ensures
        r == if at + 1 <= s@.len() {
            Ok::<u8, Error>(s@[at as int])
        } else {
            Err(Error::UnexpectedEof)
        },
{
    match read_u8(tail(s, at)) {
        Some(n) => Ok(n),
        None => Err(Error::UnexpectedEof),
    }
}

/// Reads the 16-bit number at a place.
pub fn get_u16(s: &[u8], at: usize) -> (r: Result<u16, Error>)
    ensures
        r == if at + 2 <= s@.len() {
            Ok::<u16, Error>(u16_at(s@, at as int))
        } else {
            Err(Error::UnexpectedEof)
        },
{
    match read_u16(tail(s, at)) {
        Some(n) => Ok(n),
        None => Err(Error::UnexpectedEof),
    }
}

/// Reads the 32-bit number at a place.
pub fn get_u32(s: &[u8], at: usize) -> (r: Result<u32, Error>)
    ensures
        r == if at + 4 <= s@.len() {
            Ok::<u32, Error>(u32_at(s@, at as int))
        } else {
            Err(Error::UnexpectedEof)
        },
{
    match read_u32(tail(s, at)) {
        Some(n) => Ok(n),
        None => Err(Error::UnexpectedEof),
    }
}

/// Reads the 64-bit number at a place.
pub fn get_u64(s: &[u8], at: usize) -> (r: Result<u64, Error>)
    ensures
        r == if at + 8 <= s@.len() {
            Ok::<u64, Error>(u64_at(s@, at as int))
        } else {
            Err(Error::UnexpectedEof)
        },
{
    match read_u64(tail(s, at)) {
        Some(n) => Ok(n),
        None => Err(Error::UnexpectedEof),
    }
}

/// Appends so many bytes of zero.
pub(crate) fn write_zeros(out: &mut Vec<u8>, n: usize)
    ensures
        final(out)@ == old(out)@ + zeros(n as nat),
{
    let mut i: usize = 0;
    while i < n
        invariant
            i <= n,
            out@ == old(out)@ + zeros(i as nat),
        decreases n - i,
    {
        out.push(0);
        i += 1;
        assert(out@ =~= old(out)@ + zeros(i as nat));
    }
}

/// The bytes of a file from a place on, `len` of them or as many as there are.
pub fn read_window(file: &[u8], at: u64, len: usize) -> (r: &[u8])
    ensures
        r@ == window(file@, at as nat, len as nat),
{
    let total: usize = file.len();
    if at >= total as u64 {
        let r = vstd::slice::slice_subrange(file, 0, 0);
        assert(r@ =~= Seq::empty());
        r
    } else {
        let start: usize = at as usize;
        if len <= total - start {
            vstd::slice::slice_subrange(file, start, start + len)
        } else {
            vstd::slice::slice_subrange(file, start, total)
        }
    }
}

/// Reading a number back gives the number that was written.
pub proof fn law_u16_round_trip(n: u16, before: Seq<u8>, after: Seq<u8>)
    ensures
        u16_at(before + u16_bytes(n) + after, before.len() as int) == n,
{
}

/// Reading a number back gives the number that was written.
pub proof fn law_u32_round_trip(n: u32, before: Seq<u8>, after: Seq<u8>)
    ensures
        u32_at(before + u32_bytes(n) + after, before.len() as int) == n,
{
}

} // verus!
