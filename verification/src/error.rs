//! What can go wrong, and how it is told.

use vstd::prelude::*;
use vstd::string::StringExecFns;

use crate::constants::DIR_NAME_MAX_LEN;

verus! {

/// The broad kind of an error.
#[derive(Clone, Copy, Debug, PartialEq, Eq, Structural)]
pub enum ErrorKind {
    /// The file ends too early.
    UnexpectedEof,
    /// The file is not a valid compound file.
    InvalidData,
    /// What the caller asked for cannot be done.
    InvalidInput,
}

/// An error of this library.
#[derive(Debug, PartialEq, Eq)]
pub enum Error {
    /// The file ends before what has to be read.
    UnexpectedEof,
    /// The file does not start with the magic number.
    WrongMagicNumber,
    /// The file has a version other than 3 and 4.
    UnsupportedVersion(u16),
    /// The byte order mark is wrong.
    WrongByteOrderMark,
    /// The sector shift is not that of the version.
    WrongSectorShift {
        /// The sector shift of the file.
        shift: u16,
        /// The version number of the file.
        version: u16,
    },
    /// The DIFAT of the header names a sector that cannot exist.
    InvalidDifatSector(u32),
    /// The DIFAT chain is not as long as the header says.
    WrongDifatLength {
        /// The length that the header gives.
        expected: u32,
        /// The length of the chain.
        actual: usize,
    },
    /// A directory entry has a name length that cannot be.
    InvalidNameLength(u16),
    /// The name of a directory entry does not end with a zero.
    NameNotTerminated,
    /// The left sibling of a directory entry is no entry number.
    InvalidLeftSibling(u32),
    /// The right sibling of a directory entry is no entry number.
    InvalidRightSibling(u32),
    /// The child of a directory entry is no entry number.
    InvalidChild(u32),
    /// The path has a prefix, or leads above the root.
    InvalidPath,
    /// The path has a component that is not UTF-8.
    NonUtf8Path,
    /// There is no entry with that path.
    NotFound,
    /// The entry with that path is no stream.
    NotAStream(String),
    /// The root entry cannot be renamed.
    RenameRoot,
    /// The new name has more UTF-16 code units than fit.
    NameTooLong(usize),
    /// The new name contains a character that names cannot have.
    InvalidName,
    /// A sibling has the new name already.
    NameTaken,
    /// There is no such position in the stream.
    InvalidSeek {
        /// The position that was asked for.
        position: i64,
        /// The length of the stream.
        len: u64,
    },
}

/// The decimal digit for a number below ten.
pub open spec fn digit(n: nat) -> char {
    (n + 48) as u8 as char
}

/// A number in decimal digits.
pub open spec fn decimal(n: nat) -> Seq<char>
    decreases n,
{
    if n < 10 {
        seq![digit(n)]
    } else {
        decimal(n / 10).push(digit(n % 10))
    }
}

/// A number in decimal digits, with a sign where it is negative.
pub open spec fn signed_decimal(n: int) -> Seq<char> {
    if n < 0 {
        "-"@ + decimal((-n) as nat)
    } else {
        decimal(n as nat)
    }
}

/// What an error says, for all but `NotAStream`.
pub open spec fn error_text(e: Error) -> Seq<char> {
    match e {
        Error::UnexpectedEof => "failed to fill whole buffer"@,
        Error::WrongMagicNumber => "Invalid CFB file (wrong magic number)"@,
        Error::UnsupportedVersion(n) => "CFB version "@ + decimal(n as nat) + " is not supported"@,
        Error::WrongByteOrderMark => "Invalid CFB byte order mark"@,
        Error::WrongSectorShift { shift, version } => "Incorrect sector shift ("@ + decimal(
            shift as nat,
        ) + ") for CFB version "@ + decimal(version as nat),
        Error::InvalidDifatSector(n) => "Invalid sector index ("@ + decimal(n as nat)
            + ") in DIFAT"@,
        Error::WrongDifatLength { expected, actual } =>
            "Incorrect DIFAT chain length (file says "@ + decimal(expected as nat)
            + ", actual is "@ + decimal(actual as nat) + ")"@,
        Error::InvalidNameLength(n) => "Invalid name length ("@ + decimal(n as nat)
            + ") in directory entry"@,
        Error::NameNotTerminated => "Directory entry name must be null-terminated"@,
        Error::InvalidLeftSibling(n) => "Invalid left sibling in directory entry ("@ + decimal(
            n as nat,
        ) + ")"@,
        Error::InvalidRightSibling(n) => "Invalid right sibling in directory entry ("@ + decimal(
            n as nat,
        ) + ")"@,
        Error::InvalidChild(n) => "Invalid child in directory entry ("@ + decimal(n as nat) + ")"@,
        Error::InvalidPath => "Invalid path"@,
        Error::NonUtf8Path => "Non UTF-8 path"@,
        Error::NotFound => "not found"@,
        Error::NotAStream(_) => "not a stream: "@,
        Error::RenameRoot => "Cannot rename the root entry"@,
        Error::NameTooLong(n) => "New name cannot be more than "@ + decimal(DIR_NAME_MAX_LEN as nat)
            + " UTF-16 code units (was "@ + decimal(n as nat) + ")"@,
        Error::InvalidName => "New name cannot contain '/', '\\', ':', or '!'"@,
        Error::NameTaken => "New name is the name of a sibling"@,
        Error::InvalidSeek { position, len } => "Cannot seek to "@ + signed_decimal(position as int)
            + ", stream length is "@ + decimal(len as nat),
    }
}

/// The number that decimal digits are.
pub open spec fn digits_value(digits: Seq<char>) -> int
    decreases digits.len(),
{
    if digits.len() == 0 {
        0
    } else {
        10 * digits_value(digits.drop_last()) + (digits.last() as int - '0' as int)
    }
}

/// A number is written in digits that are that number, without zeros in front.
pub proof fn law_decimal(n: nat)
    ensures
        digits_value(decimal(n)) == n,
        decimal(n).len() > 0,
        decimal(n).len() > 1 ==> decimal(n)[0] != '0',
        forall|i: int| 0 <= i < decimal(n).len() ==> '0' <= #[trigger] decimal(n)[i] <= '9',
    decreases n,
{
    let last = digit(n % 10);
    assert(last as int == n % 10 + 48);
    if n < 10 {
        assert(seq![last].drop_last() =~= Seq::empty());
        assert(digits_value(Seq::empty()) == 0);
    } else {
        law_decimal(n / 10);
        let rest = decimal(n / 10);
        assert(decimal(n).drop_last() =~= rest);
        assert(decimal(n)[0] == rest[0]);
        if n / 10 < 10 {
            assert(rest[0] == digit(n / 10));
            assert(rest[0] as int == n / 10 + 48);
        } else {
            assert(rest.len() > 1) by {
                law_decimal(n / 10 / 10);
            }
        }
        assert forall|i: int| 0 <= i < decimal(n).len() implies '0' <= #[trigger] decimal(n)[i]
            <= '9' by {
            if i < rest.len() {
                assert(decimal(n)[i] == rest[i]);
            }
        }
    }
}

/// A negative number is written as a minus sign and the number without it.
pub proof fn law_signed_decimal(n: int)
    ensures
        n >= 0 ==> signed_decimal(n) == decimal(n as nat),
        n < 0 ==> signed_decimal(n)[0] == '-' && signed_decimal(n).drop_first() == decimal(
            (-n) as nat,
        ),
{
    reveal_strlit("-");
    if n < 0 {
        assert(signed_decimal(n).drop_first() =~= decimal((-n) as nat));
    }
}

/// Whether a text has two parts in it, the one before the other.
pub open spec fn has_in_order(text: Seq<char>, first: Seq<char>, second: Seq<char>) -> bool {
    exists|before: Seq<char>, between: Seq<char>, after: Seq<char>|
        text == #[trigger] (before + first + between + second + after)
}

/// What an error says of two numbers it says in this order: what the file has and
/// what is found, the sector shift and the version, the place and the length.
pub proof fn law_error_numbers(first: u16, second: u16, n: u32, m: usize, position: i64, len: u64)
    ensures
        has_in_order(
            error_text(Error::WrongDifatLength { expected: n, actual: m }),
            decimal(n as nat),
            decimal(m as nat),
        ),
        has_in_order(
            error_text(Error::WrongSectorShift { shift: first, version: second }),
            decimal(first as nat),
            decimal(second as nat),
        ),
        has_in_order(error_text(Error::NameTooLong(m)), decimal(31), decimal(m as nat)),
        has_in_order(
            error_text(Error::InvalidSeek { position, len }),
            signed_decimal(position as int),
            decimal(len as nat),
        ),
{
    let none = Seq::<char>::empty();
    assert(error_text(Error::WrongDifatLength { expected: n, actual: m })
        == "Incorrect DIFAT chain length (file says "@ + decimal(n as nat) + ", actual is "@
        + decimal(m as nat) + ")"@);
    assert(error_text(Error::WrongSectorShift { shift: first, version: second })
        =~= "Incorrect sector shift ("@ + decimal(first as nat) + ") for CFB version "@ + decimal(
        second as nat,
    ) + none);
    assert(error_text(Error::NameTooLong(m)) == "New name cannot be more than "@ + decimal(31)
        + " UTF-16 code units (was "@ + decimal(m as nat) + ")"@);
    assert(error_text(Error::InvalidSeek { position, len }) =~= "Cannot seek to "@
        + signed_decimal(position as int) + ", stream length is "@ + decimal(len as nat) + none);
}

/// Calls `u64::to_string`, which writes a number in decimal digits without
/// leading zeros.
#[verifier::external_body]
fn to_decimal(n: u64) -> (r: String)
    ensures
        r@ == decimal(n as nat),
{
    n.to_string()
}

/// Formats a path with its `Debug` format.  How that quotes the path depends
/// on the platform, so nothing is said of the result.
#[verifier::external_body]
fn quoted_path(path: &str) -> (r: String) {
    format!("{:?}", std::path::Path::new(path))
}

/// A text with a number in the middle.
fn text_with(before: &str, n: u64, after: &str) -> (r: String)
    ensures
        r@ == before@ + decimal(n as nat) + after@,
{
    let mut text = String::from_str(before);
    text.append(to_decimal(n).as_str());
    text.append(after);
    text
}

/// A text with two numbers in it.
fn text_with_two(before: &str, n: u64, between: &str, m: u64, after: &str) -> (r: String)
    ensures
        r@ == before@ + decimal(n as nat) + between@ + decimal(m as nat) + after@,
{
    let mut text = text_with(before, n, between);
    text.append(to_decimal(m).as_str());
    text.append(after);
    text
}

/// A number in decimal digits, with a sign where it is negative.
fn to_signed_decimal(n: i64) -> (r: String)
    ensures
        r@ == signed_decimal(n as int),
{
    if n < 0 {
        let mut text = String::from_str("-");
        text.append(to_decimal((-(n + 1)) as u64 + 1).as_str());
        text
    } else {
        to_decimal(n as u64)
    }
}

/// What is said of an object that is no stream, given its path as quoted.
pub fn not_a_stream_text(quoted: &str) -> (r: String)
    ensures
        r@ == "not a stream: "@ + quoted@,
{
    let mut text = String::from_str("not a stream: ");
    text.append(quoted);
    text
}

impl Error {
    /// The broad kind of this error.
    pub fn kind(&self) -> (r: ErrorKind)
        ensures
            r == match *self {
                Error::UnexpectedEof => ErrorKind::UnexpectedEof,
                Error::WrongMagicNumber
                | Error::UnsupportedVersion(_)
                | Error::WrongByteOrderMark
                | Error::WrongSectorShift { .. }
                | Error::InvalidDifatSector(_)
                | Error::WrongDifatLength { .. }
                | Error::InvalidNameLength(_)
                | Error::NameNotTerminated
                | Error::InvalidLeftSibling(_)
                | Error::InvalidRightSibling(_)
                | Error::InvalidChild(_) => ErrorKind::InvalidData,
                _ => ErrorKind::InvalidInput,
            },
    {
        match self {
            Error::UnexpectedEof => ErrorKind::UnexpectedEof,
            Error::WrongMagicNumber
            | Error::UnsupportedVersion(_)
            | Error::WrongByteOrderMark
            | Error::WrongSectorShift { .. }
            | Error::InvalidDifatSector(_)
            | Error::WrongDifatLength { .. }
            | Error::InvalidNameLength(_)
            | Error::NameNotTerminated
            | Error::InvalidLeftSibling(_)
            | Error::InvalidRightSibling(_)
            | Error::InvalidChild(_) => ErrorKind::InvalidData,
            Error::InvalidPath
            | Error::NonUtf8Path
            | Error::NotFound
            | Error::NotAStream(_)
            | Error::RenameRoot
            | Error::NameTooLong(_)
            | Error::InvalidName
            | Error::NameTaken
            | Error::InvalidSeek { .. } => ErrorKind::InvalidInput,
        }
    }

    /// What this error says.  For `NotAStream` the text goes on with the path,
    /// quoted as the platform quotes paths.
    pub fn message(&self) -> (r: String)
        ensures
            !(self is NotAStream) ==> r@ == error_text(*self),
            self is NotAStream ==> error_text(*self).is_prefix_of(r@),
    {
        match self {
            Error::UnexpectedEof => String::from_str("failed to fill whole buffer"),
            Error::WrongMagicNumber => String::from_str("Invalid CFB file (wrong magic number)"),
            Error::UnsupportedVersion(n) => text_with(
                "CFB version ",
                *n as u64,
                " is not supported",
            ),
            Error::WrongByteOrderMark => String::from_str("Invalid CFB byte order mark"),
            Error::WrongSectorShift { shift, version } => {
                let mut text = text_with(
                    "Incorrect sector shift (",
                    *shift as u64,
                    ") for CFB version ",
                );
                text.append(to_decimal(*version as u64).as_str());
                text
            },
            Error::InvalidDifatSector(n) => text_with(
                "Invalid sector index (",
                *n as u64,
                ") in DIFAT",
            ),
            Error::WrongDifatLength { expected, actual } => text_with_two(
                "Incorrect DIFAT chain length (file says ",
                *expected as u64,
                ", actual is ",
                *actual as u64,
                ")",
            ),
            Error::InvalidNameLength(n) => text_with(
                "Invalid name length (",
                *n as u64,
                ") in directory entry",
            ),
            Error::NameNotTerminated => String::from_str(
                "Directory entry name must be null-terminated",
            ),
            Error::InvalidLeftSibling(n) => text_with(
                "Invalid left sibling in directory entry (",
                *n as u64,
                ")",
            ),
            Error::InvalidRightSibling(n) => text_with(
                "Invalid right sibling in directory entry (",
                *n as u64,
                ")",
            ),
            Error::InvalidChild(n) => text_with(
                "Invalid child in directory entry (",
                *n as u64,
                ")",
            ),
            Error::InvalidPath => String::from_str("Invalid path"),
            Error::NonUtf8Path => String::from_str("Non UTF-8 path"),
            Error::NotFound => String::from_str("not found"),
            Error::NotAStream(path) => not_a_stream_text(quoted_path(path.as_str()).as_str()),
            Error::RenameRoot => String::from_str("Cannot rename the root entry"),
            Error::NameTooLong(n) => text_with_two(
                "New name cannot be more than ",
                DIR_NAME_MAX_LEN as u64,
                " UTF-16 code units (was ",
                *n as u64,
                ")",
            ),
            Error::InvalidName => String::from_str(
                "New name cannot contain '/', '\\', ':', or '!'",
            ),
            Error::NameTaken => String::from_str("New name is the name of a sibling"),
            Error::InvalidSeek { position, len } => {
                let mut text = String::from_str("Cannot seek to ");
                text.append(to_signed_decimal(*position).as_str());
                text.append(", stream length is ");
                text.append(to_decimal(*len).as_str());
                text
            },
        }
    }
}

} // verus!
