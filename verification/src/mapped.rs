//! Little-endian elements in the bytes of a mapped file.
use vstd::prelude::*;
use vstd::string::StringExecFns;

use crate::decimal::{append_decimal, decimal};

verus! {

/// Why index files were refused.
#[derive(Clone, Copy, Debug, PartialEq, Eq, Structural)]
pub enum IndexError {
    /// There is no label, hence no reference vector.
    EmptyLabels,
    /// The vectors do not fill whole 16-bit elements.
    OddLength,
    /// The number of vector elements does not go with the number of labels.
    VectorsMismatch { found: usize, labels: usize },
    /// The number of residual bytes does not go with the number of labels.
    ResidualsMismatch { found: usize, labels: usize },
    BadHeader,
    BadDimensions,
    BadNprobe,
    BadPayload,
    TruncatedU32,
    SliceTooLarge,
    SliceTruncated,
    SliceUnaligned,
}

/// A text that tells of a count and the number of labels.
pub open spec fn mismatch_text(
    file: Seq<char>,
    found: usize,
    unit: Seq<char>,
    labels: usize,
) -> Seq<char> {
    file + " size mismatch: got "@ + decimal(found as nat) + unit + decimal(labels as nat)
        + " labels"@
}

impl IndexError {
    /// What is said of the error, which came up in the file at `path`.
    pub open spec fn text(self, path: Seq<char>) -> Seq<char> {
        match self {
            IndexError::EmptyLabels => "empty labels.bin"@,
            IndexError::OddLength => path + " has odd length"@,
            IndexError::VectorsMismatch { found, labels } => mismatch_text(
                "vectors.bin"@,
                found,
                " i16s for "@,
                labels,
            ),
            IndexError::ResidualsMismatch { found, labels } => mismatch_text(
                "residuals.bin"@,
                found,
                " bytes for "@,
                labels,
            ),
            IndexError::BadHeader => "bad ivf header"@,
            IndexError::BadDimensions => "bad ivf dimensions"@,
            IndexError::BadNprobe => "bad ivf nprobe"@,
            IndexError::BadPayload => "bad ivf payload"@,
            IndexError::TruncatedU32 => "truncated u32"@,
            IndexError::SliceTooLarge => path + ": mapped slice too large"@,
            IndexError::SliceTruncated => path + ": truncated mapped slice"@,
            IndexError::SliceUnaligned => path + ": unaligned mapped slice"@,
        }
    }

    /// What is said of the error, which came up in the file at `path`.
    pub fn message(&self, path: &str) -> (r: String)
        ensures
            r@ == self.text(path@),
    {
        match *self {
            IndexError::EmptyLabels => "empty labels.bin".to_owned(),
            IndexError::OddLength => joined(path, " has odd length"),
            IndexError::VectorsMismatch { found, labels } => mismatch(
                "vectors.bin",
                found,
                " i16s for ",
                labels,
            ),
            IndexError::ResidualsMismatch { found, labels } => mismatch(
                "residuals.bin",
                found,
                " bytes for ",
                labels,
            ),
            IndexError::BadHeader => "bad ivf header".to_owned(),
            IndexError::BadDimensions => "bad ivf dimensions".to_owned(),
            IndexError::BadNprobe => "bad ivf nprobe".to_owned(),
            IndexError::BadPayload => "bad ivf payload".to_owned(),
            IndexError::TruncatedU32 => "truncated u32".to_owned(),
            IndexError::SliceTooLarge => joined(path, ": mapped slice too large"),
            IndexError::SliceTruncated => joined(path, ": truncated mapped slice"),
            IndexError::SliceUnaligned => joined(path, ": unaligned mapped slice"),
        }
    }
}

fn joined(a: &str, b: &str) -> (r: String)
    ensures
        r@ == a@ + b@,
{
    let mut text: String = a.to_owned();
    text.append(b);
    text
}

fn mismatch(file: &str, found: usize, unit: &str, labels: usize) -> (r: String)
    ensures
        r@ == mismatch_text(file@, found, unit@, labels),
{
    let mut text: String = joined(file, " size mismatch: got ");
    append_decimal(&mut text, found);
    text.append(unit);
    append_decimal(&mut text, labels);
    text.append(" labels");
    text
}

/// The 32-bit element that starts at byte `at`.
pub open spec fn u32_at(bytes: Seq<u8>, at: int) -> int {
    bytes[at] + 0x100 * bytes[at + 1] + 0x1_0000 * bytes[at + 2] + 0x100_0000 * bytes[at + 3]
}

/// The signed 16-bit element that starts at byte `at`.
pub open spec fn i16_at(bytes: Seq<u8>, at: int) -> int {
    let unsigned = bytes[at] + 0x100 * bytes[at + 1];
    if unsigned >= 0x8000 {
        unsigned - 0x1_0000
    } else {
        unsigned
    }
}

/// A byte read as a signed one.
pub open spec fn i8_of(b: u8) -> int {
    if b >= 0x80 {
        b - 0x100
    } else {
        b as int
    }
}

/// The 32-bit element that starts at byte `at`.
pub fn load_u32(bytes: &[u8], at: usize) -> (r: u32)
    requires
        at + 4 <= bytes@.len(),
    ensures
        r == u32_at(bytes@, at as int),
{
    let len: usize = bytes.len();
    assert(at + 4 <= len);
    bytes[at] as u32 + 0x100 * (bytes[at + 1] as u32) + 0x1_0000 * (bytes[at + 2] as u32)
        + 0x100_0000 * (bytes[at + 3] as u32)
}

/// The signed 16-bit element that starts at byte `at`.
pub fn load_i16(bytes: &[u8], at: usize) -> (r: i16)
    requires
        at + 2 <= bytes@.len(),
    ensures
        r == i16_at(bytes@, at as int),
{
    let len: usize = bytes.len();
    assert(at + 2 <= len);
    let unsigned: i32 = bytes[at] as i32 + 0x100 * (bytes[at + 1] as i32);
    if unsigned >= 0x8000 {
        (unsigned - 0x1_0000) as i16
    } else {
        unsigned as i16
    }
}

/// A byte read as a signed one.
pub fn signed_byte(b: u8) -> (r: i32)
    ensures
        r == i8_of(b),
{
    if b >= 0x80 {
        b as i32 - 0x100
    } else {
        b as i32
    }
}

/// Reads the 32-bit element at `off` and moves `off` behind it.
pub fn read_u32(bytes: &[u8], off: &mut usize) -> (r: Result<u32, IndexError>)
    requires
        *old(off) + 4 <= usize::MAX,
    ensures
        match r {
            Ok(v) => *old(off) + 4 <= bytes@.len() && v == u32_at(bytes@, *old(off) as int)
                && *final(off) == *old(off) + 4,
            Err(e) => *old(off) + 4 > bytes@.len() && e == IndexError::TruncatedU32
                && *final(off) == *old(off),
        },
{
    if *off + 4 > bytes.len() {
        return Err(IndexError::TruncatedU32);
    }
    let value: u32 = load_u32(bytes, *off);
    *off += 4;
    Ok(value)
}

/// Why `count` elements of `size` bytes cannot be had at `offset` of a file of `len` bytes.
/// A file is mapped at an address that every alignment divides.
pub open spec fn slice_error(
    len: int,
    offset: int,
    count: int,
    size: int,
    align: int,
) -> Option<IndexError> {
    if offset + count * size > usize::MAX {
        Some(IndexError::SliceTooLarge)
    } else if offset + count * size > len {
        Some(IndexError::SliceTruncated)
    } else if count > 0 && offset % align != 0 {
        Some(IndexError::SliceUnaligned)
    } else {
        None
    }
}

/// The bytes of `count` elements of `size` bytes at `offset`.
pub fn typed_slice<'a>(
    file: &'a [u8],
    offset: usize,
    count: usize,
    size: usize,
    align: usize,
) -> (r: Result<&'a [u8], IndexError>)
    requires
        size > 0,
        align > 0,
    ensures
        match r {
            Ok(bytes) => {
                &&& slice_error(
                    file@.len() as int,
                    offset as int,
                    count as int,
                    size as int,
                    align as int,
                ) is None
                &&& bytes@ == file@.subrange(offset as int, offset + count * size)
            },
            Err(e) => slice_error(
                file@.len() as int,
                offset as int,
                count as int,
                size as int,
                align as int,
            ) == Some(e),
        },
{
    let byte_len: usize = match count.checked_mul(size) {
        Some(n) => n,
        None => return Err(IndexError::SliceTooLarge),
    };
    let end: usize = match offset.checked_add(byte_len) {
        Some(n) => n,
        None => return Err(IndexError::SliceTooLarge),
    };
    if end > file.len() {
        return Err(IndexError::SliceTruncated);
    }
    if count > 0 && offset % align != 0 {
        return Err(IndexError::SliceUnaligned);
    }
    Ok(&file[offset..end])
}

/// The bytes of `count` elements at `off`, which moves behind them.
pub fn read_mapped_slice<'a>(
    file: &'a [u8],
    off: &mut usize,
    count: usize,
    size: usize,
    align: usize,
) -> (r: Result<&'a [u8], IndexError>)
    requires
        size > 0,
        align > 0,
    ensures
        match r {
            Ok(bytes) => {
                &&& slice_error(
                    file@.len() as int,
                    *old(off) as int,
                    count as int,
                    size as int,
                    align as int,
                ) is None
                &&& bytes@ == file@.subrange(*old(off) as int, *old(off) + count * size)
                &&& *final(off) == *old(off) + count * size
            },
            Err(e) => {
                &&& slice_error(
                    file@.len() as int,
                    *old(off) as int,
                    count as int,
                    size as int,
                    align as int,
                ) == Some(e)
                &&& *final(off) == *old(off)
            },
        },
{
    let bytes = match typed_slice(file, *off, count, size, align) {
        Ok(bytes) => bytes,
        Err(e) => return Err(e),
    };
    *off = *off + bytes.len();
    Ok(bytes)
}

} // verus!
