//! Little-endian integers and length-prefixed strings in a byte buffer.
//!
//! A string is a 32-bit length followed by its characters: a positive length
//! counts bytes of UTF-8, a negative one counts 16-bit units of UTF-16, and at
//! most [`MAX_STRLEN`] of either are accepted. One trailing NUL is dropped.

use crate::text::{decode_utf8_lossy, str_to_chars, string_from_chars, utf8_lossy};
use byteorder::{ByteOrder, LittleEndian};
use vstd::prelude::*;
use vstd::slice::slice_subrange;

verus! {

/// The longest string that is read, in bytes or in 16-bit units.
pub const MAX_STRLEN: usize = 1024;

/// Why reading from a byte buffer failed.
#[derive(Debug, Clone, Copy, PartialEq, Eq, Structural)]
pub enum ReadError {
    /// The buffer ends before the value does.
    UnexpectedEof,
    /// A string is longer than [`MAX_STRLEN`].
    StringTooLong,
    /// A count, an offset or a size is negative or out of order.
    Malformed,
}

/// The unsigned 16-bit number whose little-endian bytes `b` starts with.
pub open spec fn le_u16(b: Seq<u8>) -> u16 {
    (b[0] as int + 256 * (b[1] as int)) as u16
}

/// The unsigned 32-bit number whose little-endian bytes `b` starts with.
pub open spec fn le_u32(b: Seq<u8>) -> u32 {
    (b[0] as int + 256 * (b[1] as int) + 65536 * (b[2] as int) + 16777216 * (b[3] as int)) as u32
}

/// The signed 32-bit number whose little-endian two's-complement bytes `b`
/// starts with.
pub open spec fn le_i32(b: Seq<u8>) -> i32 {
    let u = le_u32(b) as int;
    if u >= 0x8000_0000 {
        (u - 0x1_0000_0000) as i32
    } else {
        u as i32
    }
}

/// The two little-endian bytes of `n`.
pub open spec fn le_bytes_u16(n: u16) -> Seq<u8> {
    seq![(n as int % 256) as u8, (n as int / 256) as u8]
}

/// The four little-endian bytes of `n`.
pub open spec fn le_bytes_u32(n: u32) -> Seq<u8> {
    seq![
        (n as int % 256) as u8,
        (n as int / 256 % 256) as u8,
        (n as int / 65536 % 256) as u8,
        (n as int / 16777216) as u8,
    ]
}

/// The four little-endian two's-complement bytes of `n`.
pub open spec fn le_bytes_i32(n: i32) -> Seq<u8> {
    le_bytes_u32(
        (if n < 0 {
            n as int + 0x1_0000_0000
        } else {
            n as int
        }) as u32,
    )
}

/// Reading back what was written gives the number.
pub proof fn lemma_le_round_trip(a: u16, b: u32, c: i32)
    ensures
        le_u16(le_bytes_u16(a)) == a,
        le_u32(le_bytes_u32(b)) == b,
        le_i32(le_bytes_i32(c)) == c,
{
}

/// `byteorder::LittleEndian::read_u16`: the number that the first two bytes
/// write, low byte first. The call panics on fewer than two bytes.
#[verifier::external_body]
pub(crate) fn le_read_u16(bytes: &[u8]) -> (n: u16)
    requires
        bytes@.len() >= 2,
    ensures
        n == le_u16(bytes@),
{
    LittleEndian::read_u16(bytes)
}

/// `byteorder::LittleEndian::read_u32`: the number that the first four bytes
/// write, low byte first. The call panics on fewer than four bytes.
#[verifier::external_body]
pub(crate) fn le_read_u32(bytes: &[u8]) -> (n: u32)
    requires
        bytes@.len() >= 4,
    ensures
        n == le_u32(bytes@),
{
    LittleEndian::read_u32(bytes)
}

/// `byteorder::LittleEndian::read_i32`: the number that the first four bytes
/// write in two's complement, low byte first. The call panics on fewer than
/// four bytes.
#[verifier::external_body]
pub(crate) fn le_read_i32(bytes: &[u8]) -> (n: i32)
    requires
        bytes@.len() >= 4,
    ensures
        n == le_i32(bytes@),
{
    LittleEndian::read_i32(bytes)
}

/// `byteorder::LittleEndian::write_u16` into a buffer of two bytes: the two
/// bytes of `n`, low byte first.
#[verifier::external_body]
pub(crate) fn le_write_u16(n: u16) -> (bytes: [u8; 2])
    ensures
        bytes@ == le_bytes_u16(n),
{
    let mut bytes = [0u8; 2];
    LittleEndian::write_u16(&mut bytes, n);
    bytes
}

/// `byteorder::LittleEndian::write_u32` into a buffer of four bytes: the four
/// bytes of `n`, low byte first.
#[verifier::external_body]
pub(crate) fn le_write_u32(n: u32) -> (bytes: [u8; 4])
    ensures
        bytes@ == le_bytes_u32(n),
{
    let mut bytes = [0u8; 4];
    LittleEndian::write_u32(&mut bytes, n);
    bytes
}

/// `byteorder::LittleEndian::write_i32` into a buffer of four bytes: the four
/// bytes of `n` in two's complement, low byte first.
#[verifier::external_body]
pub(crate) fn le_write_i32(n: i32) -> (bytes: [u8; 4])
    ensures
        bytes@ == le_bytes_i32(n),
{
    let mut bytes = [0u8; 4];
    LittleEndian::write_i32(&mut bytes, n);
    bytes
}

/// The text that lossy UTF-16 decoding makes of `units`: every unpaired
/// surrogate becomes the replacement character U+FFFD.
pub uninterp spec fn utf16_lossy(units: Seq<u16>) -> Seq<char>;

/// Decodes 16-bit units as UTF-16 without failing. Calls
/// `String::from_utf16_lossy`; the contract names the result.
#[verifier::external_body]
pub(crate) fn decode_utf16_lossy(units: &[u16]) -> (s: String)
    ensures
        s@ == utf16_lossy(units@),
{
    String::from_utf16_lossy(units)
}

/// Whether `data` holds `n` bytes from position `pos`.
pub open spec fn can_read(data: Seq<u8>, pos: int, n: int) -> bool {
    0 <= pos && 0 <= n && pos + n <= data.len()
}

/// The unsigned 16-bit number at `pos`.
pub open spec fn u16_at(data: Seq<u8>, pos: int) -> u16 {
    le_u16(data.subrange(pos, pos + 2))
}

/// The unsigned 32-bit number at `pos`.
pub open spec fn u32_at(data: Seq<u8>, pos: int) -> u32 {
    le_u32(data.subrange(pos, pos + 4))
}

/// The signed 32-bit number at `pos`.
pub open spec fn i32_at(data: Seq<u8>, pos: int) -> i32 {
    le_i32(data.subrange(pos, pos + 4))
}

/// The 16-bit units that the bytes `raw` write, low byte first.
pub open spec fn le_units(raw: Seq<u8>) -> Seq<u16> {
    Seq::new(raw.len() / 2, |i: int| u16_at(raw, 2 * i))
}

/// `text` without one NUL at its end.
pub open spec fn without_trailing_nul(text: Seq<char>) -> Seq<char> {
    if text.len() > 0 && text.last() == '\0' {
        text.drop_last()
    } else {
        text
    }
}

/// The string at `pos`, with the position behind it.
pub open spec fn string_at(data: Seq<u8>, pos: int) -> Result<(Seq<char>, int), ReadError> {
    if !can_read(data, pos, 4) {
        Err(ReadError::UnexpectedEof)
    } else {
        let size = i32_at(data, pos) as int;
        let count = if size < 0 {
            -size
        } else {
            size
        };
        let bytes = if size < 0 {
            2 * count
        } else {
            count
        };
        if size == 0 {
            Ok((Seq::empty(), pos + 4))
        } else if count > MAX_STRLEN {
            Err(ReadError::StringTooLong)
        } else if !can_read(data, pos + 4, bytes) {
            Err(ReadError::UnexpectedEof)
        } else {
            let raw = data.subrange(pos + 4, pos + 4 + bytes);
            let text = if size < 0 {
                utf16_lossy(le_units(raw))
            } else {
                utf8_lossy(raw)
            };
            Ok((without_trailing_nul(text), pos + 4 + bytes))
        }
    }
}

/// Whether `n` bytes can be read at `pos`.
pub fn has_bytes(data: &[u8], pos: usize, n: usize) -> (r: bool)
    ensures
        r == can_read(data@, pos as int, n as int),
        r ==> pos + n <= usize::MAX,
{
    pos <= data.len() && n <= data.len() - pos
}

/// Reads the unsigned 16-bit number at `pos`.
pub fn read_u16_at(data: &[u8], pos: usize) -> (r: Result<u16, ReadError>)
    ensures
        match r {
            Ok(n) => can_read(data@, pos as int, 2) && n == u16_at(data@, pos as int),
            Err(e) => !can_read(data@, pos as int, 2) && e == ReadError::UnexpectedEof,
        },
{
    if !has_bytes(data, pos, 2) {
        return Err(ReadError::UnexpectedEof);
    }
    Ok(le_read_u16(slice_subrange(data, pos, pos + 2)))
}

/// Reads the unsigned 32-bit number at `pos`.
pub fn read_u32_at(data: &[u8], pos: usize) -> (r: Result<u32, ReadError>)
    ensures
        match r {
            Ok(n) => can_read(data@, pos as int, 4) && n == u32_at(data@, pos as int),
            Err(e) => !can_read(data@, pos as int, 4) && e == ReadError::UnexpectedEof,
        },
{
    if !has_bytes(data, pos, 4) {
        return Err(ReadError::UnexpectedEof);
    }
    Ok(le_read_u32(slice_subrange(data, pos, pos + 4)))
}

/// Reads the signed 32-bit number at `pos`.
pub fn read_i32_at(data: &[u8], pos: usize) -> (r: Result<i32, ReadError>)
    ensures
        match r {
            Ok(n) => can_read(data@, pos as int, 4) && n == i32_at(data@, pos as int) && pos + 4
                <= usize::MAX,
            Err(e) => !can_read(data@, pos as int, 4) && e == ReadError::UnexpectedEof,
        },
{
    if !has_bytes(data, pos, 4) {
        return Err(ReadError::UnexpectedEof);
    }
    Ok(le_read_i32(slice_subrange(data, pos, pos + 4)))
}

/// Drops one NUL from the end of `text`.
fn drop_trailing_nul(text: String) -> (out: String)
    ensures
        out@ == without_trailing_nul(text@),
{
    let chars = str_to_chars(text.as_str());
    let n = chars.len();
    if n > 0 && chars[n - 1] == '\0' {
        let out = string_from_chars(chars.as_slice(), 0, n - 1);
        assert(chars@.subrange(0, n - 1) =~= chars@.drop_last());
        out
    } else {
        text
    }
}

/// Reads the string at `pos`. Gives the string and the position behind it.
pub fn read_string_at(data: &[u8], pos: usize) -> (r: Result<(String, usize), ReadError>)
    ensures
        match r {
            Ok(found) => string_at(data@, pos as int) == Ok::<(Seq<char>, int), ReadError>(
                (found.0@, found.1 as int),
            ),
            Err(e) => string_at(data@, pos as int) == Err::<(Seq<char>, int), ReadError>(e),
        },
{
    let size = match read_i32_at(data, pos) {
        Err(e) => {
            return Err(e);
        },
        Ok(size) => size,
    };
    let start = pos + 4;
    if size == 0 {
        return Ok((String::new(), start));
    }
    let wide = size < 0;
    if size < -1024 || size > 1024 {
        return Err(ReadError::StringTooLong);
    }
    let count: usize = if wide {
        (-size) as usize
    } else {
        size as usize
    };
    let bytes: usize = if wide {
        2 * count
    } else {
        count
    };
    if !has_bytes(data, start, bytes) {
        return Err(ReadError::UnexpectedEof);
    }
    let raw = slice_subrange(data, start, start + bytes);
    let text = if wide {
        let mut units: Vec<u16> = Vec::with_capacity(count);
        let mut i: usize = 0;
        while i < count
            invariant
                i <= count,
                count <= 1024,
                raw@.len() == 2 * count,
                units.len() == i,
                forall|k: int| 0 <= k < i ==> units[k] == u16_at(raw@, 2 * k),
            decreases count - i,
        {
            let unit = le_read_u16(slice_subrange(raw, 2 * i, 2 * i + 2));
            units.push(unit);
            i += 1;
        }
        assert(units@ =~= le_units(raw@));
        decode_utf16_lossy(units.as_slice())
    } else {
        decode_utf8_lossy(raw)
    };
    Ok((drop_trailing_nul(text), start + bytes))
}

/// A position in a byte buffer, for reading one value after the other.
pub struct ByteReader<'a> {
    /// The bytes that are read.
    pub data: &'a [u8],
    /// Where the next value starts.
    pub pos: usize,
}

impl<'a> ByteReader<'a> {
    /// A reader at the start of `data`.
    pub fn new(data: &'a [u8]) -> (r: Self)
        ensures
            r.data@ == data@,
            r.pos == 0,
    {
        ByteReader { data, pos: 0 }
    }

    /// Reads a signed 32-bit number and moves behind it.
    pub fn read_i32(&mut self) -> (r: Result<i32, ReadError>)
        ensures
            final(self).data == old(self).data,
            match r {
                Ok(n) => can_read(old(self).data@, old(self).pos as int, 4) && n == i32_at(
                    old(self).data@,
                    old(self).pos as int,
                ) && final(self).pos == old(self).pos + 4,
                Err(e) => !can_read(old(self).data@, old(self).pos as int, 4) && e
                    == ReadError::UnexpectedEof && final(self).pos == old(self).pos,
            },
    {
        match read_i32_at(self.data, self.pos) {
            Ok(n) => {
                self.pos = self.pos + 4;
                Ok(n)
            },
            Err(e) => Err(e),
        }
    }
}

/// Reads a string and moves the reader behind it. On failure the reader stays
/// where it was.
pub fn read_string(r: &mut ByteReader) -> (s: Result<String, ReadError>)
    ensures
        final(r).data == old(r).data,
        match s {
            Ok(text) => string_at(old(r).data@, old(r).pos as int) == Ok::<
                (Seq<char>, int),
                ReadError,
            >((text@, final(r).pos as int)),
            Err(e) => string_at(old(r).data@, old(r).pos as int) == Err::<
                (Seq<char>, int),
                ReadError,
            >(e) && final(r).pos == old(r).pos,
        },
{
    match read_string_at(r.data, r.pos) {
        Ok(found) => {
            r.pos = found.1;
            Ok(found.0)
        },
        Err(e) => Err(e),
    }
}

} // verus!
