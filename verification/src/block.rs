//! One BGZF block: its descriptor, and the parser that reads it from the
//! file's bytes.

use crate::error::Error;
use crate::source::{read_exact_at, readable};
use vstd::prelude::*;

verus! {

/// Where one block's data lies in the file, and how long it is before and
/// after decompression.
#[derive(Clone, Copy, Debug, PartialEq, Eq, Structural)]
pub struct BgzfBlock {
    /// File offset of the compressed payload, after the header.
    pub data_offset: u64,
    /// Length of the compressed payload, without header and footer.
    pub data_length: u32,
    /// Length of the block's data once decompressed.
    pub input_length: u32,
    /// Length of the whole block in the file.
    pub block_size: u32,
}

/// The 16-bit little-endian number at `at`.
pub open spec fn le_u16(s: Seq<u8>, at: int) -> int {
    s[at] + 256 * s[at + 1]
}

/// The 32-bit little-endian number at `at`.
pub open spec fn le_u32(s: Seq<u8>, at: int) -> int {
    s[at] + 256 * s[at + 1] + 65536 * s[at + 2] + 16777216 * s[at + 3]
}

/// Bytes of the fixed header, up to and including the extra field's length.
pub const HEADER_LEN: u64 = 12;

/// Bytes of a block that are neither extra field nor payload, minus one: the
/// fixed header, and the footer's checksum and length.
pub const FRAME_LEN: u16 = 19;

/// Whether the four bytes at `offset` are the gzip magic, the deflate method
/// and the flag that announces an extra field.
pub open spec fn has_magic(image: Seq<u8>, offset: int) -> bool {
    image[offset] == 31 && image[offset + 1] == 139 && image[offset + 2] == 8 && image[offset
        + 3] == 4
}

/// What the block at `offset` of `image` is: a descriptor, `None` for the
/// terminal block of length zero, or the reason why there is no block there.
///
/// The checks come in the order of the block's layout: the fixed header, the
/// magic, the extra field, its `BC` subfield, the block size, the footer. A
/// part that lies beyond the end of the image is `UnexpectedEof`.
pub open spec fn parse_block(image: Seq<u8>, offset: int) -> Result<Option<BgzfBlock>, Error> {
    let xlen = le_u16(image, offset + 10);
    let extra = offset + HEADER_LEN;
    let bsize = le_u16(image, extra + 4);
    let data_offset = extra + xlen;
    let data_length = bsize - xlen - FRAME_LEN;
    let footer = data_offset + data_length + 4;
    let isize = le_u32(image, footer);
    if !readable(image, offset, HEADER_LEN as int) {
        Err(Error::UnexpectedEof)
    } else if !has_magic(image, offset) {
        Err(Error::IncorrectHeader)
    } else if !readable(image, extra, xlen) {
        Err(Error::UnexpectedEof)
    } else if xlen < 2 || image[extra] != 66 || image[extra + 1] != 67 {
        Err(Error::BadSubfieldIdentifier)
    } else if xlen < 6 || le_u16(image, extra + 2) != 2 {
        Err(Error::BadSubfieldLength)
    } else if data_length < 0 {
        Err(Error::BadBlockSize)
    } else if !readable(image, footer, 4) {
        Err(Error::UnexpectedEof)
    } else if isize == 0 {
        Ok(None)
    } else {
        Ok(
            Some(
                BgzfBlock {
                    data_offset: data_offset as u64,
                    data_length: data_length as u32,
                    input_length: isize as u32,
                    block_size: (bsize + 1) as u32,
                },
            ),
        )
    }
}

fn u16_at(buf: &Vec<u8>, at: usize) -> (x: u16)
    requires
        at + 1 < buf.len(),
    ensures
        x == le_u16(buf@, at as int),
{
    buf[at] as u16 + (buf[at + 1] as u16) * 256
}

fn u32_at(buf: &Vec<u8>, at: usize) -> (x: u32)
    requires
        at + 3 < buf.len(),
    ensures
        x == le_u32(buf@, at as int),
{
    buf[at] as u32 + (buf[at + 1] as u32) * 256 + (buf[at + 2] as u32) * 65536 + (buf[at
        + 3] as u32) * 16777216
}

/// Parses the block that starts at `current_file_position`.
///
/// Returns its descriptor, `None` where the block is the terminal one, and
/// otherwise the reason why no block can be read there.
pub fn read_block(image: &Vec<u8>, current_file_position: u64) -> (r: Result<
    Option<BgzfBlock>,
    Error,
>)
    ensures
        r == parse_block(image@, current_file_position as int),
{
    let mut buf: Vec<u8> = vec![0u8; HEADER_LEN as usize];
    if read_exact_at(image, current_file_position, &mut buf).is_err() {
        return Err(Error::UnexpectedEof);
    }
    if buf[0] != 31 || buf[1] != 139 || buf[2] != 8 || buf[3] != 4 {
        return Err(Error::IncorrectHeader);
    }
    let xlen: u16 = u16_at(&buf, 10);
    assert(image@.len() == image.len() <= u64::MAX);
    let extra_position: u64 = current_file_position + HEADER_LEN;

    let mut buf_xlen: Vec<u8> = vec![0u8; xlen as usize];
    if read_exact_at(image, extra_position, &mut buf_xlen).is_err() {
        return Err(Error::UnexpectedEof);
    }
    if xlen < 2 || buf_xlen[0] != 66 || buf_xlen[1] != 67 {
        return Err(Error::BadSubfieldIdentifier);
    }
    if xlen < 6 || u16_at(&buf_xlen, 2) != 2 {
        return Err(Error::BadSubfieldLength);
    }
    let bsize: u16 = u16_at(&buf_xlen, 4);
    let block_size: u32 = bsize as u32 + 1;
    if (bsize as u32) < xlen as u32 + FRAME_LEN as u32 {
        return Err(Error::BadBlockSize);
    }
    let data_length: u16 = bsize - xlen - FRAME_LEN;
    let data_offset: u64 = extra_position + xlen as u64;

    // Skip the payload and the checksum.
    let footer_position: u64 = match data_offset.checked_add(data_length as u64 + 4) {
        Some(p) => p,
        None => { return Err(Error::UnexpectedEof); },
    };
    let mut buf_isize: Vec<u8> = vec![0u8; 4];
    if read_exact_at(image, footer_position, &mut buf_isize).is_err() {
        return Err(Error::UnexpectedEof);
    }
    let i_size: u32 = u32_at(&buf_isize, 0);
    if i_size == 0 {
        return Ok(None);
    }
    Ok(
        Some(
            BgzfBlock {
                data_offset,
                data_length: data_length as u32,
                input_length: i_size,
                block_size,
            },
        ),
    )
}

} // verus!
