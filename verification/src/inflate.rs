//! The single-shot decompressor, and the test a block's decompression has to
//! pass.

use crate::error::Error;
use libdeflater::{DecompressionError, Decompressor};
use vstd::prelude::*;

verus! {

/// `libdeflater::Decompressor`: a handle on the decompressor's working
/// memory.
#[verifier::external_type_specification]
#[verifier::external_body]
pub struct ExDecompressor(Decompressor);

/// `libdeflater::DecompressionError`: why a decompression failed.
#[verifier::external_type_specification]
#[verifier::external_body]
pub struct ExDecompressionError(DecompressionError);

/// What `Decompressor::deflate_decompress` produces from the raw DEFLATE
/// stream `deflate_data` when it is given room for `room` bytes: the
/// decompressed bytes where it succeeds, `None` where it fails (the data is
/// not a DEFLATE stream, or it decompresses to more than `room` bytes).
pub uninterp spec fn inflated(deflate_data: Seq<u8>, room: nat) -> Option<Seq<u8>>;

/// `Decompressor::new`: a fresh decompressor. Nothing is claimed of it.
pub assume_specification[ Decompressor::new ]() -> (d: Decompressor)
;

/// `Decompressor::deflate_decompress`, with `out` as the pre-sized output
/// buffer. The crate's source shows that it returns the number of bytes it
/// wrote to the front of `out`, which `out` can hold, or an error; the bytes
/// it wrote are given the name `inflated`. Of the rest of `out`, and of `out`
/// after a failure, only the length is claimed.
#[verifier::external_body]
pub(crate) fn deflate_decompress(
    decompressor: &mut Decompressor,
    deflate_data: &Vec<u8>,
    out: &mut Vec<u8>,
) -> (r: Result<usize, DecompressionError>)
    ensures
        final(out)@.len() == old(out)@.len(),
        match r {
            Ok(n) => n <= old(out)@.len() && inflated(deflate_data@, old(out)@.len()) == Some(
                final(out)@.subrange(0, n as int),
            ),
            Err(_) => inflated(deflate_data@, old(out)@.len()) is None,
        },
{
    decompressor.deflate_decompress(deflate_data.as_slice(), out.as_mut_slice())
}

/// Whether a decompressor that reported `reported` (the bytes it produced, or
/// `None` for a failure) has delivered a block declared to hold
/// `input_length` bytes.
pub open spec fn fully_decompressed(reported: Option<usize>, input_length: u32) -> bool {
    reported matches Some(n) && n != 0 && n == input_length
}

/// Tests what the decompressor reported for a block against the length the
/// block declares: anything but that many bytes, and no bytes at all, is a
/// decode failure.
pub fn check_decompressed(reported: Option<usize>, input_length: u32) -> (r: Result<(), Error>)
    ensures
        r == if fully_decompressed(reported, input_length) {
            Ok::<(), Error>(())
        } else {
            Err(Error::NotFullyDecompressed)
        },
{
    match reported {
        Some(n) => {
            if n == 0 || n != input_length as usize {
                Err(Error::NotFullyDecompressed)
            } else {
                Ok(())
            }
        },
        None => Err(Error::NotFullyDecompressed),
    }
}

} // verus!
