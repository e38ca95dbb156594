//! Offset-addressed reads from the bytes of a BGZF file.

use vstd::prelude::*;

verus! {

/// `std::io::Error`, carried from a failed read to the place that maps it.
#[verifier::external_type_specification]
#[verifier::external_body]
pub struct ExIoError(std::io::Error);

/// Whether `len` bytes can be read from `image` at `pos`: nothing is always
/// readable, anything else has to lie within the image.
pub open spec fn readable(image: Seq<u8>, pos: int, len: int) -> bool {
    len == 0 || (0 <= pos && pos + len <= image.len())
}

/// `positioned_io::ReadAt::read_exact_at` on a vector of bytes. The crate's
/// source shows that it fills `buf` with the bytes of `image` from `pos` on
/// and returns `Ok` exactly when these bytes exist (or `buf` is empty), and
/// that it fails otherwise; of `buf` after a failure only the length is
/// claimed.
#[verifier::external_body]
pub(crate) fn read_exact_at(image: &Vec<u8>, pos: u64, buf: &mut Vec<u8>) -> (r: Result<
    (),
    std::io::Error,
>)
    ensures
        final(buf)@.len() == old(buf)@.len(),
        r is Ok <==> readable(image@, pos as int, old(buf)@.len() as int),
        r is Ok ==> forall|i: int|
            0 <= i < old(buf)@.len() ==> #[trigger] final(buf)@[i] == image@[pos + i],
{
    positioned_io::ReadAt::read_exact_at(image, pos, buf.as_mut_slice())
}

} // verus!
