//! Copying a window of bytes into the caller's buffer.

use vstd::prelude::*;

verus! {

/// `dst` with `src` written over it from `off` on.
pub open spec fn splice(dst: Seq<u8>, off: int, src: Seq<u8>) -> Seq<u8> {
    dst.subrange(0, off) + src + dst.subrange(off + src.len(), dst.len() as int)
}

/// Writing two pieces one behind the other is writing their concatenation.
pub proof fn lemma_splice_twice(dst: Seq<u8>, off: int, first: Seq<u8>, second: Seq<u8>)
    requires
        0 <= off,
        off + first.len() + second.len() <= dst.len(),
    ensures
        splice(splice(dst, off, first), off + first.len(), second) == splice(
            dst,
            off,
            first + second,
        ),
        splice(dst, off, first).len() == dst.len(),
{
    assert(splice(splice(dst, off, first), off + first.len(), second) =~= splice(
        dst,
        off,
        first + second,
    ));
}

/// Writing a stretch of `stream` and then the stretch that follows it is
/// writing the two as one.
pub proof fn lemma_splice_next(
    dst: Seq<u8>,
    off: int,
    stream: Seq<u8>,
    from: int,
    mid: int,
    to: int,
)
    requires
        0 <= off,
        0 <= from <= mid <= to <= stream.len(),
        off + (to - from) <= dst.len(),
    ensures
        splice(
            splice(dst, off, stream.subrange(from, mid)),
            off + (mid - from),
            stream.subrange(mid, to),
        ) == splice(dst, off, stream.subrange(from, to)),
        splice(dst, off, stream.subrange(from, to)).len() == dst.len(),
{
    lemma_splice_twice(dst, off, stream.subrange(from, mid), stream.subrange(mid, to));
    assert(stream.subrange(from, mid) + stream.subrange(mid, to) =~= stream.subrange(from, to));
}

/// A stretch of a block's bytes is the stretch of the stream at the same
/// place, where the block stands in the stream at `block_start`.
pub proof fn lemma_block_stretch(
    stream: Seq<u8>,
    block: Seq<u8>,
    block_start: int,
    from: int,
    to: int,
)
    requires
        0 <= block_start,
        block_start + block.len() <= stream.len(),
        stream.subrange(block_start, block_start + block.len()) == block,
        block_start <= from <= to <= block_start + block.len(),
    ensures
        block.subrange(from - block_start, to - block_start) == stream.subrange(from, to),
{
    assert(block.subrange(from - block_start, to - block_start) =~= stream.subrange(from, to));
}

/// Copies `src` over the bytes of `dst` from `off` on.
pub fn copy_into(dst: &mut Vec<u8>, off: usize, src: &[u8])
    requires
        off + src@.len() <= old(dst)@.len(),
    ensures
        final(dst)@ == splice(old(dst)@, off as int, src@),
{
    let count = src.len();
    let mut i: usize = 0;
    while i < count
        invariant
            i <= count == src@.len(),
            off + count <= dst.len(),
            dst@.len() == old(dst)@.len(),
            dst@ == splice(old(dst)@, off as int, src@.take(i as int)),
        decreases count - i,
    {
        dst[off + i] = src[i];
        assert(dst@ =~= splice(old(dst)@, off as int, src@.take(i + 1)));
        i = i + 1;
    }
    assert(src@.take(count as int) == src@);
}

/// The part of a block that a read takes: `(skip, count)`, where the block
/// starts at `block_start` in the stream and holds `block_length` bytes, the
/// read stands at `pos` and still wants `len` bytes. The read skips what lies
/// before `pos` and takes what is left of the block, but no more than `len`.
pub open spec fn window_of(block_start: int, block_length: int, pos: int, len: int) -> (int, int) {
    let skip = if pos <= block_start {
        0
    } else if pos - block_start < block_length {
        pos - block_start
    } else {
        block_length
    };
    let left = block_length - skip;
    (
        skip,
        if left < len {
            left
        } else {
            len
        },
    )
}

/// Computes the part of a block that a read takes.
pub fn copy_window(block_start: u64, block_length: u32, pos: u64, len: usize) -> (w: (
    usize,
    usize,
))
    ensures
        (w.0 as int, w.1 as int) == window_of(
            block_start as int,
            block_length as int,
            pos as int,
            len as int,
        ),
{
    let mut copy_start: u32 = 0;
    let mut copy_length: u32 = block_length;
    if block_start < pos {
        let copy_skip = pos - block_start;
        if copy_skip < block_length as u64 {
            copy_start = copy_skip as u32;
        } else {
            copy_start = block_length;
        }
        copy_length = block_length - copy_start;
    }
    if copy_length as usize > len {
        (copy_start as usize, len)
    } else {
        (copy_start as usize, copy_length as usize)
    }
}

} // verus!
