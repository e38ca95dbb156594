//! The logical stream: what the blocks of a file decompress to, laid end to
//! end.

use crate::block::BgzfBlock;
use crate::error::Error;
use crate::index::{chained, total_length, IndexEntry};
use crate::index_proofs::{lemma_chained_key, lemma_chained_order};
use crate::inflate::{check_decompressed, deflate_decompress, inflated};
use crate::source::{read_exact_at, readable};
use libdeflater::Decompressor;
use vstd::prelude::*;

verus! {

/// The compressed bytes of `block` in `image`: none where they would lie
/// beyond its end.
pub open spec fn payload(image: Seq<u8>, block: BgzfBlock) -> Seq<u8> {
    if block.data_offset + block.data_length <= image.len() {
        image.subrange(block.data_offset as int, block.data_offset + block.data_length)
    } else {
        Seq::empty()
    }
}

/// What `block` holds: the bytes its payload decompresses to, provided there
/// are as many as the block declares, and at least one. `None` is a block
/// that does not decode.
pub open spec fn block_content(image: Seq<u8>, block: BgzfBlock) -> Option<Seq<u8>> {
    match inflated(payload(image, block), block.input_length as nat) {
        Some(bytes) => if bytes.len() == block.input_length && bytes.len() != 0 {
            Some(bytes)
        } else {
            None
        },
        None => None,
    }
}

/// The part of the stream that belongs to `block`: its content, or, for a
/// block that does not decode, as many zero bytes as it declares. No read
/// delivers those; they keep the offsets of the blocks that follow.
pub open spec fn block_bytes(image: Seq<u8>, block: BgzfBlock) -> Seq<u8> {
    match block_content(image, block) {
        Some(bytes) => bytes,
        None => Seq::new(block.input_length as nat, |i: int| 0u8),
    }
}

/// The logical stream of the blocks `entries`.
pub open spec fn stream_of(image: Seq<u8>, entries: Seq<IndexEntry>) -> Seq<u8>
    decreases entries.len(),
{
    if entries.len() == 0 {
        Seq::empty()
    } else {
        stream_of(image, entries.drop_last()) + block_bytes(image, entries.last().value)
    }
}

/// Whether every block of `entries` decodes that holds a byte of the stream
/// between the offsets `lo` and `hi`.
pub open spec fn decodes_between(image: Seq<u8>, entries: Seq<IndexEntry>, lo: int, hi: int) -> bool {
    forall|i: int|
        0 <= i < entries.len() && lo < hi && (#[trigger] entries[i]).key < hi && lo
            < entries[i].key + entries[i].value.input_length ==> block_content(
            image,
            entries[i].value,
        ) is Some
}

/// The stream is as long as the blocks' uncompressed lengths together.
pub proof fn lemma_stream_length(image: Seq<u8>, entries: Seq<IndexEntry>)
    ensures
        stream_of(image, entries).len() == total_length(entries),
    decreases entries.len(),
{
    if entries.len() > 0 {
        lemma_stream_length(image, entries.drop_last());
    }
}

/// The stream of two runs of blocks is the one's stream followed by the
/// other's.
pub proof fn lemma_stream_add(image: Seq<u8>, a: Seq<IndexEntry>, b: Seq<IndexEntry>)
    ensures
        stream_of(image, a + b) == stream_of(image, a) + stream_of(image, b),
    decreases b.len(),
{
    if b.len() == 0 {
        assert(a + b == a);
        assert(stream_of(image, a) + Seq::<u8>::empty() == stream_of(image, a));
    } else {
        lemma_stream_add(image, a, b.drop_last());
        assert((a + b).drop_last() == a + b.drop_last());
        assert(stream_of(image, a + b) == (stream_of(image, a) + stream_of(
            image,
            b.drop_last(),
        )) + block_bytes(image, b.last().value));
        assert((stream_of(image, a) + stream_of(image, b.drop_last())) + block_bytes(
            image,
            b.last().value,
        ) == stream_of(image, a) + (stream_of(image, b.drop_last()) + block_bytes(
            image,
            b.last().value,
        )));
    }
}

/// In the stream of a chained index each block's bytes stand at the
/// block's key.
pub proof fn lemma_stream_block(image: Seq<u8>, entries: Seq<IndexEntry>, i: int)
    requires
        chained(entries),
        0 <= i < entries.len(),
    ensures
        entries[i].key + entries[i].value.input_length <= stream_of(image, entries).len(),
        stream_of(image, entries).subrange(
            entries[i].key as int,
            entries[i].key + entries[i].value.input_length,
        ) == block_bytes(image, entries[i].value),
{
    let before = entries.take(i);
    let upto = entries.take(i + 1);
    let after = entries.skip(i + 1);
    assert(upto.drop_last() == before);
    assert(entries == upto + after);
    lemma_stream_add(image, upto, after);
    lemma_stream_length(image, before);
    lemma_stream_length(image, upto);
    lemma_stream_length(image, entries);
    lemma_chained_key(entries, i);
    lemma_chained_order(entries, i, i + 1);
    assert(stream_of(image, upto) == stream_of(image, before) + block_bytes(
        image,
        entries[i].value,
    ));
    assert(block_bytes(image, entries[i].value).len() == entries[i].value.input_length);
    assert(stream_of(image, entries).subrange(
        entries[i].key as int,
        entries[i].key + entries[i].value.input_length,
    ) =~= block_bytes(image, entries[i].value));
}

/// How many blocks at the front of `needed` decode: the place of the first
/// one that does not, or the length of `needed`.
pub open spec fn decodable_prefix(image: Seq<u8>, needed: Seq<IndexEntry>) -> int
    decreases needed.len(),
{
    if needed.len() == 0 {
        0
    } else if block_content(image, needed[0].value) is Some {
        1 + decodable_prefix(image, needed.drop_first())
    } else {
        0
    }
}

/// `decodable_prefix` is the one place before which every block decodes and
/// at which none does.
pub proof fn lemma_decodable_prefix(image: Seq<u8>, needed: Seq<IndexEntry>, good: int)
    requires
        0 <= good <= needed.len(),
        forall|j: int| 0 <= j < good ==> block_content(image, (#[trigger] needed[j]).value) is Some,
        good < needed.len() ==> block_content(image, needed[good].value) is None,
    ensures
        decodable_prefix(image, needed) == good,
    decreases needed.len(),
{
    if needed.len() > 0 && good > 0 {
        let rest = needed.drop_first();
        assert(block_content(image, needed[0].value) is Some);
        assert forall|j: int| 0 <= j < good - 1 implies block_content(
            image,
            (#[trigger] rest[j]).value,
        ) is Some by {
            assert(rest[j] == needed[j + 1]);
        }
        if good < needed.len() {
            assert(rest[good - 1] == needed[good]);
        }
        lemma_decodable_prefix(image, rest, good - 1);
    }
}

/// Reads the payload of `block` from `image` and decompresses it.
///
/// Gives the block's content where the block decodes. Fails with
/// `UnexpectedEof` where the payload does not lie within the image, and with
/// `NotFullyDecompressed` where it does not decompress to the length the
/// block declares.
pub(crate) fn decode_block(image: &Vec<u8>, block: &BgzfBlock, decompressor: &mut Decompressor) -> (r:
    Result<Vec<u8>, Error>)
    ensures
        match r {
            Ok(bytes) => block_content(image@, *block) == Some(bytes@),
            Err(e) => if readable(image@, block.data_offset as int, block.data_length as int) {
                e == Error::NotFullyDecompressed && block_content(image@, *block) is None
            } else {
                e == Error::UnexpectedEof
            },
        },
{
    let mut compressed: Vec<u8> = vec![0u8; block.data_length as usize];
    if read_exact_at(image, block.data_offset, &mut compressed).is_err() {
        return Err(Error::UnexpectedEof);
    }
    assert(compressed@ =~= payload(image@, *block));

    let mut uncompressed: Vec<u8> = vec![0u8; block.input_length as usize];
    let reported = match deflate_decompress(decompressor, &compressed, &mut uncompressed) {
        Ok(bytes_decompressed) => Some(bytes_decompressed),
        Err(_) => None,
    };
    match check_decompressed(reported, block.input_length) {
        Ok(()) => {
            assert(uncompressed@.subrange(0, block.input_length as int) == uncompressed@);
            Ok(uncompressed)
        },
        Err(e) => Err(e),
    }
}

} // verus!
