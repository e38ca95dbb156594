//! Proofs about what a read finds: in the cache, and among the blocks it has
//! to decode.

use crate::cache::{cached_from, lookup};
use crate::index::{rank_of, resolve_of, total_length, IndexEntry};
use crate::index_proofs::{
    lemma_chained_increasing, lemma_chained_order, lemma_chained_total, lemma_index_of,
    lemma_rank_of, lemma_resolve_run,
};
use crate::reader::ReaderView;
use crate::stream::{
    block_bytes, block_content, decodable_prefix, lemma_stream_block, lemma_stream_length,
};
use vstd::prelude::*;

verus! {

/// What the cache of a well-formed reader has for a read: bytes of the
/// stream at the position, which end within the stream.
pub proof fn lemma_cache_hit(v: ReaderView, len: int)
    requires
        v.wf(),
        0 < len,
    ensures
        0 <= v.total() == v.stream().len() <= u64::MAX,
        0 <= v.cache_hit(len) <= len,
        v.cache_hit(len) > 0 ==> v.pos + cached_from(v.cache, v.pos as int) <= v.total(),
        lookup(v.cache, v.pos as int, len) == if v.cache_hit(len) > 0 {
            Some(v.stream().subrange(v.pos as int, v.pos + v.cache_hit(len)))
        } else {
            None
        },
{
    lemma_index_of(v.image);
    lemma_chained_total(v.index);
    lemma_stream_length(v.image, v.index);
    if v.cache_hit(len) > 0 {
        let held = v.cache->Some_0;
        let i = choose|i: int|
            0 <= i < v.index.len() && (#[trigger] v.index[i]).key == held.pos && block_content(
                v.image,
                v.index[i].value,
            ) == Some(held.data);
        lemma_stream_block(v.image, v.index, i);
        lemma_stream_length(v.image, v.index);
        assert(lookup(v.cache, v.pos as int, len)->Some_0 =~= v.stream().subrange(
            v.pos as int,
            v.pos + v.cache_hit(len),
        ));
    }
}

/// What the blocks to decode are like, for a read that resumes at `resumed`
/// and still wants `rest` bytes: they are blocks of the index that lie end to
/// end, the first holds `resumed`, every other starts before the read's end,
/// and the last reaches the read's end or the end of the stream.
pub proof fn lemma_needed(v: ReaderView, resumed: int, rest: int)
    requires
        v.wf(),
        0 <= resumed <= v.total(),
        0 < v.total(),
        0 < rest,
    ensures
        ({
            let needed = resolve_of(v.index, resumed, rest);
            let last = needed.last();
            &&& needed.len() > 0
            &&& needed[0].key <= resumed <= needed[0].key + needed[0].value.input_length
            &&& resumed < v.total() ==> resumed < needed[0].key + needed[0].value.input_length
            &&& last.key + last.value.input_length >= resumed + rest || last.key
                + last.value.input_length == v.total()
            &&& forall|j: int|
                0 <= j < needed.len() ==> {
                    &&& v.index.contains(#[trigger] needed[j])
                    &&& needed[j].value.input_length > 0
                    &&& needed[j].value.data_offset + needed[j].value.data_length <= v.image.len()
                    &&& needed[j].key + needed[j].value.input_length <= v.total()
                    &&& v.stream().subrange(
                        needed[j].key as int,
                        needed[j].key + needed[j].value.input_length,
                    ) == block_bytes(v.image, needed[j].value)
                }
            &&& forall|i: int, j: int|
                0 <= i && j == i + 1 && j < needed.len() ==> (#[trigger] needed[j]).key == (
                #[trigger] needed[i]).key + needed[i].value.input_length && needed[j].key < resumed
                    + rest
        }),
{
    lemma_index_of(v.image);
    lemma_chained_increasing(v.index);
    if v.index.len() == 0 {
        assert(total_length(v.index) == 0);
    }
    lemma_resolve_run(v.index, resumed, rest);
    let first = rank_of(v.index, resumed + 1) - 1;
    let end = rank_of(v.index, resumed + rest);
    let needed = resolve_of(v.index, resumed, rest);
    assert(needed == v.index.subrange(first, end));
    lemma_chained_order(v.index, first, first + 1);
    lemma_chained_order(v.index, end - 1, end);
    assert(needed.last() == v.index[end - 1]);
    assert forall|j: int| 0 <= j < needed.len() implies {
        &&& v.index.contains(#[trigger] needed[j])
        &&& needed[j].value.input_length > 0
        &&& needed[j].value.data_offset + needed[j].value.data_length <= v.image.len()
        &&& needed[j].key + needed[j].value.input_length <= v.total()
        &&& v.stream().subrange(needed[j].key as int, needed[j].key + needed[j].value.input_length)
            == block_bytes(v.image, needed[j].value)
    } by {
        assert(needed[j] == v.index[first + j]);
        lemma_chained_order(v.index, first + j, first + j + 1);
        lemma_stream_block(v.image, v.index, first + j);
    }
    assert forall|i: int, j: int| 0 <= i && j == i + 1 && j < needed.len() implies (
    #[trigger] needed[j]).key == (#[trigger] needed[i]).key + needed[i].value.input_length
        && needed[j].key < resumed + rest by {
        assert(needed[i] == v.index[first + i]);
        assert(needed[j] == v.index[first + j]);
        lemma_chained_order(v.index, first + i, first + j);
    }
}

/// A read that still wants bytes has a block to decode.
pub proof fn lemma_needed_some(v: ReaderView, resumed: int, rest: int)
    requires
        v.wf(),
        0 <= resumed <= v.total(),
        0 < v.total(),
        0 < rest,
    ensures
        resolve_of(v.index, resumed, rest).len() > 0,
{
    lemma_needed(v, resumed, rest);
}

/// What the block at place `at` among the blocks to decode is like: the
/// facts of `lemma_needed`, for that one block.
pub proof fn lemma_needed_at(v: ReaderView, resumed: int, rest: int, at: int)
    requires
        v.wf(),
        0 <= resumed <= v.total(),
        0 < v.total(),
        0 < rest,
        0 <= at < resolve_of(v.index, resumed, rest).len(),
    ensures
        ({
            let needed = resolve_of(v.index, resumed, rest);
            let entry = needed[at];
            let end = entry.key + entry.value.input_length;
            &&& v.index.contains(entry)
            &&& entry.value.input_length > 0
            &&& entry.value.data_offset + entry.value.data_length <= v.image.len()
            &&& end <= v.total()
            &&& v.stream().subrange(entry.key as int, end) == block_bytes(v.image, entry.value)
            &&& at == 0 ==> entry.key <= resumed <= end && (resumed < v.total() ==> resumed < end)
            &&& at > 0 ==> entry.key == needed[at - 1].key + needed[at - 1].value.input_length
                && entry.key < resumed + rest
            &&& at + 1 == needed.len() ==> end >= resumed + rest || end == v.total()
        }),
{
    lemma_needed(v, resumed, rest);
}

/// Where the blocks to decode stand in the index: they are a run of it. The
/// blocks before the run end at or before `resumed`, and the blocks behind it
/// start at or after the read's end.
pub proof fn lemma_needed_run(v: ReaderView, resumed: int, rest: int)
    requires
        v.wf(),
        0 <= resumed <= v.total(),
        0 < v.total(),
        0 < rest,
    ensures
        ({
            let first = rank_of(v.index, resumed + 1) - 1;
            let end = rank_of(v.index, resumed + rest);
            &&& 0 <= first < end <= v.index.len()
            &&& resolve_of(v.index, resumed, rest) == v.index.subrange(first, end)
            &&& forall|i: int|
                0 <= i < first ==> (#[trigger] v.index[i]).key + v.index[i].value.input_length
                    <= resumed
            &&& forall|i: int|
                end <= i < v.index.len() ==> (#[trigger] v.index[i]).key >= resumed + rest
        }),
{
    lemma_index_of(v.image);
    lemma_chained_increasing(v.index);
    if v.index.len() == 0 {
        assert(total_length(v.index) == 0);
    }
    lemma_resolve_run(v.index, resumed, rest);
    lemma_rank_of(v.index, resumed + rest);
    let first = rank_of(v.index, resumed + 1) - 1;
    assert forall|i: int| 0 <= i < first implies (#[trigger] v.index[i]).key
        + v.index[i].value.input_length <= resumed by {
        lemma_chained_order(v.index, i, first);
    }
}

/// Before the place that `decodable_prefix` gives every block decodes, and
/// the block at that place does not.
pub proof fn lemma_prefix_decodes(image: Seq<u8>, needed: Seq<IndexEntry>)
    ensures
        0 <= decodable_prefix(image, needed) <= needed.len(),
        forall|j: int|
            0 <= j < decodable_prefix(image, needed) ==> block_content(
                image,
                (#[trigger] needed[j]).value,
            ) is Some,
        decodable_prefix(image, needed) < needed.len() ==> block_content(
            image,
            needed[decodable_prefix(image, needed)].value,
        ) is None,
    decreases needed.len(),
{
    if needed.len() > 0 && block_content(image, needed[0].value) is Some {
        let rest = needed.drop_first();
        lemma_prefix_decodes(image, rest);
        assert forall|j: int| 0 <= j < decodable_prefix(image, needed) implies block_content(
            image,
            (#[trigger] needed[j]).value,
        ) is Some by {
            if j > 0 {
                assert(needed[j] == rest[j - 1]);
            }
        }
        if decodable_prefix(image, needed) < needed.len() {
            assert(needed[decodable_prefix(image, needed)] == rest[decodable_prefix(image, rest)]);
        }
    }
}

/// The blocks to decode start one after the other.
pub proof fn lemma_needed_keys_grow(v: ReaderView, resumed: int, rest: int, i: int, j: int)
    requires
        v.wf(),
        0 <= resumed <= v.total(),
        0 < v.total(),
        0 < rest,
        0 <= i <= j < resolve_of(v.index, resumed, rest).len(),
    ensures
        resolve_of(v.index, resumed, rest)[i].key <= resolve_of(v.index, resumed, rest)[j].key,
    decreases j - i,
{
    if i < j {
        lemma_needed(v, resumed, rest);
        let needed = resolve_of(v.index, resumed, rest);
        assert(needed[i + 1].key == needed[i].key + needed[i].value.input_length);
        lemma_needed_keys_grow(v, resumed, rest, i + 1, j);
    }
}

} // verus!
