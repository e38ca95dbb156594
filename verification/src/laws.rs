//! What holds of every reader, whatever it is asked to do.

use crate::cache::cached_from;
use crate::error::Error;
use crate::index::{rank_of, resolve_of};
use crate::index_proofs::{lemma_chained_order, lemma_index_of};
use crate::reader::{ReadOutcome, ReaderView};
use crate::reader_proofs::{
    lemma_cache_hit, lemma_needed, lemma_needed_keys_grow, lemma_needed_run,
    lemma_prefix_decodes,
};
use crate::stream::{block_content, decodable_prefix, decodes_between, lemma_decodable_prefix};
use vstd::prelude::*;

verus! {

/// The least of two numbers.
pub open spec fn least(a: int, b: int) -> int {
    if a < b {
        a
    } else {
        b
    }
}

/// The sum of `lens`.
pub open spec fn sum_of(lens: Seq<usize>) -> int
    decreases lens.len(),
{
    if lens.len() == 0 {
        0
    } else {
        lens[0] + sum_of(lens.drop_first())
    }
}

/// The bytes that reads of the lengths `lens` deliver, made one after the
/// other from `v` on, laid end to end.
pub open spec fn read_in_turn(v: ReaderView, lens: Seq<usize>) -> Seq<u8>
    decreases lens.len(),
{
    if lens.len() == 0 {
        Seq::empty()
    } else {
        v.read(lens[0]).delivered + read_in_turn(v.read(lens[0]).after, lens.drop_first())
    }
}

/// Whether none of the reads of the lengths `lens` fails, made one after the
/// other from `v` on.
pub open spec fn reads_succeed(v: ReaderView, lens: Seq<usize>) -> bool
    decreases lens.len(),
{
    lens.len() > 0 ==> v.read(lens[0]).outcome is Ok && reads_succeed(
        v.read(lens[0]).after,
        lens.drop_first(),
    )
}

/// No sum of lengths is negative.
pub proof fn lemma_sum_nonnegative(lens: Seq<usize>)
    ensures
        0 <= sum_of(lens),
    decreases lens.len(),
{
    if lens.len() > 0 {
        lemma_sum_nonnegative(lens.drop_first());
    }
}

/// A read leaves a reader of the same file behind: the image and the index
/// stay, and what the cache then holds is a block of the file.
pub proof fn lemma_read_keeps_reader(v: ReaderView, len: usize)
    requires
        v.wf(),
    ensures
        v.read(len).after.wf(),
        v.read(len).after.image == v.image,
        v.read(len).after.index == v.index,
{
    if len > 0 && v.pos < v.total() {
        lemma_cache_hit(v, len as int);
        let hit = v.cache_hit(len as int);
        if hit < len {
            let needed = resolve_of(v.index, v.pos + hit, len - hit);
            lemma_needed(v, v.pos + hit, len - hit);
            lemma_prefix_decodes(v.image, needed);
            let good = decodable_prefix(v.image, needed);
            if good > 0 {
                let entry = needed[good - 1];
                assert(v.index.contains(entry));
                let i = choose|i: int| 0 <= i < v.index.len() && v.index[i] == entry;
                assert(v.index[i].key == entry.key);
            }
        }
    }
}

/// Where the blocks decode that hold the bytes a read asks for, the read
/// delivers the stream from the position on: as many bytes as asked for, or
/// as many as are left.
pub proof fn lemma_read_delivers_stream(v: ReaderView, len: usize)
    requires
        v.wf(),
        0 < len,
        v.pos < v.total(),
        decodes_between(v.image, v.index, v.pos as int, v.pos + len),
    ensures
        v.read(len).outcome == Ok::<ReadOutcome, Error>(
            ReadOutcome::Copied(least(len as int, v.total() - v.pos) as usize),
        ),
        v.read(len).delivered == v.stream().subrange(
            v.pos as int,
            v.pos + least(len as int, v.total() - v.pos),
        ),
        v.read(len).after.pos == v.pos + least(len as int, v.total() - v.pos),
{
    lemma_cache_hit(v, len as int);
    let hit = v.cache_hit(len as int);
    if hit < len {
        let needed = resolve_of(v.index, v.pos + hit, len - hit);
        lemma_needed(v, v.pos + hit, len - hit);
        assert forall|j: int| 0 <= j < needed.len() implies block_content(
            v.image,
            (#[trigger] needed[j]).value,
        ) is Some by {
            lemma_needed_keys_grow(v, v.pos + hit, len - hit, 0, j);
            assert(v.index.contains(needed[j]));
            let i = choose|i: int| 0 <= i < v.index.len() && v.index[i] == needed[j];
            if j > 0 {
                assert(needed[1].key == needed[0].key + needed[0].value.input_length);
                lemma_needed_keys_grow(v, v.pos + hit, len - hit, 1, j);
                assert(needed[j].key == needed[j - 1].key + needed[j - 1].value.input_length);
            }
            assert(v.index[i].key < v.pos + len);
            assert(v.pos < v.index[i].key + v.index[i].value.input_length);
        }
        lemma_decodable_prefix(v.image, needed, needed.len() as int);
    }
}

/// A read that does not fail has found every block to decode that holds a
/// byte it was asked for.
pub proof fn lemma_successful_read_decodes(v: ReaderView, len: usize)
    requires
        v.wf(),
        v.read(len).outcome is Ok,
        0 < len,
        v.pos < v.total(),
    ensures
        decodes_between(v.image, v.index, v.pos as int, v.pos + len),
{
    lemma_index_of(v.image);
    lemma_cache_hit(v, len as int);
    let hit = v.cache_hit(len as int);
    let resumed = v.pos + hit;
    assert forall|i: int|
        0 <= i < v.index.len() && (#[trigger] v.index[i]).key < v.pos + len && v.pos
            < v.index[i].key + v.index[i].value.input_length implies block_content(
        v.image,
        v.index[i].value,
    ) is Some by {
        if hit > 0 && v.index[i].key < resumed {
            let held = v.cache->Some_0;
            let at = choose|at: int|
                0 <= at < v.index.len() && (#[trigger] v.index[at]).key == held.pos
                    && block_content(v.image, v.index[at].value) == Some(held.data);
            if i < at {
                lemma_chained_order(v.index, i, at);
            }
            if at < i {
                lemma_chained_order(v.index, at, i);
            }
        } else {
            let needed = resolve_of(v.index, resumed, len - hit);
            lemma_needed_run(v, resumed, len - hit);
            lemma_prefix_decodes(v.image, needed);
            let first = rank_of(v.index, resumed + 1) - 1;
            assert(needed[i - first] == v.index[i]);
        }
    }
}

/// Reads made one after the other deliver together the stream from the
/// position on, as far as their lengths reach or the stream goes, where the
/// blocks decode that hold these bytes. None of them fails.
pub proof fn lemma_reads_in_turn(v: ReaderView, lens: Seq<usize>)
    requires
        v.wf(),
        v.pos < v.total() ==> decodes_between(
            v.image,
            v.index,
            v.pos as int,
            v.pos + sum_of(lens),
        ),
    ensures
        reads_succeed(v, lens),
        read_in_turn(v, lens) == v.stream().subrange(
            least(v.pos as int, v.total()),
            least(v.pos + sum_of(lens), v.total()),
        ),
    decreases lens.len(),
{
    lemma_cache_hit(v, 1);
    lemma_sum_nonnegative(lens);
    if lens.len() == 0 {
        assert(read_in_turn(v, lens) =~= v.stream().subrange(
            least(v.pos as int, v.total()),
            least(v.pos as int, v.total()),
        ));
    } else {
        let rest = lens.drop_first();
        lemma_sum_nonnegative(rest);
        let step = v.read(lens[0]);
        lemma_read_keeps_reader(v, lens[0]);
        if lens[0] > 0 && v.pos < v.total() {
            lemma_read_delivers_stream(v, lens[0]);
        }
        lemma_reads_in_turn(step.after, rest);
        assert(read_in_turn(v, lens) =~= v.stream().subrange(
            least(v.pos as int, v.total()),
            least(v.pos + sum_of(lens), v.total()),
        ));
    }
}

/// Read in one call or piece by piece, the stream is the same bytes: where
/// one read of `lens`' sum does not fail, the reads of the lengths `lens`,
/// made one after the other, do not fail either, and deliver together what
/// the one delivers. From position 0 and for lengths that sum up to the
/// stream's, that is the whole stream.
pub proof fn lemma_partitioned_reads(v: ReaderView, lens: Seq<usize>)
    requires
        v.wf(),
        sum_of(lens) <= usize::MAX,
        v.read(sum_of(lens) as usize).outcome is Ok,
    ensures
        reads_succeed(v, lens),
        read_in_turn(v, lens) == v.read(sum_of(lens) as usize).delivered,
        v.pos == 0 && sum_of(lens) == v.total() ==> read_in_turn(v, lens) == v.stream(),
{
    lemma_cache_hit(v, 1);
    lemma_sum_nonnegative(lens);
    let whole = sum_of(lens) as usize;
    if whole > 0 && v.pos < v.total() {
        lemma_successful_read_decodes(v, whole);
        lemma_read_delivers_stream(v, whole);
    }
    lemma_reads_in_turn(v, lens);
    assert(v.stream().subrange(least(v.pos as int, v.total()), least(v.pos as int, v.total()))
        =~= Seq::<u8>::empty());
    if v.pos == 0 && whole == v.total() {
        assert(v.stream().subrange(0, v.total()) =~= v.stream());
    }
}

/// A seek to `p` and a read of `n` bytes deliver what a read of `p + n` bytes
/// from the start delivers after its first `p` bytes, where that read ends
/// within the stream and does not fail.
pub proof fn lemma_seek_then_read(v: ReaderView, p: u64, n: usize)
    requires
        v.wf(),
        p + n <= v.total(),
        p + n <= usize::MAX,
        v.seek(0).read((p + n) as usize).outcome is Ok,
    ensures
        v.seek(p).read(n).outcome == Ok::<ReadOutcome, Error>(ReadOutcome::Copied(n)),
        v.seek(p).read(n).delivered == v.seek(0).read((p + n) as usize).delivered.skip(p as int),
        v.seek(p).read(n).delivered == v.stream().subrange(p as int, p + n),
{
    lemma_cache_hit(v, 1);
    let whole = (p + n) as usize;
    if whole > 0 {
        lemma_successful_read_decodes(v.seek(0), whole);
        lemma_read_delivers_stream(v.seek(0), whole);
    }
    if n > 0 {
        lemma_read_delivers_stream(v.seek(p), n);
    } else {
        assert(v.stream().subrange(p as int, p as int) =~= Seq::<u8>::empty());
    }
    assert(v.seek(0).read(whole).delivered.skip(p as int) =~= v.stream().subrange(
        p as int,
        p + n,
    ));
}

/// Two reads in a row that both lie within the cached block do not run the
/// decompressor: they are served from the cache, which they leave as it is.
pub proof fn lemma_cached_reads_decompress_nothing(v: ReaderView, first: usize, second: usize)
    requires
        v.wf(),
        0 < first,
        0 < second,
        v.cache is Some,
        v.cache->Some_0.pos <= v.pos,
        v.pos + first + second <= v.cache->Some_0.pos + v.cache->Some_0.data.len(),
    ensures
        ({
            let one = v.read(first);
            let two = one.after.read(second);
            &&& one.outcome == Ok::<ReadOutcome, Error>(ReadOutcome::Copied(first))
            &&& two.outcome == Ok::<ReadOutcome, Error>(ReadOutcome::Copied(second))
            &&& one.delivered + two.delivered == v.stream().subrange(
                v.pos as int,
                v.pos + first + second,
            )
            &&& two.after.decompressions == v.decompressions
            &&& two.after.cache == v.cache
        }),
{
    lemma_cache_hit(v, first as int);
    let one = v.read(first);
    assert(cached_from(v.cache, v.pos as int) >= first + second);
    assert(v.cache_hit(first as int) == first);
    assert(one.after.wf());
    lemma_cache_hit(one.after, second as int);
    assert(one.after.cache_hit(second as int) == second);
    assert(one.delivered + one.after.read(second).delivered =~= v.stream().subrange(
        v.pos as int,
        v.pos + first + second,
    ));
}

/// A read that needs a block which does not decompress to its declared
/// length fails with a decode error, and delivers no byte of that block or of
/// a later one: it stops where that block starts, or earlier.
pub proof fn lemma_undecodable_block_fails(v: ReaderView, len: usize, j: int)
    requires
        v.wf(),
        0 < len,
        v.pos < v.total(),
        v.cache_hit(len as int) < len,
        0 <= j < resolve_of(
            v.index,
            v.pos + v.cache_hit(len as int),
            len - v.cache_hit(len as int),
        ).len(),
        block_content(
            v.image,
            resolve_of(
                v.index,
                v.pos + v.cache_hit(len as int),
                len - v.cache_hit(len as int),
            )[j].value,
        ) is None,
    ensures
        v.read(len).outcome == Err::<ReadOutcome, Error>(Error::NotFullyDecompressed),
        v.read(len).after.pos <= v.pos + v.cache_hit(len as int) || v.read(len).after.pos
            <= resolve_of(
            v.index,
            v.pos + v.cache_hit(len as int),
            len - v.cache_hit(len as int),
        )[j].key,
        v.read(len).delivered == v.stream().subrange(v.pos as int, v.read(len).after.pos as int),
{
    lemma_cache_hit(v, len as int);
    let hit = v.cache_hit(len as int);
    let needed = resolve_of(v.index, v.pos + hit, len - hit);
    lemma_needed(v, v.pos + hit, len - hit);
    lemma_prefix_decodes(v.image, needed);
    let good = decodable_prefix(v.image, needed);
    if good > j {
        assert(block_content(v.image, needed[j].value) is Some);
    }
    lemma_index_of(v.image);
    if 0 < good < j {
        lemma_needed_keys_grow(v, v.pos + hit, len - hit, good, j);
    }
}

} // verus!
