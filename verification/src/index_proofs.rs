//! Proofs about the block index: how its keys are ordered, and what the
//! lookups find.

use crate::block::parse_block;
use crate::index::{
    chained, contains_key, floor_of, increasing, index_from, index_of, range_of, rank_of,
    resolve_of, total_length, IndexEntry,
};
use vstd::prelude::*;

verus! {

/// A block that parses lies within the image, takes up at least one byte and
/// holds at least one.
pub proof fn lemma_parsed_block(image: Seq<u8>, offset: int)
    requires
        0 <= offset,
        image.len() <= u64::MAX,
        parse_block(image, offset) matches Ok(Some(_)),
    ensures
        ({
            let block = parse_block(image, offset)->Ok_0->Some_0;
            &&& block.input_length > 0
            &&& block.block_size > 0
            &&& offset + block.block_size <= image.len()
            &&& offset < block.data_offset
            &&& block.data_offset + block.data_length <= offset + block.block_size
        }),
{
}

/// The sum of two runs is the sum of their sums.
pub proof fn lemma_total_length_add(a: Seq<IndexEntry>, b: Seq<IndexEntry>)
    ensures
        total_length(a + b) == total_length(a) + total_length(b),
    decreases b.len(),
{
    if b.len() == 0 {
        assert(a + b == a);
    } else {
        lemma_total_length_add(a, b.drop_last());
        assert((a + b).drop_last() == a + b.drop_last());
    }
}

/// No sum is negative.
pub proof fn lemma_total_length_nonnegative(entries: Seq<IndexEntry>)
    ensures
        0 <= total_length(entries),
    decreases entries.len(),
{
    if entries.len() > 0 {
        lemma_total_length_nonnegative(entries.drop_last());
    }
}

/// What indexing finds from any offset on starts at the given key and lies
/// end to end from there, and each block found lies within the image.
pub proof fn lemma_index_from(image: Seq<u8>, offset: int, key: int)
    requires
        image.len() <= u64::MAX,
    ensures
        ({
            let entries = index_from(image, offset, key);
            &&& entries.len() > 0 ==> 0 <= key == entries[0].key && entries.last().key
                + entries.last().value.input_length <= u64::MAX
            &&& forall|i: int|
                0 <= i < entries.len() ==> {
                    &&& (#[trigger] entries[i]).value.input_length > 0
                    &&& entries[i].value.data_offset + entries[i].value.data_length <= image.len()
                }
            &&& forall|i: int, j: int|
                0 <= i && j == i + 1 && j < entries.len() ==> (#[trigger] entries[j]).key == (
                #[trigger] entries[i]).key + entries[i].value.input_length
        }),
    decreases image.len() - offset,
{
    let entries = index_from(image, offset, key);
    if entries.len() > 0 {
        let block = parse_block(image, offset)->Ok_0->Some_0;
        lemma_parsed_block(image, offset);
        let head = IndexEntry { key: key as u64, value: block };
        let rest = index_from(image, offset + block.block_size, key + block.input_length);
        lemma_index_from(image, offset + block.block_size, key + block.input_length);
        assert(entries == seq![head] + rest);
        assert(entries[0] == head);
        assert forall|i: int| 0 < i < entries.len() implies #[trigger] entries[i] == rest[i - 1] by {}
        assert forall|i: int| 0 <= i < entries.len() implies {
            &&& (#[trigger] entries[i]).value.input_length > 0
            &&& entries[i].value.data_offset + entries[i].value.data_length <= image.len()
        } by {
            if i > 0 {
                assert(entries[i] == rest[i - 1]);
            }
        }
        assert forall|i: int, j: int| 0 <= i && j == i + 1 && j < entries.len() implies (
        #[trigger] entries[j]).key == (#[trigger] entries[i]).key
            + entries[i].value.input_length by {
            assert(entries[j] == rest[j - 1]);
            if i > 0 {
                assert(entries[i] == rest[i - 1]);
            }
        }
        if rest.len() > 0 {
            assert(entries.last() == rest.last());
        }
    }
}

/// The index of a file is chained, and its blocks lie within the file.
pub proof fn lemma_index_of(image: Seq<u8>)
    requires
        image.len() <= u64::MAX,
    ensures
        chained(index_of(image)),
        forall|i: int|
            0 <= i < index_of(image).len() ==> (#[trigger] index_of(image)[i]).value.data_offset
                + index_of(image)[i].value.data_length <= image.len(),
{
    lemma_index_from(image, 0, 0);
}

/// Every prefix of a chained index is chained.
pub proof fn lemma_chained_take(entries: Seq<IndexEntry>, n: int)
    requires
        chained(entries),
        0 <= n <= entries.len(),
    ensures
        chained(entries.take(n)),
{
    let prefix = entries.take(n);
    if 0 < n < entries.len() {
        assert(entries[n].key == entries[n - 1].key + entries[n - 1].value.input_length);
    }
    assert forall|i: int, j: int| 0 <= i && j == i + 1 && j < prefix.len() implies (
    #[trigger] prefix[j]).key == (#[trigger] prefix[i]).key + prefix[i].value.input_length by {
        assert(prefix[i] == entries[i] && prefix[j] == entries[j]);
    }
}

/// The blocks of a chained index sum up to where its last block ends.
pub proof fn lemma_chained_total(entries: Seq<IndexEntry>)
    requires
        chained(entries),
    ensures
        total_length(entries) == if entries.len() == 0 {
            0
        } else {
            entries.last().key + entries.last().value.input_length
        },
    decreases entries.len(),
{
    if entries.len() > 0 {
        let init = entries.drop_last();
        assert(init == entries.take(entries.len() - 1));
        lemma_chained_take(entries, entries.len() - 1);
        lemma_chained_total(init);
        if init.len() > 0 {
            assert(init.last() == entries[entries.len() - 2]);
            assert(entries[entries.len() - 1].key == entries[entries.len() - 2].key
                + entries[entries.len() - 2].value.input_length);
        }
    }
}

/// In a chained index each key is the sum of the lengths of the blocks
/// before it.
pub proof fn lemma_chained_key(entries: Seq<IndexEntry>, i: int)
    requires
        chained(entries),
        0 <= i < entries.len(),
    ensures
        entries[i].key == total_length(entries.take(i)),
        entries[i].key + entries[i].value.input_length == total_length(entries.take(i + 1)),
{
    lemma_chained_take(entries, i);
    lemma_chained_total(entries.take(i));
    lemma_chained_take(entries, i + 1);
    lemma_chained_total(entries.take(i + 1));
    if i > 0 {
        assert(entries.take(i).last() == entries[i - 1]);
        assert(entries[i].key == entries[i - 1].key + entries[i - 1].value.input_length);
    }
    assert(entries.take(i + 1).last() == entries[i]);
}

/// In a chained index each block ends where the next one starts, at or
/// before the start of any later one, and within the stream.
pub proof fn lemma_chained_order(entries: Seq<IndexEntry>, i: int, j: int)
    requires
        chained(entries),
        0 <= i < j <= entries.len(),
    ensures
        j < entries.len() ==> entries[i].key + entries[i].value.input_length <= entries[j].key,
        j == i + 1 && j < entries.len() ==> entries[i].key + entries[i].value.input_length
            == entries[j].key,
        entries[i].key + entries[i].value.input_length <= total_length(entries),
        i + 1 == entries.len() ==> entries[i].key + entries[i].value.input_length == total_length(
            entries,
        ),
{
    lemma_chained_key(entries, i);
    assert(entries.take(j) == entries.take(i + 1) + entries.subrange(i + 1, j));
    lemma_total_length_add(entries.take(i + 1), entries.subrange(i + 1, j));
    lemma_total_length_nonnegative(entries.subrange(i + 1, j));
    assert(entries == entries.take(j) + entries.subrange(j, entries.len() as int));
    lemma_total_length_add(entries.take(j), entries.subrange(j, entries.len() as int));
    lemma_total_length_nonnegative(entries.subrange(j, entries.len() as int));
    if j < entries.len() {
        lemma_chained_key(entries, j);
    }
    if i + 1 == entries.len() {
        assert(entries.take(i + 1) == entries);
    }
}

/// The keys of a chained index grow strictly.
pub proof fn lemma_chained_increasing(entries: Seq<IndexEntry>)
    requires
        chained(entries),
    ensures
        increasing(entries),
{
    assert forall|i: int, j: int| 0 <= i < j < entries.len() implies (#[trigger] entries[i]).key
        < (#[trigger] entries[j]).key by {
        lemma_chained_order(entries, i, j);
    }
}

/// Where keys grow, `rank_of` splits the index: the entries before it have
/// keys below the bound, the others do not.
pub proof fn lemma_rank_of(entries: Seq<IndexEntry>, bound: int)
    requires
        increasing(entries),
    ensures
        0 <= rank_of(entries, bound) <= entries.len(),
        forall|i: int| 0 <= i < rank_of(entries, bound) ==> (#[trigger] entries[i]).key < bound,
        forall|i: int|
            rank_of(entries, bound) <= i < entries.len() ==> (#[trigger] entries[i]).key >= bound,
    decreases entries.len(),
{
    if entries.len() > 0 {
        let init = entries.drop_last();
        let last = entries.len() - 1;
        assert forall|i: int, j: int| 0 <= i < j < init.len() implies (#[trigger] init[i]).key < (
        #[trigger] init[j]).key by {
            assert(init[i] == entries[i] && init[j] == entries[j]);
        }
        lemma_rank_of(init, bound);
        assert forall|i: int| 0 <= i < rank_of(entries, bound) implies (#[trigger] entries[i]).key
            < bound by {
            if i < last {
                assert(entries[i] == init[i]);
                if entries[last].key < bound {
                    assert(entries[i].key < entries[last].key);
                }
            }
        }
        assert forall|i: int| rank_of(entries, bound) <= i < entries.len() implies (
        #[trigger] entries[i]).key >= bound by {
            if i < last {
                assert(entries[i] == init[i]);
                if entries[last].key < bound {
                    assert(rank_of(init, bound) <= i);
                    assert(init[i].key >= bound);
                    assert(entries[i].key < entries[last].key);
                }
            }
        }
    }
}

/// Where keys grow, the one place that splits the index at `bound` is
/// `rank_of`.
pub proof fn lemma_rank_unique(entries: Seq<IndexEntry>, bound: int, r: int)
    requires
        increasing(entries),
        0 <= r <= entries.len(),
        forall|i: int| 0 <= i < r ==> (#[trigger] entries[i]).key < bound,
        forall|i: int| r <= i < entries.len() ==> (#[trigger] entries[i]).key >= bound,
    ensures
        rank_of(entries, bound) == r,
{
    lemma_rank_of(entries, bound);
    let q = rank_of(entries, bound);
    if q < r {
        assert(entries[q].key < bound);
    }
    if r < q {
        assert(entries[r].key >= bound);
    }
}

/// What `floor_of` and `contains_key` find, said without counting: the floor
/// is the entry with the greatest key not above `pos`, and a key is in the
/// index exactly when it is the key of its own floor.
pub proof fn lemma_floor_of(entries: Seq<IndexEntry>, pos: int)
    requires
        increasing(entries),
    ensures
        match floor_of(entries, pos) {
            Some(e) => {
                &&& entries.contains(e)
                &&& e.key <= pos
                &&& forall|i: int|
                    0 <= i < entries.len() && (#[trigger] entries[i]).key <= pos ==> entries[i].key
                        <= e.key
            },
            None => forall|i: int| 0 <= i < entries.len() ==> (#[trigger] entries[i]).key > pos,
        },
        contains_key(entries, pos) <==> (floor_of(entries, pos) matches Some(e) && e.key == pos),
{
    lemma_rank_of(entries, pos + 1);
    let below = rank_of(entries, pos + 1);
    if below > 0 {
        let e = entries[below - 1];
        assert forall|i: int| 0 <= i < entries.len() && (#[trigger] entries[i]).key
            <= pos implies entries[i].key <= e.key by {
            if i >= below {
                assert(entries[i].key >= pos + 1);
            }
            if i < below - 1 {
                assert(entries[i].key < entries[below - 1].key);
            }
        }
        if contains_key(entries, pos) {
            let i = choose|i: int| 0 <= i < entries.len() && (#[trigger] entries[i]).key == pos;
            assert(entries[i].key <= e.key);
        }
    }
}

/// Where keys grow, the entries with a key in `[lo, hi)` are one run of the
/// index, from the first key not below `lo` to the first not below `hi`.
pub proof fn lemma_range_of(entries: Seq<IndexEntry>, lo: int, hi: int)
    requires
        increasing(entries),
    ensures
        lo <= hi ==> rank_of(entries, lo) <= rank_of(entries, hi),
        lo <= hi ==> range_of(entries, lo, hi) == entries.subrange(
            rank_of(entries, lo),
            rank_of(entries, hi),
        ),
        lo > hi ==> range_of(entries, lo, hi) == Seq::<IndexEntry>::empty(),
    decreases entries.len(),
{
    reveal(Seq::filter);
    let pred = |e: IndexEntry| lo <= e.key < hi;
    lemma_rank_of(entries, lo);
    lemma_rank_of(entries, hi);
    if entries.len() > 0 {
        let init = entries.drop_last();
        let last = entries.last();
        assert forall|i: int, j: int| 0 <= i < j < init.len() implies (#[trigger] init[i]).key < (
        #[trigger] init[j]).key by {
            assert(init[i] == entries[i] && init[j] == entries[j]);
        }
        lemma_range_of(init, lo, hi);
        lemma_rank_of(init, lo);
        lemma_rank_of(init, hi);
        if lo <= hi {
            let a = rank_of(entries, lo);
            let b = rank_of(entries, hi);
            if a > b {
                assert(entries[b].key >= hi);
                assert(entries[b].key < lo);
            }
            if last.key < lo {
                assert(entries.subrange(a, b) == init.subrange(a - 1, b - 1));
            } else if last.key < hi {
                assert(rank_of(init, hi) == init.len()) by {
                    if rank_of(init, hi) < init.len() {
                        let i = rank_of(init, hi);
                        assert(init[i].key >= hi);
                        assert(entries[i].key < entries[entries.len() - 1].key);
                    }
                }
                assert(entries.subrange(a, b) == init.subrange(a, b - 1).push(last));
            } else {
                assert(entries.subrange(a, b) == init.subrange(a, b));
            }
        }
    }
}

/// Where keys grow from 0, the blocks to decode are one run of the index: from
/// the last block that starts at or before `pos` to the first block that
/// starts at or after `pos + len`.
pub proof fn lemma_resolve_run(entries: Seq<IndexEntry>, pos: int, len: int)
    requires
        increasing(entries),
        entries.len() > 0,
        entries[0].key == 0,
        0 <= pos,
        0 < len,
    ensures
        ({
            let first = rank_of(entries, pos + 1) - 1;
            let end = rank_of(entries, pos + len);
            &&& 0 <= first < end <= entries.len()
            &&& resolve_of(entries, pos, len) == entries.subrange(first, end)
            &&& entries[first].key <= pos
            &&& first + 1 < entries.len() ==> pos < entries[first + 1].key
            &&& forall|j: int| first < j < end ==> (#[trigger] entries[j]).key < pos + len
            &&& end < entries.len() ==> entries[end].key >= pos + len
        }),
{
    lemma_rank_of(entries, pos);
    lemma_rank_of(entries, pos + 1);
    lemma_rank_of(entries, pos + len);
    lemma_floor_of(entries, pos);
    lemma_range_of(entries, pos, pos + len);
    let below = rank_of(entries, pos);
    let through = rank_of(entries, pos + 1);
    let end = rank_of(entries, pos + len);
    let first = through - 1;
    if through == 0 {
        assert(entries[0].key >= pos + 1);
    }
    if below > through {
        assert(entries[through].key >= pos + 1);
        assert(entries[through].key < pos);
    }
    if contains_key(entries, pos) {
        assert(entries[first].key == pos);
        if below < first {
            assert(entries[below].key >= pos);
            assert(entries[below].key < entries[first].key);
        }
        if first >= end {
            assert(entries[first].key >= pos + len);
        }
        assert(resolve_of(entries, pos, len) =~= entries.subrange(first, end));
    } else {
        if below < through {
            assert(entries[below].key >= pos);
            assert(entries[below].key < pos + 1);
        }
        assert(resolve_of(entries, pos, len) =~= entries.subrange(first, end));
    }
    if first + 1 < entries.len() {
        assert(entries[first + 1].key >= pos + 1);
    }
}

} // verus!
