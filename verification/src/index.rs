//! The block index: every block of a file, keyed by the offset at which its
//! data starts in the logical stream.

use crate::block::{parse_block, read_block, BgzfBlock};
use crate::error::Error;
use crate::index_proofs::{
    lemma_chained_increasing, lemma_chained_order, lemma_chained_total, lemma_floor_of,
    lemma_index_of, lemma_parsed_block, lemma_range_of, lemma_rank_of, lemma_rank_unique,
};
use vstd::prelude::*;

verus! {

/// One block of the index, with the stream offset at which its data starts.
#[derive(Clone, Copy, Debug, PartialEq, Eq, Structural)]
pub struct IndexEntry {
    /// Offset of the block's first byte in the logical stream.
    pub key: u64,
    /// The block.
    pub value: BgzfBlock,
}

/// Sum of the uncompressed lengths of `entries`.
pub open spec fn total_length(entries: Seq<IndexEntry>) -> int
    decreases entries.len(),
{
    if entries.len() == 0 {
        0
    } else {
        total_length(entries.drop_last()) + entries.last().value.input_length
    }
}

/// Whether `entries` lie end to end in the logical stream: the first block
/// starts at offset 0, no block is empty, each block starts where the one
/// before it ends, and the last one ends within 64 bits.
pub open spec fn chained(entries: Seq<IndexEntry>) -> bool {
    &&& entries.len() > 0 ==> entries[0].key == 0 && entries.last().key
        + entries.last().value.input_length <= u64::MAX
    &&& forall|i: int|
        0 <= i < entries.len() ==> (#[trigger] entries[i]).value.input_length > 0
    &&& forall|i: int, j: int|
        0 <= i && j == i + 1 && j < entries.len() ==> (#[trigger] entries[j]).key == (
        #[trigger] entries[i]).key + entries[i].value.input_length
}

/// The entries that indexing finds from file offset `offset` on, the first of
/// them at stream offset `key`. Indexing stops at the terminal block, at the
/// first offset where no block parses, and where the stream would outgrow 64
/// bits.
pub open spec fn index_from(image: Seq<u8>, offset: int, key: int) -> Seq<IndexEntry>
    decreases image.len() - offset,
{
    match parse_block(image, offset) {
        Ok(Some(block)) => if 0 <= offset && 0 <= key && key + block.input_length <= u64::MAX {
            seq![IndexEntry { key: key as u64, value: block }] + index_from(
                image,
                offset + block.block_size,
                key + block.input_length,
            )
        } else {
            Seq::empty()
        },
        _ => Seq::empty(),
    }
}

/// The index of a whole file.
pub open spec fn index_of(image: Seq<u8>) -> Seq<IndexEntry> {
    index_from(image, 0, 0)
}

/// Whether the keys of `entries` grow strictly.
pub open spec fn increasing(entries: Seq<IndexEntry>) -> bool {
    forall|i: int, j: int|
        0 <= i < j < entries.len() ==> (#[trigger] entries[i]).key < (#[trigger] entries[j]).key
}

/// How many of `entries` have a key below `bound`.
pub open spec fn rank_of(entries: Seq<IndexEntry>, bound: int) -> int
    decreases entries.len(),
{
    if entries.len() == 0 {
        0
    } else {
        rank_of(entries.drop_last(), bound) + if entries.last().key < bound {
            1int
        } else {
            0int
        }
    }
}

/// The entry with the greatest key that is at most `pos`, if there is one,
/// in an index whose keys grow.
pub open spec fn floor_of(entries: Seq<IndexEntry>, pos: int) -> Option<IndexEntry> {
    let below = rank_of(entries, pos + 1);
    if below > 0 {
        Some(entries[below - 1])
    } else {
        None
    }
}

/// Whether a block starts exactly at `pos`.
pub open spec fn contains_key(entries: Seq<IndexEntry>, pos: int) -> bool {
    exists|i: int| 0 <= i < entries.len() && (#[trigger] entries[i]).key == pos
}

/// The entries whose key lies in `[lo, hi)`, in the order of the index.
pub open spec fn range_of(entries: Seq<IndexEntry>, lo: int, hi: int) -> Seq<IndexEntry> {
    entries.filter(|e: IndexEntry| lo <= e.key < hi)
}

/// The blocks that a read of `len` bytes at `pos` has to decode: the block
/// that `pos` falls into, unless a block starts at `pos`, and then every
/// block that starts within `[pos, pos + len)`.
pub open spec fn resolve_of(entries: Seq<IndexEntry>, pos: int, len: int) -> Seq<IndexEntry> {
    let floored = if contains_key(entries, pos) {
        Seq::<IndexEntry>::empty()
    } else {
        match floor_of(entries, pos) {
            Some(entry) => seq![entry],
            None => Seq::<IndexEntry>::empty(),
        }
    };
    floored + range_of(entries, pos, pos + len)
}

/// The index of a file's blocks, built once and looked up by stream offset.
pub struct BlockIndex {
    entries: Vec<IndexEntry>,
}

impl View for BlockIndex {
    type V = Seq<IndexEntry>;

    closed spec fn view(&self) -> Seq<IndexEntry> {
        self.entries@
    }
}

impl BlockIndex {
    /// Every index lies end to end in the stream.
    #[verifier::type_invariant]
    pub open spec fn is_chained(&self) -> bool {
        chained(self@)
    }

    /// Indexes the blocks of `image`, from file offset 0 to the terminal
    /// block or to the first offset at which no block parses. Fails only
    /// where there is no block at offset 0 at all.
    pub fn build(image: &Vec<u8>) -> (r: Result<BlockIndex, Error>)
        ensures
            match r {
                Ok(index) => parse_block(image@, 0) is Ok && index@ == index_of(image@),
                Err(e) => parse_block(image@, 0) == Err::<Option<BgzfBlock>, Error>(e),
            },
    {
        let mut entries: Vec<IndexEntry> = Vec::new();
        let mut input_offset: u64 = 0;
        let mut current_file_position: u64 = 0;
        let mut first = true;
        assert(entries@ + index_of(image@) == index_of(image@));
        loop
            invariant_except_break
                first ==> current_file_position == 0,
                !first ==> parse_block(image@, 0) is Ok,
                current_file_position <= image@.len() == image.len(),
                entries@ + index_from(
                    image@,
                    current_file_position as int,
                    input_offset as int,
                ) == index_of(image@),
            ensures
                parse_block(image@, 0) is Ok,
                entries@ == index_of(image@),
            decreases image@.len() - current_file_position,
        {
            let ghost rest = index_from(
                image@,
                current_file_position as int,
                input_offset as int,
            );
            match read_block(image, current_file_position) {
                Ok(Some(block)) => {
                    match input_offset.checked_add(block.input_length as u64) {
                        Some(end) => {
                            proof {
                                lemma_parsed_block(image@, current_file_position as int);
                                let entry = IndexEntry { key: input_offset, value: block };
                                let next = index_from(
                                    image@,
                                    current_file_position + block.block_size,
                                    input_offset + block.input_length,
                                );
                                assert(rest == seq![entry] + next);
                                assert(entries@.push(entry) + next == entries@ + rest);
                            }
                            entries.push(IndexEntry { key: input_offset, value: block });
                            input_offset = end;
                            current_file_position = current_file_position
                                + block.block_size as u64;
                            first = false;
                        },
                        None => {
                            assert(entries@ + rest == entries@);
                            break ;
                        },
                    }
                },
                Ok(None) => {
                    assert(entries@ + rest == entries@);
                    break ;
                },
                Err(e) => {
                    if first {
                        return Err(e);
                    }
                    assert(entries@ + rest == entries@);
                    break ;
                },
            }
        }
        proof {
            assert(image@.len() == image.len());
            lemma_index_of(image@);
        }
        Ok(BlockIndex { entries })
    }

    /// The number of blocks.
    pub fn len(&self) -> (n: usize)
        ensures
            n == self@.len(),
    {
        self.entries.len()
    }

    /// The length of the logical stream: the sum of the blocks' uncompressed
    /// lengths.
    pub fn total(&self) -> (n: u64)
        ensures
            n == total_length(self@),
    {
        proof {
            use_type_invariant(self);
        }
        let count = self.entries.len();
        if count == 0 {
            0
        } else {
            let last = self.entries[count - 1];
            proof {
                lemma_chained_total(self.entries@);
            }
            last.key + last.value.input_length as u64
        }
    }

    /// How many entries have a key below `bound`, or, where `through` is
    /// set, a key that is at most `bound`.
    fn count_below(&self, bound: u64, through: bool) -> (r: usize)
        ensures
            r == rank_of(self@, bound + if through { 1int } else { 0int }),
            r <= self@.len(),
    {
        proof {
            use_type_invariant(self);
            lemma_chained_increasing(self.entries@);
        }
        let ghost limit = bound + if through { 1int } else { 0int };
        let mut lo: usize = 0;
        let mut hi: usize = self.entries.len();
        while lo < hi
            invariant
                lo <= hi <= self.entries@.len(),
                limit == bound + if through { 1int } else { 0int },
                forall|i: int| 0 <= i < lo ==> (#[trigger] self.entries@[i]).key < limit,
                forall|i: int|
                    hi <= i < self.entries@.len() ==> (#[trigger] self.entries@[i]).key >= limit,
                increasing(self.entries@),
            decreases hi - lo,
        {
            let mid = lo + (hi - lo) / 2;
            let key = self.entries[mid].key;
            if key < bound || (through && key == bound) {
                assert forall|i: int| 0 <= i < mid + 1 implies (#[trigger] self.entries@[i]).key
                    < limit by {
                    if i < mid {
                        assert(self.entries@[i].key < self.entries@[mid as int].key);
                    }
                }
                lo = mid + 1;
            } else {
                assert forall|i: int| mid <= i < self.entries@.len() implies (
                #[trigger] self.entries@[i]).key >= limit by {
                    if i > mid {
                        assert(self.entries@[mid as int].key < self.entries@[i].key);
                    }
                }
                hi = mid;
            }
        }
        proof {
            lemma_rank_unique(self.entries@, limit, lo as int);
        }
        lo
    }

    /// The block that `pos` falls into or after: the one with the greatest
    /// key that is at most `pos`.
    pub fn floor(&self, pos: u64) -> (r: Option<IndexEntry>)
        ensures
            r == floor_of(self@, pos as int),
    {
        let below = self.count_below(pos, true);
        if below > 0 {
            Some(self.entries[below - 1])
        } else {
            None
        }
    }

    /// Whether a block starts exactly at `pos`.
    pub fn contains(&self, pos: u64) -> (b: bool)
        ensures
            b == contains_key(self@, pos as int),
    {
        proof {
            use_type_invariant(self);
            lemma_chained_increasing(self.entries@);
            lemma_floor_of(self.entries@, pos as int);
        }
        match self.floor(pos) {
            Some(entry) => entry.key == pos,
            None => false,
        }
    }

    /// The block that starts exactly at `key`, if there is one.
    pub fn get(&self, key: u64) -> (r: Option<BgzfBlock>)
        ensures
            match r {
                Some(block) => self@.contains(IndexEntry { key, value: block }),
                None => !contains_key(self@, key as int),
            },
    {
        proof {
            use_type_invariant(self);
            lemma_chained_increasing(self.entries@);
            lemma_floor_of(self.entries@, key as int);
        }
        match self.floor(key) {
            Some(entry) => if entry.key == key {
                Some(entry.value)
            } else {
                None
            },
            None => None,
        }
    }

    /// The blocks that start within `[lo, hi)`, in ascending order.
    pub fn range(&self, lo: u64, hi: u64) -> (r: Vec<IndexEntry>)
        ensures
            r@ == range_of(self@, lo as int, hi as int),
    {
        proof {
            use_type_invariant(self);
            lemma_chained_increasing(self.entries@);
            lemma_range_of(self.entries@, lo as int, hi as int);
        }
        let mut found: Vec<IndexEntry> = Vec::new();
        if lo >= hi {
            proof {
                if lo == hi {
                    lemma_rank_of(self.entries@, lo as int);
                    assert(self.entries@.subrange(
                        rank_of(self.entries@, lo as int),
                        rank_of(self.entries@, hi as int),
                    ) == Seq::<IndexEntry>::empty());
                }
            }
            return found;
        }
        let start = self.count_below(lo, false);
        let end = self.count_below(hi, false);
        let mut i: usize = start;
        while i < end
            invariant
                start <= i <= end <= self.entries@.len(),
                found@ == self.entries@.subrange(start as int, i as int),
            decreases end - i,
        {
            found.push(self.entries[i]);
            assert(self.entries@.subrange(start as int, i as int).push(self.entries@[i as int])
                == self.entries@.subrange(start as int, i + 1));
            i = i + 1;
        }
        found
    }

    /// The blocks that a read of `len` bytes at `pos` has to decode, in
    /// ascending order.
    pub fn resolve(&self, pos: u64, len: usize) -> (r: Vec<IndexEntry>)
        ensures
            r@ == resolve_of(self@, pos as int, len as int),
    {
        let mut entry_vector: Vec<IndexEntry> = Vec::new();
        if !self.contains(pos) {
            match self.floor(pos) {
                Some(floored_value) => {
                    entry_vector.push(floored_value);
                },
                None => {},
            }
        }
        let pos_and_len_combined: u64 = if len as u64 > u64::MAX - pos {
            u64::MAX
        } else {
            pos + len as u64
        };
        proof {
            use_type_invariant(self);
            lemma_chained_increasing(self.entries@);
            lemma_range_of(self.entries@, pos as int, pos + len);
            lemma_range_of(self.entries@, pos as int, pos_and_len_combined as int);
            if pos_and_len_combined < pos + len {
                let count = self.entries@.len() as int;
                assert forall|i: int| 0 <= i < count implies (#[trigger] self.entries@[i]).key
                    < u64::MAX by {
                    lemma_chained_order(self.entries@, i, i + 1);
                }
                lemma_rank_unique(self.entries@, pos + len, count);
                lemma_rank_unique(self.entries@, pos_and_len_combined as int, count);
            }
        }
        let mut in_range = self.range(pos, pos_and_len_combined);
        entry_vector.append(&mut in_range);
        entry_vector
    }
}



} // verus!
