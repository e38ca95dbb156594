//! The cache of the block decoded last.

use vstd::prelude::*;
use vstd::slice::slice_subrange;

verus! {

/// One decoded block, as the cache holds it.
pub struct Cache {
    /// Offset of the block's first byte in the logical stream.
    pub pos: u64,
    /// The block's bytes.
    pub uncompressed_data: Vec<u8>,
}

/// A decoded block as a value: where it starts, and its bytes.
pub struct CachedBlock {
    pub pos: u64,
    pub data: Seq<u8>,
}

impl View for Cache {
    type V = CachedBlock;

    open spec fn view(&self) -> CachedBlock {
        CachedBlock { pos: self.pos, data: self.uncompressed_data@ }
    }
}

/// How many bytes a cache in state `cache` has for a read that stands at
/// `pos`: what is left of the cached block from `pos` on, if `pos` lies in
/// it.
pub open spec fn cached_from(cache: Option<CachedBlock>, pos: int) -> int {
    match cache {
        Some(block) => if block.pos <= pos < block.pos + block.data.len() {
            block.pos + block.data.len() - pos
        } else {
            0
        },
        None => 0,
    }
}

/// What a cache in state `cache` answers to a read of at most `max_len`
/// bytes at `pos`: the bytes it has from `pos` on, cut to `max_len`, or
/// nothing where `pos` lies outside the cached block.
pub open spec fn lookup(cache: Option<CachedBlock>, pos: int, max_len: int) -> Option<Seq<u8>> {
    match cache {
        Some(block) => if block.pos <= pos < block.pos + block.data.len() && 0 <= max_len {
            let start = pos - block.pos;
            let left = block.data.len() - start;
            Some(
                block.data.subrange(
                    start,
                    start + if left < max_len {
                        left
                    } else {
                        max_len
                    },
                ),
            )
        } else {
            None
        },
        None => None,
    }
}

/// A cache of one slot.
pub struct BlockCache {
    slot: Option<Cache>,
}

impl View for BlockCache {
    type V = Option<CachedBlock>;

    closed spec fn view(&self) -> Option<CachedBlock> {
        match self.slot {
            Some(block) => Some(block@),
            None => None,
        }
    }
}

impl BlockCache {
    /// A cache that holds nothing.
    pub fn new() -> (cache: BlockCache)
        ensures
            cache@ is None,
    {
        BlockCache { slot: None }
    }

    /// The cached bytes from `pos` on, at most `max_len` of them; `None`
    /// where the cache is empty or `pos` lies outside the cached block.
    pub fn get(&self, pos: u64, max_len: usize) -> (r: Option<&[u8]>)
        ensures
            match r {
                Some(bytes) => lookup(self@, pos as int, max_len as int) == Some(bytes@),
                None => lookup(self@, pos as int, max_len as int) is None,
            },
    {
        match &self.slot {
            Some(block) => {
                let held = block.uncompressed_data.len();
                if pos < block.pos || pos - block.pos >= held as u64 {
                    return None;
                }
                let start = (pos - block.pos) as usize;
                let left = held - start;
                let count = if left < max_len {
                    left
                } else {
                    max_len
                };
                Some(slice_subrange(block.uncompressed_data.as_slice(), start, start + count))
            },
            None => None,
        }
    }

    /// Replaces whatever the cache holds by the block that starts at
    /// `start_offset` and has the bytes `data`.
    pub fn put(&mut self, start_offset: u64, data: Vec<u8>)
        ensures
            final(self)@ == Some(CachedBlock { pos: start_offset, data: data@ }),
        no_unwind
    {
        self.slot = Some(Cache { pos: start_offset, uncompressed_data: data });
    }
}

} // verus!
