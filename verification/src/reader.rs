//! The random-access reader: an index of the file's blocks, a cache of the
//! block decoded last, and a position in the logical stream.

use crate::block::{parse_block, BgzfBlock};
use crate::cache::{cached_from, BlockCache, CachedBlock};
use crate::error::Error;
use crate::index::{index_of, resolve_of, total_length, BlockIndex, IndexEntry};
use crate::reader_proofs::{lemma_cache_hit, lemma_needed_at, lemma_needed_some};
use crate::stream::{
    block_bytes, block_content, decodable_prefix, decode_block, lemma_decodable_prefix,
    lemma_stream_length, stream_of,
};
use crate::window::{copy_into, copy_window, lemma_block_stretch, lemma_splice_next, splice};
use libdeflater::Decompressor;
use vstd::prelude::*;
use vstd::slice::slice_subrange;

verus! {

/// What a read that did not fail came to.
#[derive(Clone, Copy, Debug, PartialEq, Eq, Structural)]
pub enum ReadOutcome {
    /// This many bytes were copied into the buffer.
    Copied(usize),
    /// The position was at or beyond the end of the stream; nothing was
    /// copied.
    EndOfStream,
}

/// A reader as a value.
pub struct ReaderView {
    /// The bytes of the file.
    pub image: Seq<u8>,
    /// The blocks of the file.
    pub index: Seq<IndexEntry>,
    /// The block the cache holds.
    pub cache: Option<CachedBlock>,
    /// The position in the logical stream.
    pub pos: u64,
    /// How often the decompressor has been run.
    pub decompressions: u64,
}

/// What one read does.
pub struct ReadStep {
    /// What the read returns.
    pub outcome: Result<ReadOutcome, Error>,
    /// The bytes the read writes to the buffer, from the given offset on.
    pub delivered: Seq<u8>,
    /// The reader after the read.
    pub after: ReaderView,
}

/// A count of `n` after `more` more, which stops at the greatest number that
/// 64 bits hold.
pub open spec fn counted(n: u64, more: int) -> u64 {
    if n + more <= u64::MAX {
        (n + more) as u64
    } else {
        u64::MAX
    }
}

/// The block `entry` as the cache holds it once it is decoded.
pub open spec fn cached(image: Seq<u8>, entry: IndexEntry) -> CachedBlock {
    CachedBlock { pos: entry.key, data: block_bytes(image, entry.value) }
}

/// Whether `cache` holds nothing, or a block of `index` with its content.
pub open spec fn cache_holds_block(
    image: Seq<u8>,
    index: Seq<IndexEntry>,
    cache: Option<CachedBlock>,
) -> bool {
    cache matches Some(held) ==> exists|i: int|
        0 <= i < index.len() && (#[trigger] index[i]).key == held.pos && block_content(
            image,
            index[i].value,
        ) == Some(held.data)
}

impl ReaderView {
    /// Whether this is a reader of its image: the image fits in memory, the
    /// index is the image's index, and what the cache holds is a block of
    /// the image.
    pub open spec fn wf(self) -> bool {
        &&& self.image.len() <= usize::MAX
        &&& self.index == index_of(self.image)
        &&& cache_holds_block(self.image, self.index, self.cache)
    }

    /// The length of the logical stream.
    pub open spec fn total(self) -> int {
        total_length(self.index)
    }

    /// The logical stream.
    pub open spec fn stream(self) -> Seq<u8> {
        stream_of(self.image, self.index)
    }

    /// The reader after a seek to `pos`.
    pub open spec fn seek(self, pos: u64) -> ReaderView {
        ReaderView { pos, ..self }
    }

    /// How many bytes of a read of `len` bytes come from the cache.
    pub open spec fn cache_hit(self, len: int) -> int {
        let held = cached_from(self.cache, self.pos as int);
        if held < len {
            held
        } else {
            len
        }
    }

    /// What a read of `len` bytes does.
    ///
    /// A read of no bytes copies none and changes nothing. At or beyond the
    /// end of the stream a read reports the end and changes nothing.
    /// Otherwise it takes what the cache has at the position. If bytes are
    /// still wanted, it decodes the blocks that cover them, in ascending
    /// order. Where all of them decode, it delivers the stream from the
    /// position on, `len` bytes or as many as the stream has left, and leaves
    /// the last of these blocks in the cache. Where one does not decode, it
    /// fails; it has then delivered the stream up to that block, stands at
    /// that block's start, and the cache holds the block before it.
    pub open spec fn read(self, len: usize) -> ReadStep {
        let hit = self.cache_hit(len as int);
        let resumed = self.pos + hit;
        let needed = resolve_of(self.index, resumed, len - hit);
        let good = decodable_prefix(self.image, needed);
        if len == 0 {
            ReadStep {
                outcome: Ok(ReadOutcome::Copied(0)),
                delivered: Seq::empty(),
                after: self,
            }
        } else if self.pos >= self.total() {
            ReadStep {
                outcome: Ok(ReadOutcome::EndOfStream),
                delivered: Seq::empty(),
                after: self,
            }
        } else if hit == len {
            ReadStep {
                outcome: Ok(ReadOutcome::Copied(len)),
                delivered: self.stream().subrange(self.pos as int, resumed),
                after: ReaderView { pos: resumed as u64, ..self },
            }
        } else if good == needed.len() {
            let end = if self.pos + len < self.total() {
                self.pos + len
            } else {
                self.total()
            };
            ReadStep {
                outcome: Ok(ReadOutcome::Copied((end - self.pos) as usize)),
                delivered: self.stream().subrange(self.pos as int, end),
                after: ReaderView {
                    pos: end as u64,
                    cache: Some(cached(self.image, needed.last())),
                    decompressions: counted(self.decompressions, good),
                    ..self
                },
            }
        } else {
            let stop = if good == 0 {
                resumed
            } else {
                needed[good].key as int
            };
            ReadStep {
                outcome: Err(Error::NotFullyDecompressed),
                delivered: self.stream().subrange(self.pos as int, stop),
                after: ReaderView {
                    pos: stop as u64,
                    cache: if good == 0 {
                        self.cache
                    } else {
                        Some(cached(self.image, needed[good - 1]))
                    },
                    decompressions: counted(self.decompressions, good + 1),
                    ..self
                },
            }
        }
    }
}

/// Where a read stands once it has taken the first `done` of the blocks
/// `needed`: at `resumed` before the first, and then at the end of the block
/// taken last, or at the read's end `goal` if that comes first.
spec fn reached(needed: Seq<IndexEntry>, done: int, resumed: int, goal: int) -> int {
    if done == 0 {
        resumed
    } else {
        let end = needed[done - 1].key + needed[done - 1].value.input_length;
        if end < goal {
            end
        } else {
            goal
        }
    }
}

/// A reader of BGZF data.
///
/// It owns the bytes of the file, the index of its blocks, the cache of the
/// block decoded last and the position in the logical stream.
pub struct BgzfReader {
    bgzf_file: Vec<u8>,
    block_tree: BlockIndex,
    cache: BlockCache,
    input_length: u64,
    current_read_position: u64,
    pos: u64,
    decompressions: u64,
}

impl View for BgzfReader {
    type V = ReaderView;

    closed spec fn view(&self) -> ReaderView {
        ReaderView {
            image: self.bgzf_file@,
            index: self.block_tree@,
            cache: self.cache@,
            pos: self.pos,
            decompressions: self.decompressions,
        }
    }
}

impl BgzfReader {
    /// What holds of every reader: it is a reader of its image, and it
    /// knows the length of the stream.
    #[verifier::type_invariant]
    closed spec fn inv(&self) -> bool {
        &&& self@.wf()
        &&& self.input_length == self@.total()
        &&& self.current_read_position == 0
    }

    /// A reader of the file whose bytes are `data`, at position 0 and with
    /// an empty cache.
    ///
    /// The blocks are indexed from file offset 0 to the terminal block, or
    /// to the first offset at which no block parses: what follows is left
    /// out without an error. Only where no block parses at offset 0 is there
    /// no reader; the error is the one of that block.
    pub fn new(data: Vec<u8>) -> (r: Result<BgzfReader, Error>)
        ensures
            match r {
                Ok(reader) => {
                    &&& parse_block(data@, 0) is Ok
                    &&& reader@ == ReaderView {
                        image: data@,
                        index: index_of(data@),
                        cache: None,
                        pos: 0,
                        decompressions: 0,
                    }
                    &&& reader@.wf()
                },
                Err(e) => parse_block(data@, 0) == Err::<Option<BgzfBlock>, Error>(e),
            },
    {
        let block_tree = match BlockIndex::build(&data) {
            Ok(index) => index,
            Err(e) => { return Err(e); },
        };
        let input_length = block_tree.total();
        assert(data@.len() == data.len());
        Ok(
            BgzfReader {
                bgzf_file: data,
                block_tree,
                cache: BlockCache::new(),
                input_length,
                current_read_position: 0,
                pos: 0,
                decompressions: 0,
            },
        )
    }

    /// Sets the position in the logical stream. Any position is taken; one
    /// beyond the end shows at the next read.
    pub fn seek(&mut self, pos: u64)
        ensures
            final(self)@ == old(self)@.seek(pos),
    {
        proof {
            use_type_invariant(&*self);
        }
        self.pos = pos;
    }

    /// The length of the logical stream: the sum of the uncompressed
    /// lengths of all indexed blocks.
    pub fn total_uncompressed_length(&self) -> (n: u64)
        ensures
            n == total_length(self@.index),
            n == self@.stream().len(),
    {
        proof {
            use_type_invariant(self);
            lemma_stream_length(self@.image, self@.index);
        }
        self.input_length
    }

    /// The position in the logical stream.
    pub fn pos(&self) -> (pos: u64)
        ensures
            pos == self@.pos,
    {
        self.pos
    }

    /// The position in the compressed file, which no operation moves.
    pub fn current_read_position(&self) -> (pos: u64)
        ensures
            pos == 0,
    {
        proof {
            use_type_invariant(self);
        }
        self.current_read_position
    }

    /// The index of the file's blocks.
    pub fn block_tree(&self) -> (index: &BlockIndex)
        ensures
            index@ == self@.index,
    {
        &self.block_tree
    }

    /// How often the decompressor has been run since the reader was made;
    /// the count stops at the greatest number that 64 bits hold.
    pub fn decompressions(&self) -> (n: u64)
        ensures
            n == self@.decompressions,
    {
        self.decompressions
    }

    /// Reads into the whole of `b`: `read(b, 0, b.len())`.
    pub fn read_to(&mut self, b: &mut Vec<u8>) -> (r: Result<ReadOutcome, Error>)
        ensures
            old(b)@.len() == 0 ==> r == Ok::<ReadOutcome, Error>(ReadOutcome::Copied(0))
                && final(self)@ == old(self)@ && final(b)@ == old(b)@,
            old(b)@.len() > 0 ==> {
                let step = old(self)@.read(old(b)@.len() as usize);
                &&& r == step.outcome
                &&& final(self)@ == step.after
                &&& final(b)@ == splice(old(b)@, 0, step.delivered)
            },
    {
        let len = b.len();
        self.read(b, 0, len)
    }

    /// Copies up to `len` bytes of the logical stream, from the position
    /// on, into `b` from `off` on, and moves the position behind them.
    ///
    /// A read of no bytes returns `Copied(0)`. A read that does not fit `b`
    /// fails: with `EmptyBuffer` where `b` is empty, else with
    /// `IndexOutOfBound`. In both cases nothing changes. Any other read does
    /// what [`ReaderView::read`] says: it reports the end of the stream, or
    /// copies bytes, or fails on a block that does not decode; in that last
    /// case only the error is returned, and the position tells how far the
    /// read came.
    pub fn read(&mut self, b: &mut Vec<u8>, off: usize, len: usize) -> (r: Result<
        ReadOutcome,
        Error,
    >)
        ensures
            final(b)@.len() == old(b)@.len(),
            len == 0 ==> r == Ok::<ReadOutcome, Error>(ReadOutcome::Copied(0)) && final(self)@
                == old(self)@ && final(b)@ == old(b)@,
            len > 0 && old(b)@.len() == 0 ==> r == Err::<ReadOutcome, Error>(Error::EmptyBuffer)
                && final(self)@ == old(self)@ && final(b)@ == old(b)@,
            len > 0 && 0 < old(b)@.len() < off + len ==> r == Err::<ReadOutcome, Error>(
                Error::IndexOutOfBound,
            ) && final(self)@ == old(self)@ && final(b)@ == old(b)@,
            len > 0 && off + len <= old(b)@.len() ==> {
                let step = old(self)@.read(len);
                &&& r == step.outcome
                &&& final(self)@ == step.after
                &&& final(b)@ == splice(old(b)@, off as int, step.delivered)
            },
            len > 0 && off + len <= old(b)@.len() && old(self)@.pos >= old(self)@.total() ==> r
                == Ok::<ReadOutcome, Error>(ReadOutcome::EndOfStream) && final(self)@ == old(
                self,
            )@ && final(b)@ == old(b)@,
    {
        if len == 0 {
            return Ok(ReadOutcome::Copied(0));
        }
        if b.len() == 0 {
            return Err(Error::EmptyBuffer);
        }
        if off > b.len() || len > b.len() - off {
            return Err(Error::IndexOutOfBound);
        }
        proof {
            use_type_invariant(&*self);
            lemma_stream_length(self@.image, self@.index);
        }
        if self.pos >= self.input_length {
            assert(splice(b@, off as int, Seq::<u8>::empty()) =~= b@);
            return Ok(ReadOutcome::EndOfStream);
        }
        let ghost before = self@;
        let ghost stream = before.stream();
        let ghost buffer = b@;

        let from_cache = self.read_cached(b, off, len);
        if from_cache == len {
            return Ok(ReadOutcome::Copied(from_cache));
        }
        let ghost resumed = self@.pos as int;
        let decoded = self.read_blocks(b, off + from_cache, len - from_cache);
        proof {
            let stop = self@.pos as int;
            lemma_needed_some(before, resumed, len - from_cache);
            lemma_splice_next(buffer, off as int, stream, before.pos as int, resumed, stop);
        }
        match decoded {
            Ok(from_blocks) => Ok(ReadOutcome::Copied(from_cache + from_blocks)),
            Err(e) => Err(e),
        }
    }

    /// The first part of a read: copies what the cache has at the position,
    /// at most `len` bytes, into `b` from `off` on, and moves the position
    /// behind it. Returns the number of bytes copied.
    fn read_cached(&mut self, b: &mut Vec<u8>, off: usize, len: usize) -> (copied: usize)
        requires
            0 < len,
            off + len <= old(b)@.len(),
            old(self)@.pos < old(self)@.total(),
        ensures
            final(b)@.len() == old(b)@.len(),
            copied == old(self)@.cache_hit(len as int),
            final(self)@ == (ReaderView { pos: (old(self)@.pos + copied) as u64, ..old(self)@ }),
            final(b)@ == splice(
                old(b)@,
                off as int,
                old(self)@.stream().subrange(old(self)@.pos as int, old(self)@.pos + copied),
            ),
            old(self)@.pos + copied <= old(self)@.total() || copied == 0,
    {
        proof {
            use_type_invariant(&*self);
            lemma_cache_hit(self@, len as int);
        }
        match self.cache.get(self.pos, len) {
            Some(bytes) => {
                let copy_length = bytes.len();
                copy_into(b, off, bytes);
                self.pos = self.pos + copy_length as u64;
                copy_length
            },
            None => {
                assert(splice(b@, off as int, Seq::<u8>::empty()) =~= b@);
                assert(self@.stream().subrange(self@.pos as int, self@.pos as int) =~= Seq::<
                    u8,
                >::empty());
                0
            },
        }
    }

    /// The second part of a read: decodes the blocks that hold the `len`
    /// bytes from the position on, one after the other, and copies these
    /// bytes into `b` from `off` on. Each block decoded replaces what the
    /// cache holds. Returns the number of bytes copied, or the error of the
    /// first block that does not decode; the position then stands at that
    /// block.
    fn read_blocks(&mut self, b: &mut Vec<u8>, off: usize, len: usize) -> (r: Result<
        usize,
        Error,
    >)
        requires
            0 < len,
            off + len <= old(b)@.len(),
            old(self)@.pos <= old(self)@.total(),
            0 < old(self)@.total(),
        ensures
            ({
                let v = old(self)@;
                let needed = resolve_of(v.index, v.pos as int, len as int);
                let good = decodable_prefix(v.image, needed);
                let stop = if good == needed.len() {
                    if v.pos + len < v.total() {
                        v.pos + len
                    } else {
                        v.total()
                    }
                } else if good == 0 {
                    v.pos as int
                } else {
                    needed[good].key as int
                };
                &&& final(b)@.len() == old(b)@.len()
                &&& v.pos <= stop <= v.total()
                &&& r == if good == needed.len() {
                    Ok::<usize, Error>((stop - v.pos) as usize)
                } else {
                    Err::<usize, Error>(Error::NotFullyDecompressed)
                }
                &&& final(b)@ == splice(
                    old(b)@,
                    off as int,
                    v.stream().subrange(v.pos as int, stop),
                )
                &&& final(self)@ == ReaderView {
                    pos: stop as u64,
                    cache: if good == 0 {
                        v.cache
                    } else {
                        Some(cached(v.image, needed[good - 1]))
                    },
                    decompressions: counted(
                        v.decompressions,
                        if good == needed.len() {
                            good
                        } else {
                            good + 1
                        },
                    ),
                    ..v
                }
            }),
    {
        proof {
            use_type_invariant(&*self);
            lemma_cache_hit(self@, len as int);
        }
        let ghost before = self@;
        let ghost stream = before.stream();
        let ghost buffer = b@;
        let ghost resumed = before.pos as int;
        let ghost goal = before.pos + len;
        assert(buffer.len() == b.len());
        assert(splice(b@, off as int, Seq::<u8>::empty()) =~= b@);
        assert(stream.subrange(resumed, resumed) =~= Seq::<u8>::empty());

        let mut cursor = off;
        let mut wanted = len;
        let mut cb: usize = 0;
        let mut un_compressor = Decompressor::new();
        let entry_vector = self.block_tree.resolve(self.pos, wanted);
        let ghost needed = entry_vector@;
        proof {
            lemma_needed_some(before, resumed, len as int);
        }

        let mut failure: Option<Error> = None;
        let mut i: usize = 0;
        while i < entry_vector.len()
            invariant_except_break
                failure is None,
            invariant
                buffer.len() <= usize::MAX,
                before.wf(),
                0 < before.total(),
                stream == before.stream(),
                stream.len() == before.total(),
                resumed == before.pos,
                resumed <= self@.pos <= before.total(),
                goal == resumed + len,
                needed == entry_vector@,
                needed == resolve_of(before.index, resumed, len as int),
                0 <= i <= needed.len(),
                0 < needed.len(),
                off + len <= buffer.len(),
                b@.len() == buffer.len(),
                self@.image == before.image,
                self@.index == before.index,
                forall|j: int|
                    0 <= j < i ==> block_content(before.image, (#[trigger] needed[j]).value) is Some,
                self@.pos == reached(needed, i as int, resumed, goal),
                i < needed.len() ==> self@.pos < goal,
                wanted == goal - self@.pos,
                cursor == off + (self@.pos - resumed),
                cb == self@.pos - resumed,
                b@ == splice(buffer, off as int, stream.subrange(resumed, self@.pos as int)),
                self@.cache == if i == 0 {
                    before.cache
                } else {
                    Some(cached(before.image, needed[i - 1]))
                },
                self@.decompressions == counted(
                    before.decompressions,
                    if failure is Some {
                        i + 1
                    } else {
                        i as int
                    },
                ),
                failure is Some ==> i < needed.len() && failure == Some(Error::NotFullyDecompressed)
                    && block_content(before.image, needed[i as int].value) is None,
            ensures
                failure is None ==> i == needed.len(),
            decreases entry_vector.len() - i,
        {
            proof {
                use_type_invariant(&*self);
                lemma_needed_at(before, resumed, len as int, i as int);
            }
            let entry = entry_vector[i];
            let block = entry.value;
            let input_offset = entry.key;
            let ghost here = self@.pos as int;
            assert(input_offset <= here <= input_offset + block.input_length);

            if self.decompressions < u64::MAX {
                self.decompressions = self.decompressions + 1;
            }
            let uncompressed = match decode_block(&self.bgzf_file, &block, &mut un_compressor) {
                Ok(bytes) => bytes,
                Err(e) => {
                    failure = Some(e);
                    break ;
                },
            };
            assert(uncompressed@ == block_bytes(before.image, block));

            let (copy_start, copy_length) = copy_window(
                input_offset,
                block.input_length,
                self.pos,
                wanted,
            );
            let end_index = copy_start + copy_length;
            copy_into(b, cursor, slice_subrange(uncompressed.as_slice(), copy_start, end_index));
            proof {
                lemma_block_stretch(
                    stream,
                    uncompressed@,
                    input_offset as int,
                    here,
                    here + copy_length,
                );
                lemma_splice_next(buffer, off as int, stream, resumed, here, here + copy_length);
                if i + 1 < needed.len() {
                    lemma_needed_at(before, resumed, len as int, i + 1);
                }
            }
            self.cache.put(input_offset, uncompressed);
            wanted = wanted - copy_length;
            self.pos = self.pos + copy_length as u64;
            cursor = cursor + copy_length;
            cb = cb + copy_length;
            i = i + 1;
        }
        proof {
            lemma_needed_at(before, resumed, len as int, 0);
            lemma_needed_at(before, resumed, len as int, needed.len() - 1);
            lemma_decodable_prefix(before.image, needed, i as int);
            if 0 < i < needed.len() {
                lemma_needed_at(before, resumed, len as int, i as int);
            }
        }
        match failure {
            Some(e) => Err(e),
            None => Ok(cb),
        }
    }
}

} // verus!
