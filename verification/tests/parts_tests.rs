use bgzf_rust_reader::block::{read_block, BgzfBlock};
use bgzf_rust_reader::cache::BlockCache;
use bgzf_rust_reader::error::{BGZFError, Error, ErrorKind};
use bgzf_rust_reader::index::{BlockIndex, IndexEntry};
use bgzf_rust_reader::inflate::check_decompressed;
use bgzf_rust_reader::window::{copy_into, copy_window};
use libdeflater::{CompressionLvl, Compressor};

fn compressed(data: &[u8]) -> Vec<u8> {
    let mut compressor = Compressor::new(CompressionLvl::default());
    let mut out = vec![0u8; compressor.deflate_compress_bound(data.len())];
    let n = compressor.deflate_compress(data, &mut out).unwrap();
    out.truncate(n);
    out
}

/// A block with an extra field of `extra` and the given payload, block size
/// field and declared length.
fn raw_block(extra: &[u8], payload: &[u8], isize: u32) -> Vec<u8> {
    let mut block = vec![31, 139, 8, 4, 0, 0, 0, 0, 0, 255];
    block.extend_from_slice(&(extra.len() as u16).to_le_bytes());
    block.extend_from_slice(extra);
    block.extend_from_slice(payload);
    block.extend_from_slice(&[0, 0, 0, 0]);
    block.extend_from_slice(&isize.to_le_bytes());
    block
}

/// The `BC` subfield that announces a block of `size` bytes.
fn subfield(size: usize) -> Vec<u8> {
    let mut extra = vec![66, 67, 2, 0];
    extra.extend_from_slice(&((size - 1) as u16).to_le_bytes());
    extra
}

fn data_block(data: &[u8]) -> Vec<u8> {
    let payload = compressed(data);
    raw_block(&subfield(payload.len() + 26), &payload, data.len() as u32)
}

fn end_block() -> Vec<u8> {
    raw_block(&subfield(28), &[3, 0], 0)
}

fn zeros(n: usize) -> Vec<u8> {
    vec![0u8; n]
}

/// Blocks of 10, 20, 30 and 40 zero bytes, and the terminal block.
fn four_blocks() -> Vec<u8> {
    let mut file = Vec::new();
    for n in [10usize, 20, 30, 40] {
        file.extend_from_slice(&data_block(&zeros(n)));
    }
    file.extend_from_slice(&end_block());
    file
}

fn keys(entries: &[IndexEntry]) -> Vec<u64> {
    entries.iter().map(|e| e.key).collect()
}

#[test]
fn read_block_gives_the_descriptor() {
    let payload = compressed(&zeros(1000));
    let file = data_block(&zeros(1000));
    let block = read_block(&file, 0).unwrap().unwrap();
    assert_eq!(
        block,
        BgzfBlock {
            data_offset: 18,
            data_length: payload.len() as u32,
            input_length: 1000,
            block_size: payload.len() as u32 + 26,
        }
    );
}

#[test]
fn read_block_data_length_is_block_size_less_extra_less_frame() {
    // BSIZE 60 and XLEN 6: 60 - 6 - 19 = 35 bytes of payload.
    let file = raw_block(&subfield(61), &zeros(35), 7);
    let block = read_block(&file, 0).unwrap().unwrap();
    assert_eq!(block.data_length, 35);
    assert_eq!(block.data_offset, 18);
    assert_eq!(block.block_size, 61);
    assert_eq!(block.input_length, 7);
}

#[test]
fn read_block_reads_numbers_low_byte_first() {
    // BSIZE 0x0213 = 531, ISIZE 0x04030201.
    let file = raw_block(&[66, 67, 2, 0, 0x13, 0x02], &zeros(531 - 6 - 19), 0x04030201);
    let block = read_block(&file, 0).unwrap().unwrap();
    assert_eq!(block.block_size, 532);
    assert_eq!(block.data_length, 506);
    assert_eq!(block.input_length, 67305985);
}

#[test]
fn read_block_with_a_longer_extra_field() {
    // The subfield comes first in an extra field of 10 bytes.
    let mut extra = subfield(12 + 10 + 5 + 8);
    extra.extend_from_slice(&[1, 2, 3, 4]);
    let file = raw_block(&extra, &zeros(5), 9);
    let block = read_block(&file, 0).unwrap().unwrap();
    assert_eq!(block.data_offset, 22);
    assert_eq!(block.data_length, 5);
    assert_eq!(block.block_size, 35);
}

#[test]
fn read_block_at_a_later_offset() {
    let mut file = data_block(&zeros(10));
    let first = file.len() as u64;
    file.extend_from_slice(&data_block(&zeros(20)));
    let block = read_block(&file, first).unwrap().unwrap();
    assert_eq!(block.data_offset, first + 18);
    assert_eq!(block.input_length, 20);
    assert_eq!(first + block.block_size as u64, file.len() as u64);
}

#[test]
fn read_block_terminal_block_is_none() {
    assert_eq!(read_block(&end_block(), 0), Ok(None));
    assert_eq!(end_block().len(), 28);
}

#[test]
fn read_block_incorrect_header() {
    for at in 0..4 {
        let mut file = data_block(&zeros(10));
        file[at] = file[at].wrapping_add(1);
        assert_eq!(read_block(&file, 0), Err(Error::IncorrectHeader));
    }
    assert_eq!(Error::IncorrectHeader.kind(), ErrorKind::Format);
}

#[test]
fn read_block_bad_subfield_identifier() {
    let mut file = data_block(&zeros(10));
    file[13] = 66;
    assert_eq!(read_block(&file, 0), Err(Error::BadSubfieldIdentifier));
    let mut file = data_block(&zeros(10));
    file[12] = 0;
    assert_eq!(read_block(&file, 0), Err(Error::BadSubfieldIdentifier));
    assert_eq!(read_block(&raw_block(&[], &zeros(5), 9), 0), Err(Error::BadSubfieldIdentifier));
    assert_eq!(read_block(&raw_block(&[66], &zeros(5), 9), 0), Err(Error::BadSubfieldIdentifier));
    assert_eq!(Error::BadSubfieldIdentifier.kind(), ErrorKind::Format);
}

#[test]
fn read_block_bad_subfield_length() {
    let mut file = data_block(&zeros(10));
    file[14] = 3;
    assert_eq!(read_block(&file, 0), Err(Error::BadSubfieldLength));
    let mut file = data_block(&zeros(10));
    file[15] = 1;
    assert_eq!(read_block(&file, 0), Err(Error::BadSubfieldLength));
    assert_eq!(read_block(&raw_block(&[66, 67], &zeros(5), 9), 0), Err(Error::BadSubfieldLength));
    assert_eq!(
        read_block(&raw_block(&[66, 67, 2, 0, 40], &zeros(5), 9), 0),
        Err(Error::BadSubfieldLength)
    );
    assert_eq!(Error::BadSubfieldLength.kind(), ErrorKind::Format);
}

#[test]
fn read_block_bad_block_size() {
    // BSIZE 24 with XLEN 6 would leave -1 bytes of payload.
    assert_eq!(
        read_block(&raw_block(&[66, 67, 2, 0, 24, 0], &zeros(30), 9), 0),
        Err(Error::BadBlockSize)
    );
    assert_eq!(
        read_block(&raw_block(&[66, 67, 2, 0, 0, 0], &zeros(30), 9), 0),
        Err(Error::BadBlockSize)
    );
    // BSIZE 25 leaves none, which is a block.
    assert_eq!(
        read_block(&raw_block(&[66, 67, 2, 0, 25, 0], &[], 9), 0),
        Ok(Some(BgzfBlock { data_offset: 18, data_length: 0, input_length: 9, block_size: 26 }))
    );
    assert_eq!(Error::BadBlockSize.kind(), ErrorKind::Format);
}

#[test]
fn read_block_unexpected_eof() {
    let file = data_block(&zeros(10));
    for cut in [0usize, 1, 11, 12, 17, 18, file.len() - 4, file.len() - 1] {
        assert_eq!(read_block(&file[..cut].to_vec(), 0), Err(Error::UnexpectedEof));
    }
    assert_eq!(read_block(&file, file.len() as u64), Err(Error::UnexpectedEof));
    assert_eq!(read_block(&file, 1), Err(Error::IncorrectHeader));
    assert_eq!(read_block(&file, u64::MAX), Err(Error::UnexpectedEof));
    assert_eq!(read_block(&file, u64::MAX - 11), Err(Error::UnexpectedEof));
    assert_eq!(Error::UnexpectedEof.kind(), ErrorKind::Io);
}

#[test]
fn read_block_truncation_comes_before_a_bad_header() {
    assert_eq!(read_block(&vec![1, 2, 3, 4, 5, 6, 7, 8, 9, 10, 11], 0), Err(Error::UnexpectedEof));
    assert_eq!(
        read_block(&vec![1, 2, 3, 4, 5, 6, 7, 8, 9, 10, 11, 12], 0),
        Err(Error::IncorrectHeader)
    );
}

#[test]
fn index_build_keys_are_running_sums() {
    let index = BlockIndex::build(&four_blocks()).unwrap();
    assert_eq!(index.len(), 4);
    assert_eq!(index.total(), 100);
    assert_eq!(keys(&index.range(0, u64::MAX)), vec![0, 10, 30, 60]);
    let lengths: Vec<u32> = index.range(0, 100).iter().map(|e| e.value.input_length).collect();
    assert_eq!(lengths, vec![10, 20, 30, 40]);
}

#[test]
fn index_build_fails_on_the_first_block_only() {
    assert_eq!(BlockIndex::build(&Vec::new()).err(), Some(Error::UnexpectedEof));
    assert_eq!(BlockIndex::build(&zeros(40)).err(), Some(Error::IncorrectHeader));
    let mut file = data_block(&zeros(10));
    file.extend_from_slice(&zeros(40));
    let index = BlockIndex::build(&file).unwrap();
    assert_eq!(index.len(), 1);
    assert_eq!(index.total(), 10);
    let index = BlockIndex::build(&end_block()).unwrap();
    assert_eq!(index.len(), 0);
    assert_eq!(index.total(), 0);
}

#[test]
fn index_floor_is_the_block_at_or_before() {
    let index = BlockIndex::build(&four_blocks()).unwrap();
    assert_eq!(index.floor(0).map(|e| e.key), Some(0));
    assert_eq!(index.floor(9).map(|e| e.key), Some(0));
    assert_eq!(index.floor(10).map(|e| e.key), Some(10));
    assert_eq!(index.floor(29).map(|e| e.key), Some(10));
    assert_eq!(index.floor(30).map(|e| e.key), Some(30));
    assert_eq!(index.floor(59).map(|e| e.key), Some(30));
    assert_eq!(index.floor(60).map(|e| e.key), Some(60));
    assert_eq!(index.floor(100).map(|e| e.key), Some(60));
    assert_eq!(index.floor(u64::MAX).map(|e| e.key), Some(60));
    assert_eq!(index.floor(29).map(|e| e.value.input_length), Some(20));
    let empty = BlockIndex::build(&end_block()).unwrap();
    assert_eq!(empty.floor(0), None);
    assert_eq!(empty.floor(u64::MAX), None);
}

#[test]
fn index_contains_exact_keys_only() {
    let index = BlockIndex::build(&four_blocks()).unwrap();
    for key in [0u64, 10, 30, 60] {
        assert!(index.contains(key));
        assert_eq!(index.get(key).map(|b| b.input_length as u64 + key), index.floor(key + 1).map(|e| e.key + e.value.input_length as u64));
    }
    for key in [1u64, 9, 11, 29, 31, 59, 61, 99, 100, u64::MAX] {
        assert!(!index.contains(key));
        assert_eq!(index.get(key), None);
    }
    assert_eq!(index.get(30).map(|b| b.input_length), Some(30));
}

#[test]
fn index_range_is_half_open() {
    let index = BlockIndex::build(&four_blocks()).unwrap();
    assert_eq!(keys(&index.range(0, 100)), vec![0, 10, 30, 60]);
    assert_eq!(keys(&index.range(0, 10)), vec![0]);
    assert_eq!(keys(&index.range(0, 11)), vec![0, 10]);
    assert_eq!(keys(&index.range(1, 10)), Vec::<u64>::new());
    assert_eq!(keys(&index.range(10, 30)), vec![10]);
    assert_eq!(keys(&index.range(10, 31)), vec![10, 30]);
    assert_eq!(keys(&index.range(11, 61)), vec![30, 60]);
    assert_eq!(keys(&index.range(61, u64::MAX)), Vec::<u64>::new());
    assert_eq!(keys(&index.range(30, 30)), Vec::<u64>::new());
    assert_eq!(keys(&index.range(60, 10)), Vec::<u64>::new());
    assert_eq!(keys(&index.range(0, 0)), Vec::<u64>::new());
}

#[test]
fn index_resolve_covers_the_read() {
    let index = BlockIndex::build(&four_blocks()).unwrap();
    assert_eq!(keys(&index.resolve(0, 1)), vec![0]);
    assert_eq!(keys(&index.resolve(0, 10)), vec![0]);
    assert_eq!(keys(&index.resolve(0, 11)), vec![0, 10]);
    assert_eq!(keys(&index.resolve(5, 5)), vec![0]);
    assert_eq!(keys(&index.resolve(5, 6)), vec![0, 10]);
    assert_eq!(keys(&index.resolve(9, 100)), vec![0, 10, 30, 60]);
    assert_eq!(keys(&index.resolve(10, 20)), vec![10]);
    assert_eq!(keys(&index.resolve(29, 2)), vec![10, 30]);
    assert_eq!(keys(&index.resolve(30, usize::MAX)), vec![30, 60]);
    assert_eq!(keys(&index.resolve(99, 1)), vec![60]);
    assert_eq!(keys(&index.resolve(100, 5)), vec![60]);
    assert_eq!(keys(&index.resolve(u64::MAX, usize::MAX)), vec![60]);
}

#[test]
fn cache_starts_empty() {
    let cache = BlockCache::new();
    assert_eq!(cache.get(0, 10), None);
    assert_eq!(cache.get(0, 0), None);
}

#[test]
fn cache_get_gives_what_is_left_of_the_block() {
    let mut cache = BlockCache::new();
    cache.put(100, vec![1, 2, 3, 4, 5]);
    assert_eq!(cache.get(100, 10), Some(&[1u8, 2, 3, 4, 5][..]));
    assert_eq!(cache.get(100, 5), Some(&[1u8, 2, 3, 4, 5][..]));
    assert_eq!(cache.get(100, 2), Some(&[1u8, 2][..]));
    assert_eq!(cache.get(102, 2), Some(&[3u8, 4][..]));
    assert_eq!(cache.get(103, 9), Some(&[4u8, 5][..]));
    assert_eq!(cache.get(104, usize::MAX), Some(&[5u8][..]));
    assert_eq!(cache.get(104, 0), Some(&[][..]));
    assert_eq!(cache.get(105, 1), None);
    assert_eq!(cache.get(99, 1), None);
    assert_eq!(cache.get(0, 200), None);
    assert_eq!(cache.get(u64::MAX, 1), None);
}

#[test]
fn cache_put_replaces_the_block() {
    let mut cache = BlockCache::new();
    cache.put(100, vec![1, 2, 3, 4, 5]);
    cache.put(7, vec![8, 9]);
    assert_eq!(cache.get(100, 1), None);
    assert_eq!(cache.get(7, 5), Some(&[8u8, 9][..]));
    cache.put(0, Vec::new());
    assert_eq!(cache.get(0, 1), None);
    assert_eq!(cache.get(7, 1), None);
}

#[test]
fn copy_window_skips_and_clamps() {
    // A block of 100 bytes that starts at 1000.
    assert_eq!(copy_window(1000, 100, 1000, 100), (0, 100));
    assert_eq!(copy_window(1000, 100, 1000, 500), (0, 100));
    assert_eq!(copy_window(1000, 100, 1000, 30), (0, 30));
    assert_eq!(copy_window(1000, 100, 1040, 500), (40, 60));
    assert_eq!(copy_window(1000, 100, 1040, 60), (40, 60));
    assert_eq!(copy_window(1000, 100, 1040, 59), (40, 59));
    assert_eq!(copy_window(1000, 100, 1099, 5), (99, 1));
    assert_eq!(copy_window(1000, 100, 1100, 5), (100, 0));
    assert_eq!(copy_window(1000, 100, 5000, 5), (100, 0));
    assert_eq!(copy_window(1000, 100, 0, 5), (0, 5));
    assert_eq!(copy_window(1000, 100, 1040, 0), (40, 0));
    assert_eq!(copy_window(0, u32::MAX, u64::MAX, usize::MAX), (u32::MAX as usize, 0));
}

#[test]
fn copy_into_overwrites_from_the_offset() {
    let mut dst = vec![0u8, 1, 2, 3, 4, 5, 6, 7];
    copy_into(&mut dst, 2, &[20, 30, 40]);
    assert_eq!(dst, vec![0, 1, 20, 30, 40, 5, 6, 7]);
    copy_into(&mut dst, 0, &[9]);
    copy_into(&mut dst, 7, &[8]);
    assert_eq!(dst, vec![9, 1, 20, 30, 40, 5, 6, 8]);
    copy_into(&mut dst, 8, &[]);
    copy_into(&mut dst, 0, &[1, 1, 1, 1, 1, 1, 1, 1]);
    assert_eq!(dst, vec![1; 8]);
}

#[test]
fn check_decompressed_wants_the_declared_length() {
    assert_eq!(check_decompressed(Some(280), 280), Ok(()));
    assert_eq!(check_decompressed(Some(1), 1), Ok(()));
    assert_eq!(check_decompressed(Some(279), 280), Err(Error::NotFullyDecompressed));
    assert_eq!(check_decompressed(Some(281), 280), Err(Error::NotFullyDecompressed));
    assert_eq!(check_decompressed(Some(0), 280), Err(Error::NotFullyDecompressed));
    assert_eq!(check_decompressed(Some(0), 0), Err(Error::NotFullyDecompressed));
    assert_eq!(check_decompressed(None, 280), Err(Error::NotFullyDecompressed));
    assert_eq!(check_decompressed(None, 0), Err(Error::NotFullyDecompressed));
}

#[test]
fn errors_describe_themselves() {
    assert_eq!(Error::IncorrectHeader.describe().description(), "Incorrect header");
    assert_eq!(Error::BadSubfieldIdentifier.describe().description(), "Bad subfield Identifier");
    assert_eq!(Error::BadSubfieldLength.describe().description(), "Bad subfield Length");
    assert_eq!(Error::BadBlockSize.describe().description(), "Bad block size");
    assert_eq!(Error::UnexpectedEof.describe().description(), "failed to fill whole buffer");
    assert_eq!(Error::NotFullyDecompressed.describe().description(), "Did not fully de-compress");
    assert_eq!(
        Error::EmptyBuffer.describe().description(),
        "Buffer size needs to be greater than 0"
    );
    assert_eq!(Error::IndexOutOfBound.describe().description(), "Index out of bound exception");
}

#[test]
fn bgzf_error_keeps_its_message() {
    let error = BGZFError::new("Incorrect header");
    assert_eq!(error.description(), "Incorrect header");
    assert_eq!(BGZFError::new("").description(), "");
    assert!(format!("{:?}", error).contains("Incorrect header"));
}
