use devimage::buffer::{is_zero, Buffer};
use devimage::chunk::{encode, encode_length, frame, Chunk, ChunkType, CHUNK_HEADER_LEN};
use devimage::error::Error;
use devimage::hash::zeroed_hash;

fn framed(len: u64, tag: u8, payload: &[u8]) -> Vec<u8> {
    let mut v = len.to_be_bytes().to_vec();
    v.push(tag);
    v.extend_from_slice(payload);
    v
}

#[test]
fn length_prefix_is_big_endian() {
    assert_eq!(
        encode_length(0x0102030405060708),
        vec![0x01, 0x02, 0x03, 0x04, 0x05, 0x06, 0x07, 0x08]
    );
    assert_eq!(encode_length(0), vec![0u8; 8]);
    assert_eq!(encode_length(4), vec![0, 0, 0, 0, 0, 0, 0, 4]);
    assert_eq!(encode_length(u64::MAX), vec![0xFF; 8]);
    assert_eq!(encode_length(300), 300u64.to_be_bytes().to_vec());
}

#[test]
fn chunk_type_tags() {
    assert_eq!(ChunkType::Zero.tag(), 0);
    assert_eq!(ChunkType::Raw.tag(), 1);
    assert_eq!(ChunkType::Compressed.tag(), 2);
    assert_eq!(ChunkType::Direct.tag(), 3);
    assert_eq!(ChunkType::default(), ChunkType::Raw);
}

#[test]
fn raw_block_is_framed() {
    let record = encode(&[0xFF, 0xFF, 0xFF, 0xFF], false, false).unwrap();
    assert_eq!(
        record,
        vec![0, 0, 0, 0, 0, 0, 0, 4, 1, 0xFF, 0xFF, 0xFF, 0xFF]
    );
}

#[test]
fn zero_block_has_no_payload() {
    let record = encode(&[0, 0, 0, 0], false, false).unwrap();
    assert_eq!(record, vec![0, 0, 0, 0, 0, 0, 0, 0, 0]);
    let big = vec![0u8; 32768];
    assert_eq!(encode(&big, false, false).unwrap(), vec![0u8; 9]);
}

#[test]
fn one_nonzero_byte_is_never_a_zero_chunk() {
    for at in 0..16usize {
        let mut block = vec![0u8; 16];
        block[at] = 1;
        let chunk = Chunk::try_from((block.as_slice(), false, false)).unwrap();
        assert_eq!(chunk.chunk_type, ChunkType::Raw);
        let record = encode(&block, false, false).unwrap();
        assert_eq!(record, framed(16, 1, &block));
    }
}

#[test]
fn empty_block_counts_as_zero() {
    let chunk = Chunk::try_from((&[][..], false, false)).unwrap();
    assert_eq!(chunk.chunk_type, ChunkType::Zero);
    assert_eq!(encode(&[], false, false).unwrap(), vec![0u8; 9]);
}

#[test]
fn direct_block_is_verbatim() {
    let block = vec![0u8, 1, 2, 3, 0, 0];
    assert_eq!(encode(&block, true, false).unwrap(), block);
    // direct mode wins over compression
    assert_eq!(encode(&block, true, true).unwrap(), block);
    let zeros = vec![0u8; 8];
    assert_eq!(encode(&zeros, true, false).unwrap(), zeros);
}

#[test]
fn compressed_block_is_framed_with_compressed_length() {
    let record = encode(b"hello world", false, true).unwrap();
    let payload = [
        0xb0, 0x68, 0x65, 0x6c, 0x6c, 0x6f, 0x20, 0x77, 0x6f, 0x72, 0x6c, 0x64,
    ];
    assert_eq!(record, framed(12, 2, &payload));
    // zeros are compressed too when compression is on
    let zeros = vec![0u8; 1024];
    let chunk = Chunk::try_from((zeros.as_slice(), false, true)).unwrap();
    assert_eq!(chunk.chunk_type, ChunkType::Compressed);
    assert!(chunk.bytes().len() < 1024);
    assert_eq!(
        lz4::block::decompress(chunk.bytes(), Some(1024)).unwrap(),
        zeros
    );
}

#[test]
fn encoding_is_repeatable() {
    let block: Vec<u8> = (0..=255u8).cycle().take(5000).collect();
    for (dd, compress) in [(false, false), (false, true), (true, false), (true, true)] {
        let first = encode(&block, dd, compress).unwrap();
        let second = encode(&block, dd, compress).unwrap();
        assert_eq!(first, second);
    }
}

#[test]
fn frame_by_type() {
    assert_eq!(frame(ChunkType::Direct, &[9, 8]), vec![9, 8]);
    assert_eq!(frame(ChunkType::Zero, &[]), vec![0u8; 9]);
    assert_eq!(frame(ChunkType::Raw, &[9, 8]), framed(2, 1, &[9, 8]));
    assert_eq!(frame(ChunkType::Compressed, &[7]), framed(1, 2, &[7]));
}

#[test]
fn chunk_fields_and_len() {
    let data = [1u8, 2, 3];
    let raw = Chunk::try_from((&data[..], false, false)).unwrap();
    assert_eq!(raw.chunk_type, ChunkType::Raw);
    assert_eq!(raw.len, Some(3));
    assert_eq!(raw.hash, Some(xxhash_rust::xxh3::xxh3_128(&data)));
    assert_eq!(raw.bytes(), &data[..]);
    assert_eq!(raw.len(), CHUNK_HEADER_LEN + 3);
    assert_eq!(raw.len(), 19);

    let direct = Chunk::try_from((&data[..], true, false)).unwrap();
    assert_eq!(direct.len(), 16);

    let zero = Chunk::try_from((&[0u8, 0][..], false, false)).unwrap();
    assert_eq!(zero.chunk_type, ChunkType::Zero);
    assert!(zero.hash.is_none());
    assert!(zero.len.is_none());
    assert!(zero.bytes().is_empty());
    assert_eq!(zero.len(), 16);

    let compressed = Chunk::try_from((&b"hello world"[..], false, true)).unwrap();
    assert_eq!(compressed.len(), 28);

    let owned = Chunk::framed(ChunkType::Compressed, vec![5, 6]);
    assert_eq!(owned.len, Some(2));
    assert_eq!(owned.hash, Some(xxhash_rust::xxh3::xxh3_128(&[5, 6])));
    assert_eq!(owned.record(false).unwrap(), framed(2, 2, &[5, 6]));
}

#[test]
fn record_refuses_mixed_modes() {
    let data = [1u8, 2, 3];
    let raw = Chunk::try_from((&data[..], false, false)).unwrap();
    assert_eq!(raw.record(true), Err(Error::MixedModes));
    assert_eq!(raw.record(false).unwrap(), framed(3, 1, &data));

    let zero = Chunk::try_from((&[0u8; 4][..], false, false)).unwrap();
    assert_eq!(zero.record(true), Err(Error::MixedModes));

    let compressed = Chunk::try_from((&data[..], false, true)).unwrap();
    assert_eq!(compressed.record(true), Err(Error::MixedModes));

    let direct = Chunk::try_from((&data[..], true, false)).unwrap();
    assert_eq!(direct.record(false), Err(Error::MixedModes));
    assert_eq!(direct.record(true).unwrap(), data.to_vec());
}

#[test]
fn error_messages() {
    assert_eq!(Error::MixedModes.message(), "dd mode is not possible");
    assert_eq!(Error::ExhaustedPool.message(), "buffer slot is not available");
    assert_eq!(Error::EncodeError.message(), "block could not be compressed");
    assert_eq!(
        Error::OrderingViolation.message(),
        "block positions are inconsistent"
    );
}

#[test]
fn zero_test() {
    assert!(is_zero(&[]));
    assert!(is_zero(&[0, 0, 0]));
    assert!(!is_zero(&[0, 0, 1]));
    assert!(!is_zero(&[1, 0, 0]));
    assert!(Buffer::from(vec![0u8; 100]).is_zero());
    assert!(!Buffer::from(vec![0u8, 7]).is_zero());
    assert!(Buffer::with_capacity(10).is_zero());
}

#[test]
fn buffer_round_trip() {
    let b = Buffer::with_capacity(16);
    assert!(b.as_slice().is_empty());
    let b = Buffer::from(vec![1u8, 2, 3]);
    assert_eq!(b.as_slice(), &[1u8, 2, 3][..]);
    assert_eq!(b.into_vec(), vec![1u8, 2, 3]);
}

#[test]
fn zeroed_hash_is_the_hash_of_zeros() {
    assert_eq!(zeroed_hash(4), xxhash_rust::xxh3::xxh3_128(&[0u8; 4]));
    assert_eq!(zeroed_hash(0), xxhash_rust::xxh3::xxh3_128(&[]));
    assert_eq!(
        zeroed_hash(32768),
        xxhash_rust::xxh3::xxh3_128(&vec![0u8; 32768])
    );
    assert_ne!(zeroed_hash(4), zeroed_hash(5));
}

#[test]
fn fingerprinted_block() {
    let data = [1u8, 2, 3, 4, 5];
    let chunk = devimage::block::Chunk::from(&data[..]);
    assert_eq!(chunk.hash, xxhash_rust::xxh3::xxh3_64(&data));
    assert_eq!(chunk.len, 5);
    assert_eq!(chunk.data, &data[..]);
    assert_eq!(chunk.len(), 21);
    assert_eq!(chunk.record(true), data.to_vec());
    let mut expected = chunk.hash.to_le_bytes().to_vec();
    expected.extend_from_slice(&5u64.to_le_bytes());
    expected.extend_from_slice(&data);
    assert_eq!(chunk.record(false), expected);
}
