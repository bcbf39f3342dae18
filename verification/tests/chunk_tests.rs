use devimage::chunk::{Chunk, ChunkType};
use devimage::error::Error;

#[test]
fn try_from() -> Result<(), Error> {
    // dd mode
    let bytes = vec![0xFF; 10];
    let chunk = Chunk::try_from((bytes.as_slice(), true, false))?;

    assert_eq!(chunk.chunk_type, ChunkType::Direct);
    assert!(chunk.hash.is_none());
    assert!(chunk.len.is_none());
    assert_eq!(chunk.data, bytes);

    // compressed mode
    let bytes = b"hello world".to_vec();
    let chunk = Chunk::try_from((bytes.as_slice(), false, true))?;

    assert_eq!(chunk.chunk_type, ChunkType::Compressed);
    assert_eq!(
        chunk.hash.unwrap(),
        196948728345034857295869450085786825685u128
    );
    assert_eq!(chunk.len.unwrap(), 12);
    assert_eq!(
        chunk.data,
        vec![
            0xb0, 0x68, 0x65, 0x6c, 0x6c, 0x6f, 0x20, 0x77, 0x6f, 0x72, 0x6c, 0x64
        ]
    );

    Ok(())
}
