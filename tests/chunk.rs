use blockcopy::chunk::{chunk_count, Chunk};

#[test]
fn chunk_numbers_and_sizes() {
    assert_eq!(Chunk::offset_chunk_number(8192, 4096, 10000), 2);
    assert_eq!(Chunk::offset_chunk_size(8192, 4096, 10000), 1808);
    assert_eq!(Chunk::offset_chunk_size(4096, 4096, 10000), 4096);
    assert_eq!(Chunk { offset: 8192, data: vec![0; 1808] }.chunk_number(4096, 10000), 2);
}

#[test]
fn chunk_at_device_end() {
    assert_eq!(chunk_count(8192, 4096), 2);
    assert_eq!(chunk_count(1 << 20, 65536), 16);
    assert_eq!(Chunk::offset_chunk_size(4096, 4096, 8192), 4096);
    assert_eq!(Chunk { offset: 4096, data: vec![0; 4096] }.chunk_number(4096, 8192), 1);
    assert_eq!(chunk_count(8193, 4096), 3);
    assert_eq!(chunk_count(0, 4096), 0);
    assert_eq!(chunk_count(u64::MAX, 1), u64::MAX);
    assert_eq!(chunk_count(u64::MAX, 2), 1u64 << 63);
}
