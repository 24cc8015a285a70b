use blockcopy::checksums::{resolve_algorithm, Algorithm, ChecksumDiff, ChecksumError, ChunkSource, NullChecksums, SparseChecksums, StoragePolicy};
use blockcopy::chunk::Chunk;

#[test]
fn supported_algorithms() {
    assert_eq!(resolve_algorithm("sha256", 32), Ok(Algorithm::Sha256));
    assert_eq!(resolve_algorithm("sha256", 28), Ok(Algorithm::Sha224));
    assert_eq!(resolve_algorithm("sha512", 28), Ok(Algorithm::Sha512Trunc224));
    assert_eq!(resolve_algorithm("sha512", 32), Ok(Algorithm::Sha512Trunc256));
    assert_eq!(resolve_algorithm("sha512", 48), Ok(Algorithm::Sha384));
    assert_eq!(resolve_algorithm("sha512", 64), Ok(Algorithm::Sha512));
    assert_eq!(resolve_algorithm("blake2b", 1), Ok(Algorithm::Blake2b(1)));
    assert_eq!(resolve_algorithm("blake2b", 64), Ok(Algorithm::Blake2b(64)));
    assert_eq!(resolve_algorithm("blake2s", 32), Ok(Algorithm::Blake2s(32)));
}

#[test]
fn unsupported_algorithms() {
    assert_eq!(resolve_algorithm("sha256", 64), Err(ChecksumError::UnsupportedAlgorithm));
    assert_eq!(resolve_algorithm("blake2b", 0), Err(ChecksumError::UnsupportedAlgorithm));
    assert_eq!(resolve_algorithm("blake2b", 65), Err(ChecksumError::UnsupportedAlgorithm));
    assert_eq!(resolve_algorithm("blake2s", 33), Err(ChecksumError::UnsupportedAlgorithm));
    assert_eq!(resolve_algorithm("md5", 16), Err(ChecksumError::UnsupportedAlgorithm));
    assert!(SparseChecksums::new("crc", 4, 4096, 2, StoragePolicy::Full).is_err());
}

fn hex(b: &[u8]) -> String {
    b.iter().map(|x| format!("{:02x}", x)).collect()
}

#[test]
fn digests_match_known_values() {
    assert_eq!(hex(&Algorithm::Sha256.digest(b"abc")), "ba7816bf8f01cfea414140de5dae2223b00361a396177a9cb410ff61f20015ad");
    assert_eq!(hex(&Algorithm::Sha224.digest(b"abc")), "23097d223405d8228642a477bda255b32aadbce4bda0b3f7e36c9da7");
    assert_eq!(Algorithm::Sha384.digest(b"abc").len(), 48);
    assert_eq!(Algorithm::Sha512.digest(b"abc").len(), 64);
    assert_eq!(Algorithm::Sha512Trunc224.digest(b"abc").len(), 28);
    assert_eq!(Algorithm::Sha512Trunc256.digest(b"abc").len(), 32);
    assert_eq!(Algorithm::Blake2b(5).digest(b"abc").len(), 5);
    assert_eq!(Algorithm::Blake2s(32).digest(b"abc").len(), 32);
    assert_ne!(Algorithm::Blake2s(3).digest(b"abc"), b"abc".to_vec());
}

#[test]
fn record_transitions() {
    let mut ledger = SparseChecksums::new("sha256", 32, 4, 3, StoragePolicy::Full).unwrap();
    let chunk = Chunk { offset: 4, data: vec![1, 2, 3, 4] };
    assert_eq!(ledger.record_chunk(&chunk), ChecksumDiff::Replaced);
    assert_eq!(ledger.record_chunk(&chunk), ChecksumDiff::Unchanged);
    let changed = Chunk { offset: 4, data: vec![1, 2, 3, 5] };
    assert_eq!(ledger.record_chunk(&changed), ChecksumDiff::Replaced);
    let digest = Algorithm::Sha256.digest(&[9, 9, 9, 9]);
    ledger.merge_chunk(0, &digest);
    assert_eq!(ledger.record_chunk(&Chunk { offset: 0, data: vec![9, 9, 9, 9] }), ChecksumDiff::Touched);
    ledger.merge_chunk(2, &digest);
    assert_eq!(ledger.record_chunk(&Chunk { offset: 8, data: vec![0, 0, 0, 0] }), ChecksumDiff::Replaced);
    ledger.merge_chunk(99, &digest);
}

#[test]
fn merging_twice_changes_nothing() {
    let a = Algorithm::Sha256.digest(b"a");
    let b = Algorithm::Sha256.digest(b"b");
    let file = vec![Some(a.clone()), None, Some(b.clone())];
    let mut once = SparseChecksums::new("sha256", 32, 4, 3, StoragePolicy::Full).unwrap();
    once.merge_entries(&file);
    let mut twice = SparseChecksums::new("sha256", 32, 4, 3, StoragePolicy::Full).unwrap();
    twice.merge_entries(&file);
    twice.merge_entries(&file);
    assert_eq!(once.saved_entries(), twice.saved_entries());
    assert_eq!(once.saved_entries().unwrap(), file);
}

#[test]
fn saved_entries_follow_policy() {
    let h = Algorithm::Sha256.digest(b"h");
    let mut full = SparseChecksums::new("sha256", 32, 4, 3, StoragePolicy::Full).unwrap();
    full.merge_chunk(0, &h);
    full.record_chunk(&Chunk { offset: 8, data: vec![1; 4] });
    let saved = full.saved_entries().unwrap();
    assert_eq!(saved[0], Some(h.clone()));
    assert_eq!(saved[1], None);
    assert_eq!(saved[2], Some(Algorithm::Sha256.digest(&[1; 4])));
    let mut inc = SparseChecksums::new("sha256", 32, 4, 3, StoragePolicy::Incremental).unwrap();
    inc.merge_chunk(0, &h);
    assert_eq!(inc.saved_entries().unwrap(), vec![None, None, None]);
    let vol = SparseChecksums::new("sha256", 32, 4, 3, StoragePolicy::Volatile).unwrap();
    assert_eq!(vol.saved_entries(), None);
    assert_eq!(full.get_chunk_count(), 3);
    assert_eq!(full.get_checksum_size(), 32);
    assert_eq!(full.get_storage_policy(), StoragePolicy::Full);
    let _ = ChunkSource::Absent;
}

#[test]
fn null_checksums_always_replace() {
    let mut n = NullChecksums::new(0, 4096, 2);
    assert_eq!(n.record_chunk(&Chunk { offset: 0, data: vec![0; 4096] }), ChecksumDiff::Replaced);
    assert_eq!(n.get_chunk_count(), 2);
    assert_eq!(n.get_chunk_size(), 4096);
    assert_eq!(n.get_checksum_size(), 0);
}
