use blockcopy::backup::{plan_backup, check_format_policy, checksum_chain, write_gates, Backup, BackupError, HistoricChecksum, Ledger, StorageFormat, WriteGates};
use blockcopy::checksums::{Algorithm, ChecksumDiff, NullChecksums, SparseChecksums, StoragePolicy};
use blockcopy::chunk::Chunk;
use blockcopy::storage::{ChecksumStore, NullStorage, Storage};

struct Image {
    bytes: Vec<u8>,
    writes: usize,
    committed: bool,
}

impl Storage for Image {
    fn write_chunk(&mut self, chunk: &Chunk) -> Result<(), String> {
        let at = chunk.offset as usize;
        self.bytes[at..at + chunk.data.len()].copy_from_slice(&chunk.data);
        self.writes += 1;
        Ok(())
    }
    fn commit(&mut self) -> Result<(), String> {
        self.committed = true;
        Ok(())
    }
}

struct Kept(Vec<Option<Vec<u8>>>);

impl ChecksumStore for Kept {
    fn save(&mut self, entries: &Vec<Option<Vec<u8>>>) -> Result<(), String> {
        self.0 = entries.clone();
        Ok(())
    }
}

#[test]
fn gates_table() {
    assert_eq!(write_gates(StoragePolicy::Full, false), Ok(WriteGates { unchanged: true, touched: true, replaced: true }));
    assert_eq!(write_gates(StoragePolicy::Full, true), Ok(WriteGates { unchanged: false, touched: true, replaced: true }));
    assert_eq!(write_gates(StoragePolicy::Incremental, true), Ok(WriteGates { unchanged: false, touched: false, replaced: true }));
    assert_eq!(write_gates(StoragePolicy::Incremental, false), Err(BackupError::IncrementalWithoutTrust));
    assert_eq!(write_gates(StoragePolicy::Volatile, true), Ok(WriteGates { unchanged: false, touched: false, replaced: false }));
    let g = write_gates(StoragePolicy::Incremental, true).unwrap();
    assert!(g.allows(ChecksumDiff::Replaced));
    assert!(!g.allows(ChecksumDiff::Touched));
    assert!(!g.allows(ChecksumDiff::Unchanged));
}

#[test]
fn formats_and_policies() {
    assert!(check_format_policy(StorageFormat::Raw, StoragePolicy::Full).is_ok());
    assert_eq!(check_format_policy(StorageFormat::Raw, StoragePolicy::Incremental), Err(BackupError::FormatPolicyMismatch(StorageFormat::Raw, StoragePolicy::Incremental)));
    assert!(check_format_policy(StorageFormat::Sparse, StoragePolicy::Incremental).is_ok());
    assert!(check_format_policy(StorageFormat::Sparse, StoragePolicy::Volatile).is_err());
    assert!(check_format_policy(StorageFormat::Null, StoragePolicy::Volatile).is_ok());
    assert!(check_format_policy(StorageFormat::Null, StoragePolicy::Full).is_err());
}

#[test]
fn chain_resets() {
    let inc = Some(HistoricChecksum { trust: true, algorithm: Algorithm::Sha256, policy: StoragePolicy::Incremental });
    let full = Some(HistoricChecksum { trust: true, algorithm: Algorithm::Sha256, policy: StoragePolicy::Full });
    let untrusted = Some(HistoricChecksum { trust: false, algorithm: Algorithm::Sha256, policy: StoragePolicy::Full });
    let other = Some(HistoricChecksum { trust: true, algorithm: Algorithm::Sha224, policy: StoragePolicy::Incremental });
    let volatile = Some(HistoricChecksum { trust: true, algorithm: Algorithm::Sha256, policy: StoragePolicy::Volatile });
    assert_eq!(checksum_chain(&vec![inc, full, inc, inc], Algorithm::Sha256), vec![1, 2, 3]);
    assert_eq!(checksum_chain(&vec![full, inc, None, inc], Algorithm::Sha256), vec![3]);
    assert_eq!(checksum_chain(&vec![full, untrusted, inc], Algorithm::Sha256), vec![2]);
    assert_eq!(checksum_chain(&vec![full, other], Algorithm::Sha256), Vec::<usize>::new());
    assert_eq!(checksum_chain(&vec![full, volatile], Algorithm::Sha256), Vec::<usize>::new());
    assert_eq!(checksum_chain(&vec![], Algorithm::Sha256), Vec::<usize>::new());
}

#[test]
fn tiny_full_backup() {
    let source: Vec<u8> = (0..8192u32).map(|i| (i % 251) as u8).collect();
    let mut backup = Backup::new(Image { bytes: vec![0; 8192], writes: 0, committed: false }, Ledger::Null(NullChecksums::new(0, 4096, 2)), write_gates(StoragePolicy::Full, false).unwrap(), 4096, 8192, String::from("backup.img"));
    for k in 0..2u64 {
        let at = (k * 4096) as usize;
        let chunk = Chunk { offset: k * 4096, data: source[at..at + 4096].to_vec() };
        assert_eq!(backup.process_chunk(&chunk), Ok(true));
    }
    let mut kept = Kept(vec![]);
    assert!(backup.commit(&mut kept).is_ok());
    assert_eq!(backup.storage.writes, 2);
    assert_eq!(backup.get_storage_path(), "backup.img");
    assert_eq!(backup.storage.bytes, source);
    assert!(backup.storage.committed);
}

#[test]
fn incremental_no_op() {
    let source = vec![5u8; 8192];
    let mut ledger = SparseChecksums::new("sha256", 32, 4096, 2, StoragePolicy::Incremental).unwrap();
    let parent = vec![Some(Algorithm::Sha256.digest(&source[..4096])), Some(Algorithm::Sha256.digest(&source[4096..]))];
    ledger.merge_entries(&parent);
    let mut backup = Backup::new(Image { bytes: vec![0; 8192], writes: 0, committed: false }, Ledger::Sparse(ledger), write_gates(StoragePolicy::Incremental, true).unwrap(), 4096, 8192, String::from("backup.img"));
    for k in 0..2u64 {
        let at = (k * 4096) as usize;
        let chunk = Chunk { offset: k * 4096, data: source[at..at + 4096].to_vec() };
        assert_eq!(backup.process_chunk(&chunk), Ok(false));
    }
    let mut kept = Kept(vec![Some(vec![])]);
    assert!(backup.commit(&mut kept).is_ok());
    assert_eq!(backup.storage.writes, 0);
    assert_eq!(kept.0, parent);
    let changed = Chunk { offset: 4096, data: vec![6u8; 4096] };
    assert_eq!(backup.process_chunk(&changed), Ok(true));
    assert_eq!(backup.storage.writes, 1);
}

#[test]
fn volatile_backup_writes_nothing() {
    let mut backup = Backup::new(NullStorage::new(), Ledger::Null(NullChecksums::new(0, 512, 1)), write_gates(StoragePolicy::Volatile, false).unwrap(), 512, 100, String::new());
    assert_eq!(backup.process_chunk(&Chunk { offset: 0, data: vec![1; 100] }), Ok(false));
}

#[test]
fn plans_refuse_before_anything_is_opened() {
    assert_eq!(plan_backup(StorageFormat::Raw, StoragePolicy::Incremental, None), Err(BackupError::FormatPolicyMismatch(StorageFormat::Raw, StoragePolicy::Incremental)));
    assert_eq!(plan_backup(StorageFormat::Sparse, StoragePolicy::Volatile, None), Err(BackupError::FormatPolicyMismatch(StorageFormat::Sparse, StoragePolicy::Volatile)));
    assert_eq!(plan_backup(StorageFormat::Null, StoragePolicy::Full, None), Err(BackupError::FormatPolicyMismatch(StorageFormat::Null, StoragePolicy::Full)));
    assert_eq!(plan_backup(StorageFormat::Sparse, StoragePolicy::Incremental, None), Err(BackupError::IncrementalWithoutTrust));
    assert_eq!(plan_backup(StorageFormat::Sparse, StoragePolicy::Incremental, Some(("sha256", 32, false))), Err(BackupError::IncrementalWithoutTrust));
    assert_eq!(plan_backup(StorageFormat::Sparse, StoragePolicy::Full, Some(("md5", 16, true))), Err(BackupError::UnsupportedChecksum));
    assert_eq!(
        plan_backup(StorageFormat::Sparse, StoragePolicy::Incremental, Some(("sha256", 32, true))),
        Ok((WriteGates { unchanged: false, touched: false, replaced: true }, Some(Algorithm::Sha256)))
    );
    assert_eq!(plan_backup(StorageFormat::Raw, StoragePolicy::Full, None), Ok((WriteGates { unchanged: true, touched: true, replaced: true }, None)));
    assert_eq!(plan_backup(StorageFormat::Null, StoragePolicy::Volatile, None), Ok((WriteGates { unchanged: false, touched: false, replaced: false }, None)));
}
