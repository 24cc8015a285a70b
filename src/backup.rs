use vstd::prelude::*;
use vstd::string::StringSliceAdditionalSpecFns;
use crate::checksums::{Algorithm, ChecksumDiff, ChunkSource, NullChecksums, SparseChecksums, StoragePolicy, diff_for};
use crate::codec::entries_view;
use crate::chunk::{Chunk, valid_chunk};
use crate::storage::{ChecksumStore, Storage};

verus! {

/// How a backup lays out its chunks.
#[derive(Clone, Copy, PartialEq, Eq, Structural, Debug)]
pub enum StorageFormat {
    /// A byte-for-byte image of the device.
    Raw,
    /// Numbered chunks with an optional index.
    Sparse,
    /// Nothing is written.
    Null,
}

/// Why a backup cannot be set up as configured.
#[derive(Clone, Copy, PartialEq, Eq, Structural, Debug)]
pub enum BackupError {
    /// The storage format cannot hold a backup made under the policy.
    FormatPolicyMismatch(StorageFormat, StoragePolicy),
    /// An incremental backup needs checksums it can trust.
    IncrementalWithoutTrust,
    /// The checksum (algorithm, size) pair is not supported.
    UnsupportedChecksum,
}

/// Whether a chunk is written, for each way its checksum compares.
#[derive(Clone, Copy, PartialEq, Eq, Structural, Debug)]
pub struct WriteGates {
    pub unchanged: bool,
    pub touched: bool,
    pub replaced: bool,
}

impl WriteGates {
    pub open spec fn spec_allows(&self, diff: ChecksumDiff) -> bool {
        match diff {
            ChecksumDiff::Unchanged => self.unchanged,
            ChecksumDiff::Touched => self.touched,
            ChecksumDiff::Replaced => self.replaced,
        }
    }

    pub fn allows(&self, diff: ChecksumDiff) -> (r: bool)
        ensures
            r == self.spec_allows(diff),
    {
        match diff {
            ChecksumDiff::Unchanged => self.unchanged,
            ChecksumDiff::Touched => self.touched,
            ChecksumDiff::Replaced => self.replaced,
        }
    }
}

/// The gates for a storage policy and whether checksums are trusted.
pub open spec fn gates_for(policy: StoragePolicy, trust: bool) -> Result<WriteGates, BackupError> {
    match policy {
        StoragePolicy::Full => Ok(WriteGates { unchanged: !trust, touched: true, replaced: true }),
        StoragePolicy::Incremental => if trust {
            Ok(WriteGates { unchanged: false, touched: false, replaced: true })
        } else {
            Err(BackupError::IncrementalWithoutTrust)
        },
        StoragePolicy::Volatile => Ok(WriteGates { unchanged: false, touched: false, replaced: false }),
    }
}

/// The write gates of a job: which checksum outcomes lead to a write.
pub fn write_gates(policy: StoragePolicy, trust: bool) -> (r: Result<WriteGates, BackupError>)
    ensures
        r == gates_for(policy, trust),
{
    match policy {
        StoragePolicy::Full => Ok(WriteGates { unchanged: !trust, touched: true, replaced: true }),
        StoragePolicy::Incremental => if trust {
            Ok(WriteGates { unchanged: false, touched: false, replaced: true })
        } else {
            Err(BackupError::IncrementalWithoutTrust)
        },
        StoragePolicy::Volatile => Ok(WriteGates { unchanged: false, touched: false, replaced: false }),
    }
}

/// An incremental backup with trusted checksums writes a chunk exactly when
/// its checksum was replaced.
pub proof fn lemma_incremental_writes_only_replaced(diff: ChecksumDiff)
    ensures
        gates_for(StoragePolicy::Incremental, true) is Ok,
        gates_for(StoragePolicy::Incremental, true)->Ok_0.spec_allows(diff) == (diff == ChecksumDiff::Replaced),
{
}

pub open spec fn format_accepts(format: StorageFormat, policy: StoragePolicy) -> bool {
    match format {
        StorageFormat::Raw => policy == StoragePolicy::Full,
        StorageFormat::Sparse => policy == StoragePolicy::Full || policy == StoragePolicy::Incremental,
        StorageFormat::Null => policy == StoragePolicy::Volatile,
    }
}

/// Raw storage takes only full backups, sparse storage full or incremental
/// ones, and null storage only volatile ones.
pub fn check_format_policy(format: StorageFormat, policy: StoragePolicy) -> (r: Result<(), BackupError>)
    ensures
        r is Ok <==> format_accepts(format, policy),
        r is Err ==> r == Err::<(), BackupError>(BackupError::FormatPolicyMismatch(format, policy)),
{
    let ok = match format {
        StorageFormat::Raw => match policy {
            StoragePolicy::Full => true,
            _ => false,
        },
        StorageFormat::Sparse => match policy {
            StoragePolicy::Volatile => false,
            _ => true,
        },
        StorageFormat::Null => match policy {
            StoragePolicy::Volatile => true,
            _ => false,
        },
    };
    if ok {
        Ok(())
    } else {
        Err(BackupError::FormatPolicyMismatch(format, policy))
    }
}

/// What `plan_backup` decides for a job: a format and policy that go
/// together, a supported checksum if one is asked for, and trusted
/// checksums for an incremental backup; then the gates and the algorithm.
pub open spec fn plan_for(
    format: StorageFormat,
    policy: StoragePolicy,
    checksum: Option<(Seq<u8>, usize, bool)>,
) -> Result<(WriteGates, Option<Algorithm>), BackupError> {
    if !format_accepts(format, policy) {
        Err(BackupError::FormatPolicyMismatch(format, policy))
    } else {
        match checksum {
            None => match gates_for(policy, false) {
                Ok(g) => Ok((g, None)),
                Err(e) => Err(e),
            },
            Some((name, size, trust)) => match crate::checksums::algorithm_for(name, size) {
                None => Err(BackupError::UnsupportedChecksum),
                Some(a) => match gates_for(policy, trust) {
                    Ok(g) => Ok((g, Some(a))),
                    Err(e) => Err(e),
                },
            },
        }
    }
}

/// Check a job's storage and checksum settings before anything is opened:
/// raw storage takes only full backups, sparse storage not volatile ones,
/// null storage only volatile ones; a checksum must be a supported
/// (algorithm, size) pair; an incremental backup needs trusted checksums.
/// Returns the write gates and the checksum algorithm.
pub fn plan_backup(format: StorageFormat, policy: StoragePolicy, checksum: Option<(&str, usize, bool)>) -> (r: Result<
    (WriteGates, Option<Algorithm>),
    BackupError,
>)
    ensures
        r == plan_for(
            format,
            policy,
            match checksum {
                Some((n, s, t)) => Some((n.spec_bytes(), s, t)),
                None => None,
            },
        ),
{
    match check_format_policy(format, policy) {
        Ok(()) => {},
        Err(e) => return Err(e),
    }
    match checksum {
        None => match write_gates(policy, false) {
            Ok(g) => Ok((g, None)),
            Err(e) => Err(e),
        },
        Some((name, size, trust)) => match crate::checksums::resolve_algorithm(name, size) {
            Err(_) => Err(BackupError::UnsupportedChecksum),
            Ok(a) => match write_gates(policy, trust) {
                Ok(g) => Ok((g, Some(a))),
                Err(e) => Err(e),
            },
        },
    }
}

/// The checksum an earlier backup of the same source kept.
#[derive(Clone, Copy, PartialEq, Eq, Structural, Debug)]
pub struct HistoricChecksum {
    pub trust: bool,
    pub algorithm: Algorithm,
    pub policy: StoragePolicy,
}

/// The positions in `history` (oldest first) of the checksum files to
/// load, in order: the run since the last break. A missing, untrusted or
/// differently computed checksum breaks the run, as does a volatile one; a
/// full one starts a new run on its own.
pub open spec fn chain_of(history: Seq<Option<HistoricChecksum>>, algorithm: Algorithm) -> Seq<usize>
    decreases history.len(),
{
    if history.len() == 0 {
        Seq::empty()
    } else {
        let i = (history.len() - 1) as usize;
        match history.last() {
            Some(h) => if h.trust && h.algorithm == algorithm {
                match h.policy {
                    StoragePolicy::Full => seq![i],
                    StoragePolicy::Incremental => chain_of(history.drop_last(), algorithm).push(i),
                    StoragePolicy::Volatile => Seq::empty(),
                }
            } else {
                Seq::empty()
            },
            None => Seq::empty(),
        }
    }
}

/// Which earlier checksum files an incremental backup loads, oldest first.
pub fn checksum_chain(history: &Vec<Option<HistoricChecksum>>, algorithm: Algorithm) -> (r: Vec<usize>)
    ensures
        r@ == chain_of(history@, algorithm),
{
    let mut chain: Vec<usize> = Vec::new();
    let mut i: usize = 0;
    while i < history.len()
        invariant
            i <= history@.len(),
            chain@ == chain_of(history@.take(i as int), algorithm),
        decreases history@.len() - i,
    {
        proof {
            assert(history@.take(i + 1).drop_last() =~= history@.take(i as int));
        }
        match history[i] {
            Some(h) => {
                if h.trust && h.algorithm == algorithm {
                    match h.policy {
                        StoragePolicy::Full => {
                            chain.clear();
                            chain.push(i);
                            assert(chain@ =~= seq![i]);
                        },
                        StoragePolicy::Incremental => {
                            chain.push(i);
                        },
                        StoragePolicy::Volatile => {
                            chain.clear();
                        },
                    }
                } else {
                    chain.clear();
                }
            },
            None => {
                chain.clear();
            },
        }
        i = i + 1;
    }
    assert(history@.take(i as int) =~= history@);
    chain
}

/// The checksum ledger of a job: none at all, or a sparse one.
pub enum Ledger {
    Null(NullChecksums),
    Sparse(SparseChecksums),
}

impl Ledger {
    pub open spec fn wf(&self) -> bool {
        match self {
            Ledger::Null(_) => true,
            Ledger::Sparse(s) => s.wf(),
        }
    }
}

/// What can be known of a backup's state: its ledger, and the chunks handed
/// to its storage so far, in order.
pub struct BackupModel {
    pub sources: Seq<ChunkSource>,
    pub slots: Seq<Seq<u8>>,
    pub handed: Seq<(u64, Seq<u8>)>,
}

/// One job's backup: its ledger, its storage, and its write gates.
pub struct Backup<S: Storage> {
    pub storage: S,
    pub checksums: Ledger,
    pub gates: WriteGates,
    pub chunk_size: usize,
    pub size: u64,
    /// Where the storage keeps the backup.
    pub storage_path: String,
    /// Every chunk handed to the storage, in order.
    pub handed: Ghost<Seq<(u64, Seq<u8>)>>,
    /// The last ledger entries the checksum store accepted.
    pub saved: Ghost<Option<Seq<Option<Seq<u8>>>>>,
    /// The storage's commit has been called.
    pub committed: Ghost<bool>,
}

/// What a commit hands to the checksum store, if anything.
pub open spec fn saved_for(l: Ledger) -> Option<Seq<Option<Seq<u8>>>> {
    match l {
        Ledger::Sparse(s) => if s.spec_policy() == StoragePolicy::Volatile { None } else { Some(s.saved_view()) },
        Ledger::Null(_) => None,
    }
}

impl<S: Storage> Backup<S> {
    /// A backup that has handed nothing to its storage yet.
    pub fn new(storage: S, checksums: Ledger, gates: WriteGates, chunk_size: usize, size: u64, storage_path: String) -> (r: Self)
        ensures
            r.checksums == checksums,
            r.gates == gates,
            r.chunk_size == chunk_size,
            r.size == size,
            r.spec_handed() == Seq::<(u64, Seq<u8>)>::empty(),
            r.spec_saved() is None,
            !r.spec_committed(),
    {
        Backup {
            storage,
            checksums,
            gates,
            chunk_size,
            size,
            storage_path,
            handed: Ghost(Seq::empty()),
            saved: Ghost(None),
            committed: Ghost(false),
        }
    }

    pub open spec fn spec_handed(&self) -> Seq<(u64, Seq<u8>)> {
        self.handed@
    }

    pub open spec fn spec_saved(&self) -> Option<Seq<Option<Seq<u8>>>> {
        self.saved@
    }

    pub open spec fn spec_committed(&self) -> bool {
        self.committed@
    }

    pub fn get_storage_path(&self) -> (r: &String)
        ensures
            r == &self.storage_path,
    {
        &self.storage_path
    }

    pub open spec fn wf(&self) -> bool {
        &&& self.checksums.wf()
        &&& match self.checksums {
            Ledger::Sparse(s) => s.spec_chunk_size() == self.chunk_size
                && s.sources().len() == crate::chunk::chunk_count_of(self.size, self.chunk_size),
            Ledger::Null(_) => true,
        }
    }

    pub open spec fn model(&self) -> BackupModel {
        match self.checksums {
            Ledger::Null(_) => BackupModel { sources: Seq::empty(), slots: Seq::empty(), handed: self.spec_handed() },
            Ledger::Sparse(s) => BackupModel { sources: s.sources(), slots: s.slots(), handed: self.spec_handed() },
        }
    }

    /// Same gates, sizes and kind of ledger, with the same algorithm.
    pub open spec fn same_setup(&self, other: &Self) -> bool {
        &&& self.gates == other.gates
        &&& self.chunk_size == other.chunk_size
        &&& self.size == other.size
        &&& match (self.checksums, other.checksums) {
            (Ledger::Null(_), Ledger::Null(_)) => true,
            (Ledger::Sparse(a), Ledger::Sparse(b)) => a.spec_algorithm() == b.spec_algorithm() && a.spec_policy() == b.spec_policy(),
            _ => false,
        }
    }

    /// How the ledger in state `m` rates chunk `c` (offset and bytes).
    pub open spec fn diff_in(&self, m: BackupModel, c: (u64, Seq<u8>)) -> ChecksumDiff {
        match self.checksums {
            Ledger::Null(_) => ChecksumDiff::Replaced,
            Ledger::Sparse(s) => {
                let k = c.0 / (self.chunk_size as u64);
                diff_for(m.sources[k as int], m.slots[k as int], s.spec_algorithm().digest_of(c.1))
            },
        }
    }

    /// Chunk `c` goes to storage from state `m`.
    pub open spec fn writes(&self, m: BackupModel, c: (u64, Seq<u8>)) -> bool {
        self.gates.spec_allows(self.diff_in(m, c))
    }

    /// The state after processing chunk `c` from state `m`: its checksum is
    /// recorded as current, and it is handed to storage if the gates allow.
    pub open spec fn step(&self, m: BackupModel, c: (u64, Seq<u8>)) -> BackupModel {
        let handed = if self.writes(m, c) { m.handed.push(c) } else { m.handed };
        match self.checksums {
            Ledger::Null(_) => BackupModel { sources: m.sources, slots: m.slots, handed },
            Ledger::Sparse(s) => {
                let k = c.0 / (self.chunk_size as u64);
                BackupModel {
                    sources: m.sources.update(k as int, ChunkSource::Current),
                    slots: m.slots.update(k as int, s.spec_algorithm().digest_of(c.1)),
                    handed,
                }
            },
        }
    }

    /// Record the chunk's checksum, then hand it to storage if the gates
    /// allow; returns whether it was handed over.
    pub fn process_chunk(&mut self, chunk: &Chunk) -> (r: Result<bool, String>)
        requires
            old(self).wf(),
            valid_chunk(chunk.offset, chunk.data@.len(), old(self).chunk_size, old(self).size),
        ensures
            final(self).wf(),
            final(self).same_setup(old(self)),
            final(self).spec_saved() == old(self).spec_saved(),
            final(self).spec_committed() == old(self).spec_committed(),
            final(self).model() == old(self).step(old(self).model(), (chunk.offset, chunk.data@)),
            r is Ok ==> r->Ok_0 == old(self).writes(old(self).model(), (chunk.offset, chunk.data@)),
            r is Err ==> old(self).writes(old(self).model(), (chunk.offset, chunk.data@)),
            !old(self).writes(old(self).model(), (chunk.offset, chunk.data@)) ==> r is Ok,
    {
        let diff = match &mut self.checksums {
            Ledger::Null(n) => n.record_chunk(chunk),
            Ledger::Sparse(s) => {
                proof {
                    lemma_chunk_number_in_range(chunk.offset, self.chunk_size, self.size);
                }
                s.record_chunk(chunk)
            },
        };
        let should_write = self.gates.allows(diff);
        if should_write {
            self.handed = Ghost(self.handed@.push((chunk.offset, chunk.data@)));
            match self.storage.write_chunk(chunk) {
                Ok(()) => {},
                Err(e) => return Err(e),
            }
        }
        Ok(should_write)
    }

    /// Hand the ledger's entries to the checksum store, then commit the
    /// storage, but only once the store has accepted them.
    pub fn commit<C: ChecksumStore>(&mut self, checksum_store: &mut C) -> (r: Result<(), String>)
        requires
            old(self).wf(),
        ensures
            final(self).wf(),
            final(self).same_setup(old(self)),
            final(self).model() == old(self).model(),
            r is Ok ==> final(self).spec_committed(),
            r is Ok && saved_for(old(self).checksums) is Some ==> final(self).spec_saved() == saved_for(old(self).checksums),
            final(self).spec_committed() && !old(self).spec_committed() && saved_for(old(self).checksums) is Some
                ==> final(self).spec_saved() == saved_for(old(self).checksums),
            saved_for(old(self).checksums) is None ==> final(self).spec_committed()
                && final(self).spec_saved() == old(self).spec_saved(),
    {
        match &self.checksums {
            Ledger::Sparse(s) => {
                match s.saved_entries() {
                    Some(entries) => {
                        match checksum_store.save(&entries) {
                            Ok(()) => {
                                self.saved = Ghost(Some(entries_view(entries@)));
                            },
                            Err(e) => return Err(e),
                        }
                    },
                    None => {},
                }
            },
            Ledger::Null(_) => {},
        }
        self.committed = Ghost(true);
        self.storage.commit()
    }
}

/// The states of `d`'s backups (started in `models`) after processing
/// `items` in order: each names a backup and holds a chunk.
pub open spec fn run_models<S: Storage>(
    d: Seq<Backup<S>>,
    models: Seq<BackupModel>,
    items: Seq<(usize, (u64, Seq<u8>))>,
) -> Seq<BackupModel>
    decreases items.len(),
{
    if items.len() == 0 {
        models
    } else {
        let prev = run_models(d, models, items.drop_last());
        let (j, c) = items.last();
        prev.update(j as int, d[j as int].step(prev[j as int], c))
    }
}

/// How many of `items` go to storage when processed in order.
pub open spec fn run_writes<S: Storage>(
    d: Seq<Backup<S>>,
    models: Seq<BackupModel>,
    items: Seq<(usize, (u64, Seq<u8>))>,
) -> nat
    decreases items.len(),
{
    if items.len() == 0 {
        0
    } else {
        let prev = run_models(d, models, items.drop_last());
        let (j, c) = items.last();
        run_writes(d, models, items.drop_last()) + if d[j as int].writes(prev[j as int], c) { 1nat } else { 0nat }
    }
}

/// A chunk on a chunk boundary inside the device has a number below the
/// chunk count.
pub proof fn lemma_chunk_number_in_range(offset: u64, chunk_size: usize, size: u64)
    requires
        crate::chunk::valid_offset(offset, chunk_size, size),
    ensures
        offset / (chunk_size as u64) < crate::chunk::chunk_count_of(size, chunk_size),
{
    let cs = chunk_size as int;
    vstd::arithmetic::div_mod::lemma_div_is_ordered(offset as int, size - 1, cs);
    vstd::arithmetic::div_mod::lemma_div_plus_one(size - 1, cs);
}

} // verus!
