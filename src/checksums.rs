use vstd::prelude::*;
use vstd::string::StringSliceAdditionalSpecFns;
use crate::chunk::Chunk;
use crate::codec::entries_view;
use crate::digests::{
    blake2b512, blake2b512_of, blake2s256, blake2s256_of, sha224, sha224_of, sha256, sha256_of, sha384, sha384_of,
    sha512, sha512_224, sha512_224_of, sha512_256, sha512_256_of, sha512_of,
};

verus! {

/// Where a chunk's stored checksum came from.
#[derive(Clone, Copy, PartialEq, Eq, Structural, Debug)]
pub enum ChunkSource {
    /// No checksum is known.
    Absent,
    /// Loaded from an earlier backup.
    Historic,
    /// Computed during this backup.
    Current,
}

/// How a chunk's checksum compares with the one stored before.
#[derive(Clone, Copy, PartialEq, Eq, Structural, Debug)]
pub enum ChecksumDiff {
    /// Same checksum as one already computed during this backup.
    Unchanged,
    /// Same checksum as one from an earlier backup.
    Touched,
    /// No checksum was known, or it differs.
    Replaced,
}

/// What a backup keeps of a device.
#[derive(Clone, Copy, PartialEq, Eq, Structural, Debug)]
pub enum StoragePolicy {
    /// Everything: the backup stands alone.
    Full,
    /// Only what changed since the backups before it.
    Incremental,
    /// Nothing is kept.
    Volatile,
}

/// A digest function and the length its digests are cut to.
#[derive(Clone, Copy, PartialEq, Eq, Structural, Debug)]
pub enum Algorithm {
    Sha224,
    Sha256,
    Sha512Trunc224,
    Sha512Trunc256,
    Sha384,
    Sha512,
    Blake2b(usize),
    Blake2s(usize),
}

/// Why a checksum configuration is refused.
#[derive(Clone, Copy, PartialEq, Eq, Structural, Debug)]
pub enum ChecksumError {
    /// The (algorithm name, size) pair is not supported.
    UnsupportedAlgorithm,
}

pub open spec fn name_sha256() -> Seq<u8> {
    seq![115u8, 104, 97, 50, 53, 54]
}

pub open spec fn name_sha512() -> Seq<u8> {
    seq![115u8, 104, 97, 53, 49, 50]
}

pub open spec fn name_blake2b() -> Seq<u8> {
    seq![98u8, 108, 97, 107, 101, 50, 98]
}

pub open spec fn name_blake2s() -> Seq<u8> {
    seq![98u8, 108, 97, 107, 101, 50, 115]
}

/// The algorithm named `name` with digests of `size` bytes, if supported.
pub open spec fn algorithm_for(name: Seq<u8>, size: usize) -> Option<Algorithm> {
    if name == name_sha256() && size == 28 {
        Some(Algorithm::Sha224)
    } else if name == name_sha256() && size == 32 {
        Some(Algorithm::Sha256)
    } else if name == name_sha512() && size == 28 {
        Some(Algorithm::Sha512Trunc224)
    } else if name == name_sha512() && size == 32 {
        Some(Algorithm::Sha512Trunc256)
    } else if name == name_sha512() && size == 48 {
        Some(Algorithm::Sha384)
    } else if name == name_sha512() && size == 64 {
        Some(Algorithm::Sha512)
    } else if name == name_blake2b() && 1 <= size <= 64 {
        Some(Algorithm::Blake2b(size))
    } else if name == name_blake2s() && 1 <= size <= 32 {
        Some(Algorithm::Blake2s(size))
    } else {
        None
    }
}

impl Algorithm {
    /// Length in bytes of the digests kept.
    pub open spec fn spec_size(self) -> nat {
        match self {
            Algorithm::Sha224 => 28,
            Algorithm::Sha256 => 32,
            Algorithm::Sha512Trunc224 => 28,
            Algorithm::Sha512Trunc256 => 32,
            Algorithm::Sha384 => 48,
            Algorithm::Sha512 => 64,
            Algorithm::Blake2b(n) => n as nat,
            Algorithm::Blake2s(n) => n as nat,
        }
    }

    pub open spec fn valid(self) -> bool {
        match self {
            Algorithm::Blake2b(n) => 1 <= n <= 64,
            Algorithm::Blake2s(n) => 1 <= n <= 32,
            _ => true,
        }
    }

    /// The digest kept for `data`.
    pub open spec fn digest_of(self, data: Seq<u8>) -> Seq<u8> {
        match self {
            Algorithm::Sha224 => sha224_of(data),
            Algorithm::Sha256 => sha256_of(data),
            Algorithm::Sha512Trunc224 => sha512_224_of(data),
            Algorithm::Sha512Trunc256 => sha512_256_of(data),
            Algorithm::Sha384 => sha384_of(data),
            Algorithm::Sha512 => sha512_of(data),
            Algorithm::Blake2b(n) => blake2b512_of(data).subrange(0, n as int),
            Algorithm::Blake2s(n) => blake2s256_of(data).subrange(0, n as int),
        }
    }

    pub fn size(&self) -> (r: usize)
        ensures
            r == self.spec_size(),
    {
        match self {
            Algorithm::Sha224 => 28,
            Algorithm::Sha256 => 32,
            Algorithm::Sha512Trunc224 => 28,
            Algorithm::Sha512Trunc256 => 32,
            Algorithm::Sha384 => 48,
            Algorithm::Sha512 => 64,
            Algorithm::Blake2b(n) => *n,
            Algorithm::Blake2s(n) => *n,
        }
    }

    /// The digest of `data`, cut to this algorithm's size.
    pub fn digest(&self, data: &[u8]) -> (r: Vec<u8>)
        requires
            self.valid(),
        ensures
            r@ == self.digest_of(data@),
            r@.len() == self.spec_size(),
    {
        match self {
            Algorithm::Sha224 => sha224(data),
            Algorithm::Sha256 => sha256(data),
            Algorithm::Sha512Trunc224 => sha512_224(data),
            Algorithm::Sha512Trunc256 => sha512_256(data),
            Algorithm::Sha384 => sha384(data),
            Algorithm::Sha512 => sha512(data),
            Algorithm::Blake2b(n) => prefix(&blake2b512(data), *n),
            Algorithm::Blake2s(n) => prefix(&blake2s256(data), *n),
        }
    }
}

/// The first `n` bytes of `v`.
fn prefix(v: &Vec<u8>, n: usize) -> (r: Vec<u8>)
    requires
        n <= v@.len(),
    ensures
        r@ == v@.subrange(0, n as int),
{
    let mut r: Vec<u8> = Vec::with_capacity(n);
    let mut i: usize = 0;
    while i < n
        invariant
            i <= n,
            n <= v@.len(),
            r@ == v@.subrange(0, i as int),
        decreases n - i,
    {
        r.push(v[i]);
        assert(v@.subrange(0, i + 1) =~= v@.subrange(0, i as int).push(v@[i as int]));
        i = i + 1;
    }
    r
}

/// `a` and `b` hold the same bytes.
pub fn bytes_equal(a: &[u8], b: &[u8]) -> (r: bool)
    ensures
        r == (a@ == b@),
{
    if a.len() != b.len() {
        return false;
    }
    let mut i: usize = 0;
    while i < a.len()
        invariant
            i <= a@.len(),
            a@.len() == b@.len(),
            a@.subrange(0, i as int) == b@.subrange(0, i as int),
        decreases a@.len() - i,
    {
        if a[i] != b[i] {
            return false;
        }
        assert(a@.subrange(0, i + 1) =~= a@.subrange(0, i as int).push(a@[i as int]));
        assert(b@.subrange(0, i + 1) =~= b@.subrange(0, i as int).push(b@[i as int]));
        i = i + 1;
    }
    assert(a@ =~= a@.subrange(0, i as int));
    assert(b@ =~= b@.subrange(0, i as int));
    true
}

/// The algorithm named `algorithm_name` with digests of `checksum_size`
/// bytes: sha256 (28, 32), sha512 (28, 32, 48, 64), blake2b (1 to 64),
/// blake2s (1 to 32).
pub fn resolve_algorithm(algorithm_name: &str, checksum_size: usize) -> (r: Result<Algorithm, ChecksumError>)
    ensures
        match algorithm_for(algorithm_name.spec_bytes(), checksum_size) {
            Some(a) => r == Ok::<Algorithm, ChecksumError>(a),
            None => r == Err::<Algorithm, ChecksumError>(ChecksumError::UnsupportedAlgorithm),
        },
        r is Ok ==> r->Ok_0.valid() && r->Ok_0.spec_size() == checksum_size,
{
    let name = algorithm_name.as_bytes();
    let sha256_name: [u8; 6] = [115, 104, 97, 50, 53, 54];
    let sha512_name: [u8; 6] = [115, 104, 97, 53, 49, 50];
    let blake2b_name: [u8; 7] = [98, 108, 97, 107, 101, 50, 98];
    let blake2s_name: [u8; 7] = [98, 108, 97, 107, 101, 50, 115];
    let is_sha256 = bytes_equal(name, sha256_name.as_slice());
    let is_sha512 = bytes_equal(name, sha512_name.as_slice());
    let is_blake2b = bytes_equal(name, blake2b_name.as_slice());
    let is_blake2s = bytes_equal(name, blake2s_name.as_slice());
    assert(sha256_name@ =~= name_sha256());
    assert(sha512_name@ =~= name_sha512());
    assert(blake2b_name@ =~= name_blake2b());
    assert(blake2s_name@ =~= name_blake2s());
    if is_sha256 && checksum_size == 28 {
        Ok(Algorithm::Sha224)
    } else if is_sha256 && checksum_size == 32 {
        Ok(Algorithm::Sha256)
    } else if is_sha512 && checksum_size == 28 {
        Ok(Algorithm::Sha512Trunc224)
    } else if is_sha512 && checksum_size == 32 {
        Ok(Algorithm::Sha512Trunc256)
    } else if is_sha512 && checksum_size == 48 {
        Ok(Algorithm::Sha384)
    } else if is_sha512 && checksum_size == 64 {
        Ok(Algorithm::Sha512)
    } else if is_blake2b && 1 <= checksum_size && checksum_size <= 64 {
        Ok(Algorithm::Blake2b(checksum_size))
    } else if is_blake2s && 1 <= checksum_size && checksum_size <= 32 {
        Ok(Algorithm::Blake2s(checksum_size))
    } else {
        Err(ChecksumError::UnsupportedAlgorithm)
    }
}

/// A copy of `b`.
pub fn copy_bytes(b: &[u8]) -> (r: Vec<u8>)
    ensures
        r@ == b@,
{
    let mut r: Vec<u8> = Vec::with_capacity(b.len());
    let mut i: usize = 0;
    while i < b.len()
        invariant
            i <= b@.len(),
            r@ == b@.subrange(0, i as int),
        decreases b@.len() - i,
    {
        r.push(b[i]);
        assert(b@.subrange(0, i + 1) =~= b@.subrange(0, i as int).push(b@[i as int]));
        i = i + 1;
    }
    assert(b@ =~= b@.subrange(0, i as int));
    r
}

/// What comparing a fresh digest with the stored one gives.
pub open spec fn diff_for(source: ChunkSource, stored: Seq<u8>, digest: Seq<u8>) -> ChecksumDiff {
    if source == ChunkSource::Absent || stored != digest {
        ChecksumDiff::Replaced
    } else if source == ChunkSource::Current {
        ChecksumDiff::Unchanged
    } else {
        ChecksumDiff::Touched
    }
}

/// The ledger state after merging every present entry of a historic
/// checksum file: such chunks become historic with the file's digest.
pub open spec fn merged(
    sources: Seq<ChunkSource>,
    slots: Seq<Seq<u8>>,
    entries: Seq<Option<Seq<u8>>>,
) -> (Seq<ChunkSource>, Seq<Seq<u8>>) {
    (
        Seq::new(sources.len(), |k: int| if k < entries.len() && entries[k] is Some { ChunkSource::Historic } else { sources[k] }),
        Seq::new(slots.len(), |k: int| if k < entries.len() && entries[k] is Some { entries[k]->Some_0 } else { slots[k] }),
    )
}

/// Merging the same historic checksum file a second time changes nothing.
pub proof fn lemma_merge_idempotent(sources: Seq<ChunkSource>, slots: Seq<Seq<u8>>, entries: Seq<Option<Seq<u8>>>)
    ensures
        merged(merged(sources, slots, entries).0, merged(sources, slots, entries).1, entries) == merged(sources, slots, entries),
{
    let once = merged(sources, slots, entries);
    let twice = merged(once.0, once.1, entries);
    assert(twice.0 =~= once.0);
    assert(twice.1 =~= once.1);
}

/// The per-chunk checksum ledger of one backup, kept sparse on disk.
pub struct SparseChecksums {
    algorithm: Algorithm,
    checksum_size: usize,
    chunk_size: usize,
    chunk_count: usize,
    storage_policy: StoragePolicy,
    sources: Vec<ChunkSource>,
    checksums: Vec<Vec<u8>>,
}

impl SparseChecksums {
    pub closed spec fn sources(&self) -> Seq<ChunkSource> {
        self.sources@
    }

    pub closed spec fn slots(&self) -> Seq<Seq<u8>> {
        self.checksums@.map_values(|v: Vec<u8>| v@)
    }

    pub closed spec fn spec_algorithm(&self) -> Algorithm {
        self.algorithm
    }

    pub closed spec fn spec_chunk_size(&self) -> usize {
        self.chunk_size
    }

    pub closed spec fn spec_policy(&self) -> StoragePolicy {
        self.storage_policy
    }

    pub closed spec fn wf(&self) -> bool {
        &&& self.algorithm.valid()
        &&& self.checksum_size == self.algorithm.spec_size()
        &&& self.sources@.len() == self.chunk_count
        &&& self.checksums@.len() == self.chunk_count
        &&& forall|k: int| 0 <= k < self.chunk_count ==> (#[trigger] self.checksums@[k])@.len() == self.checksum_size
    }

    /// An empty ledger of `chunk_count` chunks; refused unless the
    /// algorithm and size are supported.
    pub fn new(
        algorithm_name: &str,
        checksum_size: usize,
        chunk_size: usize,
        chunk_count: usize,
        storage_policy: StoragePolicy,
    ) -> (r: Result<Self, ChecksumError>)
        ensures
            match algorithm_for(algorithm_name.spec_bytes(), checksum_size) {
                Some(a) => r is Ok && r->Ok_0.wf() && r->Ok_0.spec_algorithm() == a
                    && r->Ok_0.spec_chunk_size() == chunk_size && r->Ok_0.spec_policy() == storage_policy
                    && r->Ok_0.sources() == Seq::new(chunk_count as nat, |k: int| ChunkSource::Absent)
                    && r->Ok_0.slots().len() == chunk_count,
                None => r == Err::<Self, ChecksumError>(ChecksumError::UnsupportedAlgorithm),
            },
    {
        let algorithm = match resolve_algorithm(algorithm_name, checksum_size) {
            Ok(a) => a,
            Err(e) => return Err(e),
        };
        let mut sources: Vec<ChunkSource> = Vec::with_capacity(chunk_count);
        let mut checksums: Vec<Vec<u8>> = Vec::with_capacity(chunk_count);
        let mut i: usize = 0;
        while i < chunk_count
            invariant
                i <= chunk_count,
                sources@ == Seq::new(i as nat, |k: int| ChunkSource::Absent),
                checksums@.len() == i,
                forall|k: int| 0 <= k < i ==> (#[trigger] checksums@[k])@.len() == checksum_size,
            decreases chunk_count - i,
        {
            sources.push(ChunkSource::Absent);
            let mut zeros: Vec<u8> = Vec::with_capacity(checksum_size);
            let mut j: usize = 0;
            while j < checksum_size
                invariant
                    j <= checksum_size,
                    zeros@.len() == j,
                decreases checksum_size - j,
            {
                zeros.push(0u8);
                j = j + 1;
            }
            checksums.push(zeros);
            assert(sources@ =~= Seq::new((i + 1) as nat, |k: int| ChunkSource::Absent));
            i = i + 1;
        }
        Ok(SparseChecksums { algorithm, checksum_size, chunk_size, chunk_count, storage_policy, sources, checksums })
    }

    pub fn get_checksum_size(&self) -> (r: usize)
        requires
            self.wf(),
        ensures
            r == self.spec_algorithm().spec_size(),
    {
        self.checksum_size
    }

    pub fn get_chunk_size(&self) -> (r: usize)
        ensures
            r == self.spec_chunk_size(),
    {
        self.chunk_size
    }

    pub fn get_chunk_count(&self) -> (r: usize)
        requires
            self.wf(),
        ensures
            r == self.sources().len(),
    {
        self.chunk_count
    }

    pub fn get_storage_policy(&self) -> (r: StoragePolicy)
        ensures
            r == self.spec_policy(),
    {
        self.storage_policy
    }

    pub fn get_algorithm(&self) -> (r: Algorithm)
        ensures
            r == self.spec_algorithm(),
    {
        self.algorithm
    }

    /// Set a chunk's checksum from an earlier backup; later merges win. A
    /// chunk number past the chunk count is ignored.
    pub fn merge_chunk(&mut self, chunk_number: usize, checksum: &[u8])
        requires
            old(self).wf(),
            checksum@.len() == old(self).spec_algorithm().spec_size(),
        ensures
            final(self).wf(),
            final(self).spec_algorithm() == old(self).spec_algorithm(),
            final(self).spec_chunk_size() == old(self).spec_chunk_size(),
            final(self).spec_policy() == old(self).spec_policy(),
            chunk_number < old(self).sources().len() ==> final(self).sources() == old(self).sources().update(chunk_number as int, ChunkSource::Historic)
                && final(self).slots() == old(self).slots().update(chunk_number as int, checksum@),
            chunk_number >= old(self).sources().len() ==> final(self).sources() == old(self).sources()
                && final(self).slots() == old(self).slots(),
    {
        if chunk_number >= self.chunk_count {
            return;
        }
        let copy = copy_bytes(checksum);
        self.sources.set(chunk_number, ChunkSource::Historic);
        self.checksums.set(chunk_number, copy);
        assert(self.slots() =~= old(self).slots().update(chunk_number as int, checksum@));
    }

    /// Merge every present entry of a historic checksum file, in order.
    pub fn merge_entries(&mut self, entries: &Vec<Option<Vec<u8>>>)
        requires
            old(self).wf(),
            forall|k: int| 0 <= k < entries@.len() && (#[trigger] entries@[k]) is Some ==> entries@[k]->Some_0@.len()
                == old(self).spec_algorithm().spec_size(),
        ensures
            final(self).wf(),
            final(self).spec_algorithm() == old(self).spec_algorithm(),
            final(self).spec_chunk_size() == old(self).spec_chunk_size(),
            final(self).spec_policy() == old(self).spec_policy(),
            (final(self).sources(), final(self).slots()) == merged(old(self).sources(), old(self).slots(), entries_view(entries@)),
    {
        let ghost e = entries_view(entries@);
        let mut k: usize = 0;
        while k < entries.len()
            invariant
                self.wf(),
                k <= entries@.len(),
                e == entries_view(entries@),
                self.spec_algorithm() == old(self).spec_algorithm(),
                self.spec_chunk_size() == old(self).spec_chunk_size(),
                self.spec_policy() == old(self).spec_policy(),
                forall|j: int| 0 <= j < entries@.len() && (#[trigger] entries@[j]) is Some ==> entries@[j]->Some_0@.len()
                    == old(self).spec_algorithm().spec_size(),
                (self.sources(), self.slots()) == merged(old(self).sources(), old(self).slots(), e.take(k as int)),
            decreases entries@.len() - k,
        {
            let ghost before = (self.sources(), self.slots());
            match &entries[k] {
                Some(d) => {
                    self.merge_chunk(k, d.as_slice());
                },
                None => {},
            }
            proof {
                let m = merged(old(self).sources(), old(self).slots(), e.take(k + 1));
                assert(self.sources() =~= m.0);
                assert(self.slots() =~= m.1);
            }
            k = k + 1;
        }
        assert(e.take(k as int) =~= e);
    }

    /// Record the digest of chunk `chunk_number` computed in this backup,
    /// and say how it compares with the stored one.
    pub fn record_digest(&mut self, chunk_number: usize, digest: &[u8]) -> (r: ChecksumDiff)
        requires
            old(self).wf(),
            chunk_number < old(self).sources().len(),
            digest@.len() == old(self).spec_algorithm().spec_size(),
        ensures
            final(self).wf(),
            final(self).spec_algorithm() == old(self).spec_algorithm(),
            final(self).spec_chunk_size() == old(self).spec_chunk_size(),
            final(self).spec_policy() == old(self).spec_policy(),
            r == diff_for(old(self).sources()[chunk_number as int], old(self).slots()[chunk_number as int], digest@),
            final(self).sources() == old(self).sources().update(chunk_number as int, ChunkSource::Current),
            final(self).slots() == old(self).slots().update(chunk_number as int, digest@),
    {
        let source_was = self.sources[chunk_number];
        self.sources.set(chunk_number, ChunkSource::Current);
        let same = bytes_equal(digest, self.checksums[chunk_number].as_slice());
        if source_was == ChunkSource::Absent || !same {
            let copy = copy_bytes(digest);
            self.checksums.set(chunk_number, copy);
            assert(self.slots() =~= old(self).slots().update(chunk_number as int, digest@));
            ChecksumDiff::Replaced
        } else {
            assert(self.slots() =~= old(self).slots().update(chunk_number as int, digest@));
            match source_was {
                ChunkSource::Current => ChecksumDiff::Unchanged,
                _ => ChecksumDiff::Touched,
            }
        }
    }

    /// Record the checksum of a chunk read in this backup.
    pub fn record_chunk(&mut self, chunk: &Chunk) -> (r: ChecksumDiff)
        requires
            old(self).wf(),
            old(self).spec_chunk_size() > 0,
            chunk.offset / (old(self).spec_chunk_size() as u64) < old(self).sources().len(),
        ensures
            final(self).wf(),
            final(self).spec_algorithm() == old(self).spec_algorithm(),
            final(self).spec_chunk_size() == old(self).spec_chunk_size(),
            final(self).spec_policy() == old(self).spec_policy(),
            ({
                let k = chunk.offset / (old(self).spec_chunk_size() as u64);
                let d = old(self).spec_algorithm().digest_of(chunk.data@);
                &&& r == diff_for(old(self).sources()[k as int], old(self).slots()[k as int], d)
                &&& final(self).sources() == old(self).sources().update(k as int, ChunkSource::Current)
                &&& final(self).slots() == old(self).slots().update(k as int, d)
            }),
    {
        let digest = self.algorithm.digest(chunk.data.as_slice());
        let chunk_number = (chunk.offset / (self.chunk_size as u64)) as usize;
        self.record_digest(chunk_number, digest.as_slice())
    }

    /// The entries to save on commit: current checksums always, historic
    /// ones only for a full backup; `None` when nothing is saved at all.
    pub fn saved_entries(&self) -> (r: Option<Vec<Option<Vec<u8>>>>)
        requires
            self.wf(),
        ensures
            self.spec_policy() == StoragePolicy::Volatile <==> r is None,
            r is Some ==> entries_view(r->Some_0@) == self.saved_view(),
    {
        let save_historic = match self.storage_policy {
            StoragePolicy::Full => true,
            StoragePolicy::Incremental => false,
            StoragePolicy::Volatile => return None,
        };
        let mut out: Vec<Option<Vec<u8>>> = Vec::with_capacity(self.chunk_count);
        let mut k: usize = 0;
        while k < self.chunk_count
            invariant
                self.wf(),
                save_historic == (self.spec_policy() == StoragePolicy::Full),
                k <= self.chunk_count,
                out@.len() == k,
                forall|j: int| 0 <= j < k ==> #[trigger] entries_view(out@)[j] == if self.sources()[j] == ChunkSource::Current
                    || (self.sources()[j] == ChunkSource::Historic && save_historic) {
                    Some(self.slots()[j])
                } else {
                    None::<Seq<u8>>
                },
            decreases self.chunk_count - k,
        {
            let keep = match self.sources[k] {
                ChunkSource::Absent => false,
                ChunkSource::Historic => save_historic,
                ChunkSource::Current => true,
            };
            let ghost old_out = out@;
            if keep {
                let copy = copy_bytes(self.checksums[k].as_slice());
                out.push(Some(copy));
            } else {
                out.push(None);
            }
            proof {
                assert forall|j: int| 0 <= j < k + 1 implies #[trigger] entries_view(out@)[j] == if self.sources()[j] == ChunkSource::Current
                    || (self.sources()[j] == ChunkSource::Historic && save_historic) {
                    Some(self.slots()[j])
                } else {
                    None::<Seq<u8>>
                } by {
                    if j < k {
                        assert(out@[j] == old_out[j]);
                        assert(entries_view(out@)[j] == entries_view(old_out)[j]);
                    } else {
                        assert(self.slots()[j] == self.checksums@[j]@);
                    }
                }
            }
            k = k + 1;
        }
        assert(entries_view(out@) =~= self.saved_view());
        Some(out)
    }

    /// What a commit saves: current checksums always, historic ones only for
    /// a full backup.
    pub open spec fn saved_view(&self) -> Seq<Option<Seq<u8>>> {
        Seq::new(
            self.sources().len(),
            |k: int| if self.sources()[k] == ChunkSource::Current || (self.sources()[k] == ChunkSource::Historic
                && self.spec_policy() == StoragePolicy::Full) {
                Some(self.slots()[k])
            } else {
                None::<Seq<u8>>
            },
        )
    }

    /// A well-formed ledger has one slot per chunk, each of the digest size.
    pub proof fn lemma_wf_lengths(&self)
        requires
            self.wf(),
        ensures
            self.slots().len() == self.sources().len(),
            forall|k: int| 0 <= k < self.slots().len() ==> (#[trigger] self.slots()[k]).len() == self.spec_algorithm().spec_size(),
    {
        assert forall|k: int| 0 <= k < self.slots().len() implies (#[trigger] self.slots()[k]).len() == self.spec_algorithm().spec_size() by {
            assert(self.slots()[k] == self.checksums@[k]@);
        }
    }
}

/// The ledger of a backup that keeps no checksums: every chunk counts as
/// changed.
pub struct NullChecksums {
    checksum_size: usize,
    chunk_size: usize,
    chunk_count: usize,
}

impl NullChecksums {
    pub closed spec fn spec_checksum_size(&self) -> usize {
        self.checksum_size
    }

    pub closed spec fn spec_chunk_size(&self) -> usize {
        self.chunk_size
    }

    pub closed spec fn spec_chunk_count(&self) -> usize {
        self.chunk_count
    }

    pub fn new(checksum_size: usize, chunk_size: usize, chunk_count: usize) -> (r: Self)
        ensures
            r.spec_checksum_size() == checksum_size,
            r.spec_chunk_size() == chunk_size,
            r.spec_chunk_count() == chunk_count,
    {
        NullChecksums { checksum_size, chunk_size, chunk_count }
    }

    pub fn get_checksum_size(&self) -> (r: usize)
        ensures
            r == self.spec_checksum_size(),
    {
        self.checksum_size
    }

    pub fn get_chunk_size(&self) -> (r: usize)
        ensures
            r == self.spec_chunk_size(),
    {
        self.chunk_size
    }

    pub fn get_chunk_count(&self) -> (r: usize)
        ensures
            r == self.spec_chunk_count(),
    {
        self.chunk_count
    }

    /// Nothing is known, so every chunk has changed.
    pub fn record_chunk(&mut self, chunk: &Chunk) -> (r: ChecksumDiff)
        ensures
            r == ChecksumDiff::Replaced,
            *final(self) == *old(self),
    {
        ChecksumDiff::Replaced
    }
}

} // verus!
