use vstd::prelude::*;
use crate::chunk_tracker::ChunkTracker;

verus! {

/// Whether a pass starts with a system-wide sync: always on the first pass,
/// and later when the locks are held and the manifest asks for one.
pub fn needs_sync(first_pass: bool, locked: bool, sync_requested: bool) -> (r: bool)
    ensures
        r == (first_pass || (locked && sync_requested)),
{
    first_pass || (locked && sync_requested)
}

/// What `next_chunk` does: it returns the first dirty chunk at or after the
/// sweep's position, clears it and moves there, and marks the round
/// inconsistent; or it ends the sweep, with every chunk from the position
/// on found clean.
pub open spec fn next_chunk_result(before: Convergence, after: Convergence, r: Option<(usize, usize)>) -> bool {
    let (pj, pc) = before.position();
    match r {
        Some((j, i)) => {
            &&& pj <= j < before.maps().len()
            &&& i < before.maps()[j as int].len()
            &&& before.maps()[j as int][i as int] != 0
            &&& j == pj ==> pc <= i && forall|c: int| pc <= c < i ==> before.maps()[j as int][c] == 0
            &&& j != pj ==> forall|c: int| 0 <= c < i ==> before.maps()[j as int][c] == 0
            &&& forall|k: int, c: int| pj <= k < j && 0 <= c < before.maps()[k].len() && (k == pj ==> pc <= c)
                ==> before.maps()[k][c] == 0
            &&& after.maps() == before.maps().update(j as int, before.maps()[j as int].update(i as int, 0))
            &&& !after.spec_consistent()
            &&& after.spec_still_copying()
            &&& after.position() == (j, i)
        },
        None => {
            &&& after.maps() == before.maps()
            &&& after.spec_consistent() == before.spec_consistent()
            &&& after.spec_still_copying() == before.spec_still_copying()
            &&& forall|k: int, c: int| pj <= k < before.maps().len() && 0 <= c < before.maps()[k].len() && (k == pj
                ==> pc <= c) ==> before.maps()[k][c] == 0
        },
    }
}

/// Once no job has a dirty chunk, a sweep finds nothing and leaves the
/// round as consistent as it began: a round begun while locked converges.
pub proof fn lemma_clean_sweep_converges(before: Convergence, after: Convergence, r: Option<(usize, usize)>)
    requires
        forall|j: int, c: int| 0 <= j < before.maps().len() && 0 <= c < before.maps()[j].len() ==> before.maps()[j][c] == 0,
        next_chunk_result(before, after, r),
    ensures
        r is None,
        after.spec_consistent() == before.spec_consistent(),
        after.spec_still_copying() == before.spec_still_copying(),
        after.maps() == before.maps(),
{
}

/// The copier's bookkeeping: one dirty map per job, and where the current
/// sweep has got to.
pub struct Convergence {
    trackers: Vec<ChunkTracker>,
    consistent: bool,
    still_copying: bool,
    job: usize,
    cursor: usize,
}

impl Convergence {
    /// The flags of every chunk of every job.
    pub closed spec fn maps(&self) -> Seq<Seq<u8>> {
        self.trackers@.map_values(|t: ChunkTracker| t@)
    }

    pub closed spec fn spec_consistent(&self) -> bool {
        self.consistent
    }

    pub closed spec fn spec_still_copying(&self) -> bool {
        self.still_copying
    }

    /// The job the sweep is on, and the chunk it resumes from.
    pub closed spec fn position(&self) -> (usize, usize) {
        (self.job, self.cursor)
    }

    pub closed spec fn wf(&self) -> bool {
        &&& forall|j: int| 0 <= j < self.trackers@.len() ==> (#[trigger] self.trackers@[j]).wf()
        &&& self.job <= self.trackers@.len()
    }

    /// One dirty map per job, every chunk still to be processed.
    pub fn new(chunk_counts: &Vec<usize>) -> (r: Convergence)
        ensures
            r.wf(),
            r.maps().len() == chunk_counts@.len(),
            forall|j: int| 0 <= j < chunk_counts@.len() ==> #[trigger] r.maps()[j] == Seq::new(
                chunk_counts@[j] as nat,
                |i: int| crate::chunk_tracker::FLAG_UNPROCESSED,
            ),
            !r.spec_consistent(),
    {
        let mut trackers: Vec<ChunkTracker> = Vec::with_capacity(chunk_counts.len());
        let mut j: usize = 0;
        while j < chunk_counts.len()
            invariant
                j <= chunk_counts@.len(),
                trackers@.len() == j,
                forall|k: int| 0 <= k < j ==> (#[trigger] trackers@[k]).wf() && trackers@[k]@ == Seq::new(
                    chunk_counts@[k] as nat,
                    |i: int| crate::chunk_tracker::FLAG_UNPROCESSED,
                ),
            decreases chunk_counts@.len() - j,
        {
            trackers.push(ChunkTracker::new(chunk_counts[j]));
            j = j + 1;
        }
        Convergence { trackers, consistent: false, still_copying: false, job: 0, cursor: 0 }
    }

    pub fn tracker(&self, job: usize) -> (r: &ChunkTracker)
        requires
            job < self.maps().len(),
        ensures
            r@ == self.maps()[job as int],
    {
        &self.trackers[job]
    }

    /// Mark chunk `chunk` of job `job` dirty; a mark outside every map is
    /// ignored.
    pub fn mark(&mut self, job: usize, chunk: u64)
        requires
            old(self).wf(),
        ensures
            final(self).wf(),
            final(self).spec_consistent() == old(self).spec_consistent(),
            final(self).spec_still_copying() == old(self).spec_still_copying(),
            final(self).position() == old(self).position(),
            job < old(self).maps().len() && chunk < old(self).maps()[job as int].len() ==> final(self).maps()
                == old(self).maps().update(
                job as int,
                old(self).maps()[job as int].update(chunk as int, old(self).maps()[job as int][chunk as int] | 1),
            ),
            !(job < old(self).maps().len() && chunk < old(self).maps()[job as int].len()) ==> final(self).maps()
                == old(self).maps(),
    {
        if job >= self.trackers.len() {
            return;
        }
        let count = self.trackers[job].get_chunk_count();
        if chunk >= count as u64 {
            return;
        }
        self.trackers[job].mark_chunk(chunk as usize);
        assert(self.maps() =~= old(self).maps().update(
            job as int,
            old(self).maps()[job as int].update(chunk as int, old(self).maps()[job as int][chunk as int] | 1),
        ));
    }

    /// Start a round of sweeps: it ends consistent only if the locks are
    /// held now and nothing is copied before it ends.
    pub fn begin_round(&mut self, locked: bool)
        requires
            old(self).wf(),
        ensures
            final(self).wf(),
            final(self).maps() == old(self).maps(),
            final(self).spec_consistent() == locked,
            final(self).spec_still_copying() == old(self).spec_still_copying(),
            final(self).position() == old(self).position(),
    {
        self.consistent = locked;
    }

    /// Start a sweep over every job from its first chunk.
    pub fn begin_sweep(&mut self)
        requires
            old(self).wf(),
        ensures
            final(self).wf(),
            final(self).maps() == old(self).maps(),
            final(self).spec_consistent() == old(self).spec_consistent(),
            !final(self).spec_still_copying(),
            final(self).position() == (0usize, 0usize),
    {
        self.still_copying = false;
        self.job = 0;
        self.cursor = 0;
    }

    /// The next dirty chunk of the sweep, cleared before it is returned so
    /// that a write during its copy marks it again. `None` ends the sweep.
    pub fn next_chunk(&mut self) -> (r: Option<(usize, usize)>)
        requires
            old(self).wf(),
        ensures
            final(self).wf(),
            next_chunk_result(*old(self), *final(self), r),
    {
        let ghost start = self.position();
        while self.job < self.trackers.len()
            invariant
                self.wf(),
                self.maps() == old(self).maps(),
                self.spec_consistent() == old(self).spec_consistent(),
                self.spec_still_copying() == old(self).spec_still_copying(),
                start == old(self).position(),
                start.0 <= self.job,
                self.job == start.0 ==> self.cursor == start.1,
                self.job != start.0 ==> self.cursor == 0,
                forall|j: int, c: int| start.0 <= j < self.job && 0 <= c < self.maps()[j].len()
                    && (j == start.0 ==> start.1 <= c) ==> self.maps()[j][c] == 0,
            decreases self.trackers@.len() - self.job,
        {
            let found = self.trackers[self.job].find_next(self.cursor);
            match found {
                Some(i) => {
                    self.trackers[self.job].clear_chunk(i);
                    self.consistent = false;
                    self.still_copying = true;
                    self.cursor = i;
                    proof {
                        assert(self.maps() =~= old(self).maps().update(self.job as int, old(self).maps()[self.job as int].update(i as int, 0)));
                    }
                    return Some((self.job, i));
                },
                None => {
                    self.job = self.job + 1;
                    self.cursor = 0;
                },
            }
        }
        None
    }

    /// The sweep copied something, so another sweep is due.
    pub fn sweep_again(&self) -> (r: bool)
        ensures
            r == self.spec_still_copying(),
    {
        self.still_copying
    }

    /// The round ended without copying anything while the locks were held.
    pub fn converged(&self) -> (r: bool)
        ensures
            r == self.spec_consistent(),
    {
        self.consistent
    }
}

} // verus!
