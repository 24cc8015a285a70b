use vstd::prelude::*;
use crate::backup::StorageFormat;
use crate::checksums::StoragePolicy;

verus! {

/// Where a backup attempt has got to.
#[derive(Clone, Copy, PartialEq, Eq, Structural, Debug)]
pub enum Health {
    Setup,
    Partial,
    Finishing,
    Success,
    Failure,
}

/// The checksum ledger a job keeps.
#[derive(Clone, Debug)]
pub struct JobChecksum {
    pub algorithm: String,
    pub size: usize,
    pub destination: String,
    pub trust: bool,
    pub storage_policy: StoragePolicy,
}

impl JobChecksum {
    pub open spec fn view(&self) -> (Seq<char>, usize, Seq<char>, bool, StoragePolicy) {
        (self.algorithm@, self.size, self.destination@, self.trust, self.storage_policy)
    }

    pub fn same(&self, other: &JobChecksum) -> (r: bool)
        ensures
            r == (self@ == other@),
    {
        self.algorithm == other.algorithm && self.size == other.size && self.destination == other.destination
            && self.trust == other.trust && self.storage_policy == other.storage_policy
    }
}

/// One source device, where its backup goes, and how it is kept.
#[derive(Clone, Debug)]
pub struct Job {
    pub source: String,
    pub destination: String,
    pub chunk_size: usize,
    pub reuse_output: bool,
    pub format: StorageFormat,
    pub storage_policy: StoragePolicy,
    pub checksum: Option<JobChecksum>,
}

impl Job {
    pub open spec fn view(&self) -> (
        Seq<char>,
        Seq<char>,
        usize,
        bool,
        StorageFormat,
        StoragePolicy,
        Option<(Seq<char>, usize, Seq<char>, bool, StoragePolicy)>,
    ) {
        (
            self.source@,
            self.destination@,
            self.chunk_size,
            self.reuse_output,
            self.format,
            self.storage_policy,
            match self.checksum {
                Some(c) => Some(c@),
                None => None,
            },
        )
    }

    pub fn same(&self, other: &Job) -> (r: bool)
        ensures
            r == (self@ == other@),
    {
        let checksums_same = match (&self.checksum, &other.checksum) {
            (Some(a), Some(b)) => a.same(b),
            (None, None) => true,
            _ => false,
        };
        self.source == other.source && self.destination == other.destination && self.chunk_size == other.chunk_size
            && self.reuse_output == other.reuse_output && self.format == other.format && self.storage_policy
            == other.storage_policy && checksums_same
    }
}

/// Why a backup state is refused.
#[derive(Clone, Copy, PartialEq, Eq, Structural, Debug)]
pub enum StateError {
    /// Two jobs back up the same source.
    DuplicateSource,
    /// Two jobs write to the same destination.
    DuplicateDestination,
    /// The parent backup did not succeed.
    ParentNotSuccessful,
    /// The parent has no job for the source of job `usize`.
    MissingSource(usize),
    /// The parent's job for the source of job `usize` used another chunk size.
    ChunkSizeMismatch(usize),
    /// The job lists differ.
    JobsDiffer,
    /// A state names, through its parents, a state already seen.
    Cycle,
    /// A state path was given together with a store, which names its own.
    StatePathWithStore,
}

pub open spec fn distinct(s: Seq<Seq<char>>) -> bool {
    forall|i: int, j: int| 0 <= i < j < s.len() ==> #[trigger] s[i] != #[trigger] s[j]
}

pub open spec fn sources_of(jobs: Seq<Job>) -> Seq<Seq<char>> {
    jobs.map_values(|j: Job| j.source@)
}

pub open spec fn destinations_of(jobs: Seq<Job>) -> Seq<Seq<char>> {
    jobs.map_values(|j: Job| j.destination@)
}

pub open spec fn jobs_view(jobs: Seq<Job>) -> Seq<
    (
        Seq<char>,
        Seq<char>,
        usize,
        bool,
        StorageFormat,
        StoragePolicy,
        Option<(Seq<char>, usize, Seq<char>, bool, StoragePolicy)>,
    ),
> {
    jobs.map_values(|j: Job| j@)
}

/// The position of the first string in `s` equal to `x`.
fn position_of(s: &Vec<String>, x: &String) -> (r: Option<usize>)
    ensures
        match r {
            Some(i) => i < s@.len() && s@[i as int]@ == x@ && forall|j: int| 0 <= j < i ==> s@[j]@ != x@,
            None => forall|j: int| 0 <= j < s@.len() ==> s@[j]@ != x@,
        },
{
    let mut i: usize = 0;
    while i < s.len()
        invariant
            i <= s@.len(),
            forall|j: int| 0 <= j < i ==> s@[j]@ != x@,
        decreases s@.len() - i,
    {
        if s[i] == *x {
            return Some(i);
        }
        i = i + 1;
    }
    None
}

/// No two strings of `s` are equal.
pub fn all_distinct(s: &Vec<String>) -> (r: bool)
    ensures
        r == distinct(s@.map_values(|x: String| x@)),
{
    let ghost v = s@.map_values(|x: String| x@);
    let mut seen: Vec<String> = Vec::new();
    let mut i: usize = 0;
    while i < s.len()
        invariant
            i <= s@.len(),
            v == s@.map_values(|x: String| x@),
            seen@.len() == i,
            forall|j: int| 0 <= j < i ==> #[trigger] seen@[j]@ == v[j],
            distinct(v.take(i as int)),
        decreases s@.len() - i,
    {
        match position_of(&seen, &s[i]) {
            Some(j) => {
                proof {
                    assert(v[j as int] == v[i as int]);
                }
                return false;
            },
            None => {},
        }
        seen.push(s[i].clone());
        proof {
            assert forall|a: int, b: int| 0 <= a < b < i + 1 implies #[trigger] v.take(i + 1)[a] != #[trigger] v.take(i + 1)[b] by {
                if b == i {
                    assert(seen@[a]@ == v[a]);
                } else {
                    assert(v.take(i as int)[a] != v.take(i as int)[b]);
                }
            }
        }
        i = i + 1;
    }
    assert(v.take(i as int) =~= v);
    true
}

/// The recorded metadata of one backup attempt.
pub struct State {
    pub name: String,
    pub parent_path: Option<String>,
    pub health: Health,
    pub description: String,
    pub jobs: Vec<Job>,
}

impl State {
    /// No source and no destination appears twice.
    pub fn validate(&self) -> (r: Result<(), StateError>)
        ensures
            !distinct(sources_of(self.jobs@)) ==> r == Err::<(), StateError>(StateError::DuplicateSource),
            distinct(sources_of(self.jobs@)) && !distinct(destinations_of(self.jobs@)) ==> r == Err::<(), StateError>(
                StateError::DuplicateDestination,
            ),
            distinct(sources_of(self.jobs@)) && distinct(destinations_of(self.jobs@)) ==> r is Ok,
    {
        let mut sources: Vec<String> = Vec::new();
        let mut destinations: Vec<String> = Vec::new();
        let mut i: usize = 0;
        while i < self.jobs.len()
            invariant
                i <= self.jobs@.len(),
                sources@.map_values(|x: String| x@) == sources_of(self.jobs@).take(i as int),
                destinations@.map_values(|x: String| x@) == destinations_of(self.jobs@).take(i as int),
            decreases self.jobs@.len() - i,
        {
            let ghost old_s = sources@;
            let ghost old_d = destinations@;
            let src = self.jobs[i].source.clone();
            let dst = self.jobs[i].destination.clone();
            assert(src@ == self.jobs@[i as int].source@);
            sources.push(src);
            destinations.push(dst);
            assert(sources@.map_values(|x: String| x@) =~= old_s.map_values(|x: String| x@).push(self.jobs@[i as int].source@));
            assert(destinations@.map_values(|x: String| x@) =~= old_d.map_values(|x: String| x@).push(
                self.jobs@[i as int].destination@,
            ));
            assert(sources@.map_values(|x: String| x@) =~= sources_of(self.jobs@).take(i + 1));
            assert(destinations@.map_values(|x: String| x@) =~= destinations_of(self.jobs@).take(i + 1));
            i = i + 1;
        }
        assert(sources_of(self.jobs@).take(i as int) =~= sources_of(self.jobs@));
        assert(destinations_of(self.jobs@).take(i as int) =~= destinations_of(self.jobs@));
        if !all_distinct(&sources) {
            return Err(StateError::DuplicateSource);
        }
        if !all_distinct(&destinations) {
            return Err(StateError::DuplicateDestination);
        }
        Ok(())
    }

    /// Whether `parent` can be the parent of this state: it succeeded, it
    /// backs up every source of this state with the same chunk size, and
    /// the job lists are the same.
    pub fn check_parent(&self, parent: &State) -> (r: Result<(), StateError>)
        ensures
            r is Ok ==> parent.health == Health::Success && jobs_view(self.jobs@) == jobs_view(parent.jobs@),
            parent.health == Health::Success && jobs_view(self.jobs@) == jobs_view(parent.jobs@) && distinct(
                sources_of(self.jobs@),
            ) ==> r is Ok,
            parent.health != Health::Success ==> r == Err::<(), StateError>(StateError::ParentNotSuccessful),
            r == Err::<(), StateError>(StateError::ParentNotSuccessful) ==> parent.health != Health::Success,
            forall|i: usize| r == Err::<(), StateError>(StateError::MissingSource(i)) ==> i < self.jobs@.len()
                && forall|k: int| 0 <= k < parent.jobs@.len() ==> parent.jobs@[k].source@ != self.jobs@[i as int].source@,
            forall|i: usize| r == Err::<(), StateError>(StateError::ChunkSizeMismatch(i)) ==> i < self.jobs@.len()
                && exists|k: int| 0 <= k < parent.jobs@.len() && parent.jobs@[k].source@ == self.jobs@[i as int].source@
                && parent.jobs@[k].chunk_size != self.jobs@[i as int].chunk_size,
    {
        if parent.health != Health::Success {
            return Err(StateError::ParentNotSuccessful);
        }
        let mut i: usize = 0;
        while i < self.jobs.len()
            invariant
                i <= self.jobs@.len(),
                parent.health == Health::Success,
                jobs_view(self.jobs@) == jobs_view(parent.jobs@) && distinct(sources_of(self.jobs@)) ==> forall|m: int|
                    0 <= m < i ==> self.jobs@[m]@ == parent.jobs@[m]@,
            decreases self.jobs@.len() - i,
        {
            let job = &self.jobs[i];
            let mut k: usize = 0;
            let mut found: Option<usize> = None;
            while k < parent.jobs.len()
                invariant_except_break
                    found is None,
                invariant
                    k <= parent.jobs@.len(),
                    forall|m: int| 0 <= m < k ==> parent.jobs@[m].source@ != job.source@,
                ensures
                    found is None ==> forall|m: int| 0 <= m < parent.jobs@.len() ==> parent.jobs@[m].source@ != job.source@,
                    found is Some ==> found->Some_0 < parent.jobs@.len() && parent.jobs@[found->Some_0 as int].source@
                        == job.source@ && forall|m: int| 0 <= m < found->Some_0 ==> parent.jobs@[m].source@ != job.source@,
                decreases parent.jobs@.len() - k,
            {
                if parent.jobs[k].source == job.source {
                    found = Some(k);
                    break;
                }
                k = k + 1;
            }
            proof {
                if jobs_view(self.jobs@) == jobs_view(parent.jobs@) {
                    assert(jobs_view(self.jobs@)[i as int] == jobs_view(parent.jobs@)[i as int]);
                }
            }
            match found {
                None => {
                    proof {
                        if jobs_view(self.jobs@) == jobs_view(parent.jobs@) {
                            assert(jobs_view(self.jobs@).len() == self.jobs@.len());
                            assert(jobs_view(parent.jobs@).len() == parent.jobs@.len());
                            assert(jobs_view(parent.jobs@)[i as int] == parent.jobs@[i as int]@);
                            assert(jobs_view(self.jobs@)[i as int] == self.jobs@[i as int]@);
                            assert(parent.jobs@[i as int].source@ == self.jobs@[i as int].source@);
                            assert(false);
                        }
                    }
                    return Err(StateError::MissingSource(i));
                },
                Some(k) => {
                    proof {
                        if jobs_view(self.jobs@) == jobs_view(parent.jobs@) && distinct(sources_of(self.jobs@)) {
                            assert(jobs_view(self.jobs@)[k as int] == jobs_view(parent.jobs@)[k as int]);
                            if k != i {
                                assert(sources_of(self.jobs@)[k as int] == sources_of(self.jobs@)[i as int]);
                            }
                        }
                    }
                    if parent.jobs[k].chunk_size != job.chunk_size {
                        return Err(StateError::ChunkSizeMismatch(i));
                    }
                    proof {
                        if jobs_view(self.jobs@) == jobs_view(parent.jobs@) && distinct(sources_of(self.jobs@)) {
                            assert(jobs_view(self.jobs@)[i as int] == jobs_view(parent.jobs@)[i as int]);
                        }
                    }
                },
            }
            i = i + 1;
        }
        if self.jobs.len() != parent.jobs.len() {
            assert(jobs_view(self.jobs@).len() != jobs_view(parent.jobs@).len());
            return Err(StateError::JobsDiffer);
        }
        let mut j: usize = 0;
        while j < self.jobs.len()
            invariant
                j <= self.jobs@.len(),
                self.jobs@.len() == parent.jobs@.len(),
                parent.health == Health::Success,
                forall|m: int| 0 <= m < j ==> self.jobs@[m]@ == parent.jobs@[m]@,
            decreases self.jobs@.len() - j,
        {
            if !self.jobs[j].same(&parent.jobs[j]) {
                proof {
                    if jobs_view(self.jobs@) == jobs_view(parent.jobs@) {
                        assert(jobs_view(self.jobs@)[j as int] == jobs_view(parent.jobs@)[j as int]);
                    }
                }
                return Err(StateError::JobsDiffer);
            }
            j = j + 1;
        }
        assert(jobs_view(self.jobs@) =~= jobs_view(parent.jobs@));
        Ok(())
    }
}

/// A backup is kept either in a store or at a given state path, not both.
pub fn check_state_paths(store_path: &Option<String>, state_path: &Option<String>) -> (r: Result<(), StateError>)
    ensures
        r is Err <==> store_path is Some && state_path is Some,
        r is Err ==> r == Err::<(), StateError>(StateError::StatePathWithStore),
{
    match (store_path, state_path) {
        (Some(_), Some(_)) => Err(StateError::StatePathWithStore),
        _ => Ok(()),
    }
}

/// The position of the first path seen twice in a parent chain walked from
/// the newest state.
pub fn first_repeat(paths: &Vec<String>) -> (r: Option<usize>)
    ensures
        match r {
            Some(i) => i < paths@.len() && exists|j: int| 0 <= j < i && paths@[j]@ == paths@[i as int]@,
            None => distinct(paths@.map_values(|x: String| x@)),
        },
{
    let mut i: usize = 0;
    let ghost v = paths@.map_values(|x: String| x@);
    let mut seen: Vec<String> = Vec::new();
    while i < paths.len()
        invariant
            i <= paths@.len(),
            v == paths@.map_values(|x: String| x@),
            seen@.len() == i,
            forall|j: int| 0 <= j < i ==> #[trigger] seen@[j]@ == v[j],
            distinct(v.take(i as int)),
        decreases paths@.len() - i,
    {
        match position_of(&seen, &paths[i]) {
            Some(j) => {
                proof {
                    assert(paths@[j as int]@ == paths@[i as int]@);
                }
                return Some(i);
            },
            None => {},
        }
        seen.push(paths[i].clone());
        proof {
            assert forall|a: int, b: int| 0 <= a < b < i + 1 implies #[trigger] v.take(i + 1)[a] != #[trigger] v.take(i + 1)[b] by {
                if b == i {
                    assert(seen@[a]@ == v[a]);
                } else {
                    assert(v.take(i as int)[a] != v.take(i as int)[b]);
                }
            }
        }
        i = i + 1;
    }
    assert(v.take(i as int) =~= v);
    None
}

/// The states of a backup store, and which one is current.
pub struct StoreState {
    pub current: Option<String>,
    pub states: Vec<String>,
}

/// Why a store's record is refused.
#[derive(Clone, Copy, PartialEq, Eq, Structural, Debug)]
pub enum StoreStateError {
    /// A state is listed twice.
    DuplicateState,
    /// The current state is not one of the store's states.
    UnknownCurrent,
}

impl StoreState {
    /// The names of the states, as strings.
    pub open spec fn names(&self) -> Seq<Seq<char>> {
        self.states@.map_values(|x: String| x@)
    }

    /// The states form a set, and the current one is among them.
    pub open spec fn valid(&self) -> bool {
        &&& distinct(self.names())
        &&& match self.current {
            Some(c) => self.names().contains(c@),
            None => true,
        }
    }

    /// An empty store, as on the first run.
    pub fn empty() -> (r: StoreState)
        ensures
            r.valid(),
            r.current is None,
            r.states@.len() == 0,
    {
        StoreState { current: None, states: Vec::new() }
    }

    /// Refuse a store whose states repeat or whose current state is not
    /// one of its states.
    pub fn validate(&self) -> (r: Result<(), StoreStateError>)
        ensures
            r is Ok <==> self.valid(),
            !distinct(self.names()) ==> r == Err::<(), StoreStateError>(StoreStateError::DuplicateState),
            distinct(self.names()) && !self.valid() ==> r == Err::<(), StoreStateError>(StoreStateError::UnknownCurrent),
    {
        if !all_distinct(&self.states) {
            return Err(StoreStateError::DuplicateState);
        }
        match &self.current {
            None => Ok(()),
            Some(c) => match position_of(&self.states, c) {
                Some(j) => {
                    assert(self.names()[j as int] == c@);
                    Ok(())
                },
                None => {
                    assert(!self.names().contains(c@));
                    Err(StoreStateError::UnknownCurrent)
                },
            },
        }
    }

    /// Record a successful state, if it is not yet one, and make it current.
    pub fn advance(&mut self, name: String)
        requires
            old(self).valid(),
        ensures
            final(self).valid(),
            final(self).current == Some(name),
            final(self).names() == if old(self).names().contains(name@) {
                old(self).names()
            } else {
                old(self).names().push(name@)
            },
    {
        match position_of(&self.states, &name) {
            Some(j) => {
                assert(self.names()[j as int] == name@);
            },
            None => {
                let ghost before = self.names();
                assert(!before.contains(name@));
                let copy = name.clone();
                self.states.push(copy);
                assert(self.names() =~= before.push(name@));
                assert(self.names()[self.names().len() - 1] == name@);
                assert forall|i: int, j: int| 0 <= i < j < self.names().len() implies #[trigger] self.names()[i]
                    != #[trigger] self.names()[j] by {
                    if j == self.names().len() - 1 {
                        assert(before[i] == self.names()[i]);
                    } else {
                        assert(before[i] != before[j]);
                    }
                }
            },
        }
        self.current = Some(name);
    }
}

} // verus!
