use vstd::prelude::*;
use crate::alias_tree::span;
use crate::chunk_tracker::{ChunkTracker, block_factor, calculate_display_detail};
use vstd::string::StringSliceAdditionalSpecFns;
use crate::state::Job;

verus! {

/// How progress reports are drawn.
#[derive(Clone, Copy, PartialEq, Eq, Structural, Debug)]
pub enum ProgressStyle {
    Plain,
    Color,
}

/// What a file lock demands of its file.
#[derive(Clone, Copy, PartialEq, Eq, Structural, Debug)]
pub enum LockBehaviour {
    /// The file must not exist when tested (open to races).
    Existence,
    /// A shared advisory lock on the file.
    SharedLock,
    /// An exclusive advisory lock on the file.
    ExclusiveLock,
}

/// A progress query: how many cells a job's map may be drawn in.
#[derive(Clone, Copy, PartialEq, Eq, Structural, Debug)]
pub struct Query {
    pub max_diagram_size: usize,
}

/// The progress of one job, as a map of aliased cells.
#[derive(Clone, Debug)]
pub struct JobProgress {
    pub job: Job,
    pub chunk_count: usize,
    pub cells: Vec<u8>,
    pub chunks_per_cell: usize,
}

/// The progress of a job in at most `max_diagram_size` cells.
pub fn job_progress(job: Job, tracker: &ChunkTracker, max_diagram_size: usize) -> (r: JobProgress)
    requires
        tracker.wf(),
        max_diagram_size > 0,
    ensures
        r.chunk_count == tracker@.len(),
        exists|h: nat| {
            &&& tracker@.len() <= max_diagram_size * #[trigger] span(h)
            &&& (h == 0 || tracker@.len() > max_diagram_size * span((h - 1) as nat))
            &&& r.chunks_per_cell == if tracker@.len() == 0 { 1 } else if span(h) <= tracker@.len() { span(h) } else { tracker@.len() as nat }
            &&& forall|i: int| 0 <= i < r.cells@.len() ==> #[trigger] r.cells@[i] == tracker.cell((i * span(h)) as nat, h)
            &&& tracker@.len() > 0 ==> r.cells@.len() * span(h) >= tracker@.len() && (r.cells@.len() - 1) * span(h) < tracker@.len()
            &&& tracker@.len() == 0 ==> r.cells@.len() == 0
        },
        tracker@.len() > 0 ==> r.cells@.len() <= max_diagram_size,
{
    let count = tracker.get_chunk_count();
    let height = calculate_display_detail(count, max_diagram_size);
    let cells = tracker.snapshot_level(height);
    let chunks_per_cell = if count == 0 { 1 } else { block_factor(height, count) };
    proof {
        let h = height as nat;
        assert(count <= max_diagram_size * span(h));
        if count > 0 {
            let f = span(height as nat);
            crate::alias_tree::lemma_span_positive(height as nat);
            assert(count <= max_diagram_size * f);
            let m = cells@.len();
            assert(m >= 1) by (nonlinear_arith)
                requires
                    m * f >= count,
                    count >= 1,
                    f >= 1,
            ;
            assert(m <= max_diagram_size) by (nonlinear_arith)
                requires
                    (m - 1) * f < count,
                    count <= max_diagram_size * f,
                    f >= 1,
                    m >= 1,
            ;
        }
    }
    JobProgress { job, chunk_count: count, cells, chunks_per_cell }
}

/// What an outside caller can ask of a running backup.
#[derive(Clone, Copy, PartialEq, Eq, Structural, Debug)]
pub enum RequestKind {
    Start,
    Cancel,
    Pause,
    Resume,
    Query,
}

/// How the running backup answers.
#[derive(Clone, Copy, PartialEq, Eq, Structural, Debug)]
pub enum Outcome {
    /// A backup is already running.
    Rejected,
    /// Done as asked.
    Accepted,
    /// A progress report is due.
    Progress,
}

/// The copier's state as management requests change it.
#[derive(Clone, Copy, PartialEq, Eq, Structural, Debug)]
pub struct RunControl {
    pub cancelled: bool,
    pub paused: bool,
}

impl RunControl {
    pub fn new() -> (r: RunControl)
        ensures
            !r.cancelled,
            !r.paused,
    {
        RunControl { cancelled: false, paused: false }
    }

    /// Cancel stops the run for good; pause holds it until resume; a query
    /// asks for progress; starting another backup is refused.
    pub fn handle(&mut self, request: RequestKind) -> (r: Outcome)
        ensures
            r == match request {
                RequestKind::Start => Outcome::Rejected,
                RequestKind::Query => Outcome::Progress,
                _ => Outcome::Accepted,
            },
            final(self).cancelled == (old(self).cancelled || request == RequestKind::Cancel),
            final(self).paused == match request {
                RequestKind::Pause => true,
                RequestKind::Resume => false,
                _ => old(self).paused,
            },
    {
        match request {
            RequestKind::Start => Outcome::Rejected,
            RequestKind::Cancel => {
                self.cancelled = true;
                Outcome::Accepted
            },
            RequestKind::Pause => {
                self.paused = true;
                Outcome::Accepted
            },
            RequestKind::Resume => {
                self.paused = false;
                Outcome::Accepted
            },
            RequestKind::Query => Outcome::Progress,
        }
    }
}

/// The value of ASCII octal digits.
pub open spec fn octal_value(digits: Seq<u8>) -> nat
    decreases digits.len(),
{
    if digits.len() == 0 {
        0
    } else {
        octal_value(digits.drop_last()) * 8 + (digits.last() - 48) as nat
    }
}

pub open spec fn all_octal(s: Seq<u8>) -> bool {
    forall|i: int| 0 <= i < s.len() ==> 48 <= #[trigger] s[i] <= 55
}

/// A permission mode written in octal, from `0` to `7777`.
pub fn mode_from_str(mode: &str) -> (r: Option<u32>)
    ensures
        r is Some <==> mode.spec_bytes().len() > 0 && all_octal(mode.spec_bytes()) && octal_value(mode.spec_bytes()) <= 0o7777,
        r is Some ==> r->Some_0 == octal_value(mode.spec_bytes()),
{
    let b = mode.as_bytes();
    if b.len() == 0 {
        return None;
    }
    let mut value: u32 = 0;
    let mut i: usize = 0;
    while i < b.len()
        invariant
            i <= b@.len(),
            b@ == mode.spec_bytes(),
            all_octal(b@.subrange(0, i as int)),
            value == octal_value(b@.subrange(0, i as int)),
            value <= 0o7777,
        decreases b@.len() - i,
    {
        let c = b[i];
        let ghost prefix = b@.subrange(0, i as int);
        let ghost next = b@.subrange(0, i + 1);
        assert(next.drop_last() =~= prefix);
        if c < 48 || c > 55 {
            proof {
                assert(b@[i as int] == c);
                assert(!(48 <= b@[i as int] <= 55));
                if all_octal(b@) {
                    assert(48 <= b@[i as int] <= 55);
                }
            }
            return None;
        }
        proof {
            assert forall|j: int| 0 <= j < next.len() implies 48 <= #[trigger] next[j] <= 55 by {
                if j < prefix.len() {
                    assert(next[j] == prefix[j]);
                }
            }
        }
        let v = value * 8 + (c - 48) as u32;
        if v > 0o7777 {
            proof {
                assert(next.last() == c);
                assert(octal_value(next) == v);
                if all_octal(b@) {
                    lemma_octal_grows(b@, (i + 1) as nat);
                    assert(octal_value(b@) >= v);
                }
            }
            return None;
        }
        value = v;
        i = i + 1;
    }
    assert(b@.subrange(0, i as int) =~= b@);
    Some(value)
}

/// Appending digits never makes an octal number smaller.
proof fn lemma_octal_grows(s: Seq<u8>, n: nat)
    requires
        n <= s.len(),
        all_octal(s),
    ensures
        octal_value(s) >= octal_value(s.subrange(0, n as int)),
    decreases s.len() - n,
{
    if n < s.len() {
        lemma_octal_grows(s, n + 1);
        assert(s.subrange(0, (n + 1) as int).drop_last() =~= s.subrange(0, n as int));
    } else {
        assert(s.subrange(0, n as int) =~= s);
    }
}

} // verus!
