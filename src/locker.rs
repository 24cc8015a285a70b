use vstd::prelude::*;

verus! {

/// The visible states of the consistency locker.
#[derive(Clone, Copy, PartialEq, Eq, Structural, Debug)]
pub enum AutoLockerStatus {
    Unlocked,
    Locking,
    Locked,
    Unlocking,
    Cooldown,
}

/// What the outside world reports back to the locker.
#[derive(Clone, Copy, PartialEq, Eq, Structural, Debug)]
pub enum LockEvent {
    /// The lock asked for was taken.
    Acquired,
    /// The lock asked for could not be taken.
    Refused,
    /// The locks held have been released.
    Released,
    /// The timed wait asked for is over (or was cut short).
    TimeUp,
}

/// What the locker asks the outside world to do next.
#[derive(Clone, Copy, PartialEq, Eq, Structural, Debug)]
pub enum LockAction {
    /// Nothing until the next check or event.
    Wait,
    /// Take lock number `usize` (commands first, then files).
    Acquire(usize),
    /// Release the locks taken so far.
    Release,
    /// Release the locks taken so far, then wait out the cooldown.
    ReleaseThenCoolDown,
    /// Hold the locks for the configured time limit.
    HoldLocked,
    /// Wait out the configured cooldown.
    CoolDown,
}

/// The locker's state: its status, how many locks it must take, and how
/// many it holds.
#[derive(Clone, Copy, PartialEq, Eq, Structural, Debug)]
pub struct Locker {
    pub status: AutoLockerStatus,
    pub lock_count: usize,
    pub held: usize,
}

/// The transition taken on `event`: the next state and the action asked for.
pub open spec fn step(s: Locker, event: LockEvent) -> (Locker, LockAction) {
    if s.lock_count == 0 {
        (s, LockAction::Wait)
    } else {
        match (s.status, event) {
            (AutoLockerStatus::Locking, LockEvent::Acquired) => if s.held + 1 == s.lock_count {
                (Locker { status: AutoLockerStatus::Locked, held: (s.held + 1) as usize, ..s }, LockAction::HoldLocked)
            } else {
                (Locker { held: (s.held + 1) as usize, ..s }, LockAction::Acquire((s.held + 1) as usize))
            },
            (AutoLockerStatus::Locking, LockEvent::Refused) => (
                Locker { status: AutoLockerStatus::Cooldown, held: 0, ..s },
                LockAction::ReleaseThenCoolDown,
            ),
            (AutoLockerStatus::Locked, LockEvent::TimeUp) => (
                Locker { status: AutoLockerStatus::Unlocking, ..s },
                LockAction::Release,
            ),
            (AutoLockerStatus::Unlocking, LockEvent::Released) => (
                Locker { status: AutoLockerStatus::Cooldown, held: 0, ..s },
                LockAction::CoolDown,
            ),
            (AutoLockerStatus::Cooldown, LockEvent::TimeUp) => (
                Locker { status: AutoLockerStatus::Unlocked, ..s },
                LockAction::Wait,
            ),
            _ => (s, LockAction::Wait),
        }
    }
}

impl Locker {
    pub open spec fn wf(&self) -> bool {
        &&& self.held <= self.lock_count
        &&& self.lock_count == 0 ==> self.status == AutoLockerStatus::Locked
        &&& self.status == AutoLockerStatus::Unlocked || self.status == AutoLockerStatus::Cooldown ==> self.held == 0
        &&& self.status == AutoLockerStatus::Locking ==> self.held < self.lock_count
        &&& self.status == AutoLockerStatus::Locked ==> self.held == self.lock_count
    }

    /// A locker for `lock_count` locks. Without locks there is nothing to
    /// take, and it reports itself locked from the start.
    pub fn new(lock_count: usize) -> (r: Locker)
        ensures
            r.wf(),
            r.lock_count == lock_count,
            r.held == 0,
            r.status == if lock_count == 0 { AutoLockerStatus::Locked } else { AutoLockerStatus::Unlocked },
    {
        let status = if lock_count == 0 { AutoLockerStatus::Locked } else { AutoLockerStatus::Unlocked };
        Locker { status, lock_count, held: 0 }
    }

    /// The copier asks for the status; an idle locker starts locking, and
    /// asks for the first lock.
    pub fn check(&mut self) -> (r: (AutoLockerStatus, LockAction))
        requires
            old(self).wf(),
        ensures
            final(self).wf(),
            final(self).lock_count == old(self).lock_count,
            old(self).status == AutoLockerStatus::Unlocked ==> *final(self) == (Locker {
                status: AutoLockerStatus::Locking,
                ..*old(self)
            }) && r == (AutoLockerStatus::Locking, LockAction::Acquire(0)),
            old(self).status != AutoLockerStatus::Unlocked ==> *final(self) == *old(self) && r == (
                old(self).status,
                LockAction::Wait,
            ),
    {
        match self.status {
            AutoLockerStatus::Unlocked => {
                self.status = AutoLockerStatus::Locking;
                (AutoLockerStatus::Locking, LockAction::Acquire(0))
            },
            status => (status, LockAction::Wait),
        }
    }

    /// Take in what the outside world reports, and say what to do next.
    pub fn on_event(&mut self, event: LockEvent) -> (r: LockAction)
        requires
            old(self).wf(),
        ensures
            final(self).wf(),
            (*final(self), r) == step(*old(self), event),
    {
        if self.lock_count == 0 {
            return LockAction::Wait;
        }
        match (self.status, event) {
            (AutoLockerStatus::Locking, LockEvent::Acquired) => {
                self.held = self.held + 1;
                if self.held == self.lock_count {
                    self.status = AutoLockerStatus::Locked;
                    LockAction::HoldLocked
                } else {
                    LockAction::Acquire(self.held)
                }
            },
            (AutoLockerStatus::Locking, LockEvent::Refused) => {
                self.status = AutoLockerStatus::Cooldown;
                self.held = 0;
                LockAction::ReleaseThenCoolDown
            },
            (AutoLockerStatus::Locked, LockEvent::TimeUp) => {
                self.status = AutoLockerStatus::Unlocking;
                LockAction::Release
            },
            (AutoLockerStatus::Unlocking, LockEvent::Released) => {
                self.status = AutoLockerStatus::Cooldown;
                self.held = 0;
                LockAction::CoolDown
            },
            (AutoLockerStatus::Cooldown, LockEvent::TimeUp) => {
                self.status = AutoLockerStatus::Unlocked;
                LockAction::Wait
            },
            _ => LockAction::Wait,
        }
    }
}

/// With no locks configured the locker stays locked whatever happens.
pub proof fn lemma_no_locks_stays_locked(s: Locker, event: LockEvent)
    requires
        s.wf(),
        s.lock_count == 0,
    ensures
        step(s, event).0.status == AutoLockerStatus::Locked,
        step(s, event).0.wf(),
{
}

/// A refused lock sends the locker from locking straight to its cooldown,
/// releasing what it had taken.
pub proof fn lemma_refusal_cools_down(s: Locker)
    requires
        s.wf(),
        s.lock_count > 0,
        s.status == AutoLockerStatus::Locking,
    ensures
        step(s, LockEvent::Refused).0.status == AutoLockerStatus::Cooldown,
        step(s, LockEvent::Refused).0.held == 0,
        step(s, LockEvent::Refused).1 == LockAction::ReleaseThenCoolDown,
{
}

/// The locker reports `Locked` only while it holds every lock.
pub proof fn lemma_locked_holds_all(s: Locker, event: LockEvent)
    requires
        s.wf(),
    ensures
        step(s, event).0.wf(),
        step(s, event).0.status == AutoLockerStatus::Locked ==> step(s, event).0.held == s.lock_count,
{
}

} // verus!
