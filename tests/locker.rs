use blockcopy::locker::{AutoLockerStatus, LockAction, LockEvent, Locker};

#[test]
fn no_locks_means_always_locked() {
    let mut l = Locker::new(0);
    assert_eq!(l.check(), (AutoLockerStatus::Locked, LockAction::Wait));
    assert_eq!(l.on_event(LockEvent::TimeUp), LockAction::Wait);
    assert_eq!(l.status, AutoLockerStatus::Locked);
}

#[test]
fn full_cycle() {
    let mut l = Locker::new(2);
    assert_eq!(l.status, AutoLockerStatus::Unlocked);
    assert_eq!(l.check(), (AutoLockerStatus::Locking, LockAction::Acquire(0)));
    assert_eq!(l.check(), (AutoLockerStatus::Locking, LockAction::Wait));
    assert_eq!(l.on_event(LockEvent::Acquired), LockAction::Acquire(1));
    assert_eq!(l.on_event(LockEvent::Acquired), LockAction::HoldLocked);
    assert_eq!(l.status, AutoLockerStatus::Locked);
    assert_eq!(l.on_event(LockEvent::TimeUp), LockAction::Release);
    assert_eq!(l.status, AutoLockerStatus::Unlocking);
    assert_eq!(l.on_event(LockEvent::Released), LockAction::CoolDown);
    assert_eq!(l.status, AutoLockerStatus::Cooldown);
    assert_eq!(l.check(), (AutoLockerStatus::Cooldown, LockAction::Wait));
    assert_eq!(l.on_event(LockEvent::TimeUp), LockAction::Wait);
    assert_eq!(l.status, AutoLockerStatus::Unlocked);
}

#[test]
fn refusal_backs_off() {
    let mut l = Locker::new(3);
    l.check();
    assert_eq!(l.on_event(LockEvent::Acquired), LockAction::Acquire(1));
    assert_eq!(l.on_event(LockEvent::Refused), LockAction::ReleaseThenCoolDown);
    assert_eq!(l.held, 0);
    assert_eq!(l.status, AutoLockerStatus::Cooldown);
    assert_eq!(l.on_event(LockEvent::TimeUp), LockAction::Wait);
    assert_eq!(l.status, AutoLockerStatus::Unlocked);
}
