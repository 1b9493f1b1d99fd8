use settlers::components::{JobTarget, MAX_TARGETS_PER_JOB};

#[test]
fn default_tracker_is_empty_with_default_capacity() {
    let jt = JobTarget::default();
    assert_eq!(jt.count(), 0);
    assert_eq!(jt.max_workers, MAX_TARGETS_PER_JOB);
}

#[test]
fn claim_adds_membership() {
    let mut jt = JobTarget::default();
    jt.claim(3);
    assert_eq!(jt.count(), 1);
    assert!(jt.is_claimed_by(3));
    assert!(!jt.is_claimed_by(4));
}

#[test]
fn claim_twice_does_not_duplicate_membership() {
    let mut jt = JobTarget::default();
    jt.claim(3);
    jt.claim(3);
    assert_eq!(jt.count(), 1);
    assert!(jt.is_claimed_by(3));
}

#[test]
fn claim_does_not_itself_enforce_capacity() {
    // Raw claims are idempotent adds; capacity is enforced by the tick's
    // commit phase, not by the tracker.
    let mut jt = JobTarget::default();
    jt.claim(0);
    jt.claim(1);
    jt.claim(2);
    assert_eq!(jt.count(), 3);
}

#[test]
fn release_removes_membership() {
    let mut jt = JobTarget::default();
    jt.claim(3);
    jt.claim(7);
    jt.release(3);
    assert_eq!(jt.count(), 1);
    assert!(!jt.is_claimed_by(3));
    assert!(jt.is_claimed_by(7));
}

#[test]
fn release_twice_has_the_same_effect_as_once() {
    let mut jt = JobTarget::default();
    jt.claim(3);
    jt.claim(7);
    jt.release(3);
    let after_once: Vec<usize> = jt.current_workers.clone();
    jt.release(3);
    assert_eq!(jt.current_workers, after_once);
}

#[test]
fn release_without_claim_is_safe() {
    let mut jt = JobTarget::default();
    jt.release(9);
    assert_eq!(jt.count(), 0);
    jt.claim(1);
    jt.release(9);
    assert_eq!(jt.count(), 1);
    assert!(jt.is_claimed_by(1));
}
