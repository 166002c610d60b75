use weak_lock::fairlock::{FairLock, FairLockGuard, NUM_LOCK};

enum Stage {
    Idle,
    Requesting,
    Holding(FairLockGuard),
}

/// Runs `n` participants (slots `0..n`) round-robin, one atomic step each per
/// round; each one increments the guarded counter `rounds` times.
fn run_interleaved(n: usize, rounds: u64) -> u64 {
    let mut lock = FairLock::new(0u64);
    let mut stages: Vec<Stage> = (0..n).map(|_| Stage::Idle).collect();
    let mut left: Vec<u64> = vec![rounds; n];
    let mut busy = n;
    while busy > 0 {
        busy = 0;
        for i in 0..n {
            let stage = std::mem::replace(&mut stages[i], Stage::Idle);
            stages[i] = match stage {
                Stage::Idle if left[i] > 0 => {
                    lock.request(i);
                    Stage::Requesting
                }
                Stage::Idle => Stage::Idle,
                Stage::Requesting => match lock.try_acquire(i) {
                    Some(g) => Stage::Holding(g),
                    None => Stage::Requesting,
                },
                Stage::Holding(g) => {
                    *lock.get_mut(&g) += 1;
                    lock.unlock(g);
                    left[i] -= 1;
                    Stage::Idle
                }
            };
            if left[i] > 0 || !matches!(stages[i], Stage::Idle) {
                busy += 1;
            }
        }
    }
    let g = lock.lock(0);
    *lock.get(&g)
}

#[test]
fn fair_counts_every_increment() {
    assert_eq!(run_interleaved(4, 10_000), 40_000);
}

#[test]
fn fair_counts_with_every_slot() {
    assert_eq!(run_interleaved(NUM_LOCK, 1_000), 8_000);
}

#[test]
fn fair_hands_off_in_slot_order() {
    let mut lock = FairLock::new(0u32);
    let g0 = lock.lock(0);
    assert_eq!(g0.idx(), 0);
    lock.request(3);
    lock.request(1);
    lock.request(2);
    assert!(lock.try_acquire(3).is_none());
    // the turn is at slot 0, the releaser: slot 1 is next and waits
    lock.unlock(g0);
    assert!(lock.try_acquire(3).is_none());
    assert!(lock.try_acquire(2).is_none());
    let g1 = lock.try_acquire(1).unwrap();
    lock.request(0);
    lock.unlock(g1);
    assert!(lock.try_acquire(0).is_none());
    assert!(lock.try_acquire(3).is_none());
    let g2 = lock.try_acquire(2).unwrap();
    lock.unlock(g2);
    // slot 0 asked again before slot 3 was served, and still comes after it
    assert!(lock.try_acquire(0).is_none());
    let g3 = lock.try_acquire(3).unwrap();
    assert_eq!(g3.idx(), 3);
    lock.unlock(g3);
    // slot 4 is idle: it is skipped and the flag is cleared
    let g0 = lock.try_acquire(0).unwrap();
    *lock.get_mut(&g0) = 9;
    assert_eq!(*lock.get(&g0), 9);
    lock.unlock(g0);
}

#[test]
fn fair_idle_turn_slot_is_skipped() {
    let mut lock = FairLock::new(0u32);
    let last = NUM_LOCK - 1;
    let g = lock.lock(last);
    lock.request(0);
    lock.unlock(g);
    // the turn is at slot 0, which waits: it is handed the lock
    let g = lock.try_acquire(0).unwrap();
    lock.request(last);
    lock.unlock(g);
    // turn 0 was the releaser, so slot 1 is next; it is idle and skipped,
    // the flag is cleared and the last slot takes it
    let g = lock.try_acquire(last).unwrap();
    assert_eq!(g.idx(), last);
    lock.unlock(g);
}
