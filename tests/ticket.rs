use weak_lock::ticketlock::{TicketLock, TicketLockGuard};

enum Stage {
    Idle,
    Waiting(u64),
    Holding(TicketLockGuard),
}

/// Runs `n` participants round-robin, one atomic step each per round; each
/// one increments the guarded counter `rounds` times.
fn run_interleaved(n: usize, rounds: u64) -> u64 {
    let mut lock = TicketLock::new(0u64);
    let mut stages: Vec<Stage> = (0..n).map(|_| Stage::Idle).collect();
    let mut left: Vec<u64> = vec![rounds; n];
    let mut busy = n;
    while busy > 0 {
        busy = 0;
        for i in 0..n {
            let stage = std::mem::replace(&mut stages[i], Stage::Idle);
            stages[i] = match stage {
                Stage::Idle if left[i] > 0 => Stage::Waiting(lock.take_ticket()),
                Stage::Idle => Stage::Idle,
                Stage::Waiting(t) => match lock.try_enter(t) {
                    Some(g) => Stage::Holding(g),
                    None => Stage::Waiting(t),
                },
                Stage::Holding(g) => {
                    *lock.get_mut(&g) += 1;
                    lock.unlock(g);
                    left[i] -= 1;
                    Stage::Idle
                }
            };
            if left[i] > 0 || !matches!(stages[i], Stage::Idle) {
                busy += 1;
            }
        }
    }
    let g = lock.lock();
    *lock.get(&g)
}

#[test]
fn ticket_counts_every_increment() {
    assert_eq!(run_interleaved(4, 100_000), 400_000);
}

#[test]
fn ticket_uncontended_lock_and_unlock() {
    let mut lock = TicketLock::new(5u64);
    let g = lock.lock();
    assert_eq!(g.ticket(), 0);
    *lock.get_mut(&g) = 6;
    lock.unlock(g);
    let g = lock.lock();
    assert_eq!(g.ticket(), 1);
    assert_eq!(*lock.get(&g), 6);
}

#[test]
fn ticket_grants_in_order_of_tickets() {
    let mut lock = TicketLock::new(0u64);
    let holder = lock.lock();
    let a = lock.take_ticket();
    let b = lock.take_ticket();
    assert_eq!((a, b), (1, 2));
    assert!(lock.try_enter(a).is_none());
    assert!(lock.try_enter(b).is_none());
    lock.unlock(holder);
    assert!(lock.try_enter(b).is_none());
    let ga = lock.try_enter(a).unwrap();
    assert_eq!(ga.ticket(), 1);
    assert!(lock.try_enter(b).is_none());
    lock.unlock(ga);
    let gb = lock.try_enter(b).unwrap();
    assert_eq!(gb.ticket(), 2);
}
