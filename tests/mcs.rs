use weak_lock::mcslock::{MCSLock, MCSLockGuard, MCSNode};

enum Stage {
    Idle,
    Linking(usize),
    Spinning,
    Holding(MCSLockGuard),
    Releasing,
}

/// Runs `n` participants round-robin, one atomic step each per round; each
/// one increments the guarded counter `rounds` times through its own node.
fn run_interleaved(n: usize, rounds: u64) -> u64 {
    let mut lock = MCSLock::new(0u64);
    let ids: Vec<usize> = (0..n).map(|_| lock.add_node(MCSNode::new())).collect();
    let mut stages: Vec<Stage> = (0..n).map(|_| Stage::Idle).collect();
    let mut left: Vec<u64> = vec![rounds; n];
    let mut busy = n;
    while busy > 0 {
        busy = 0;
        for i in 0..n {
            let me = ids[i];
            let stage = std::mem::replace(&mut stages[i], Stage::Idle);
            stages[i] = match stage {
                Stage::Idle if left[i] > 0 => match lock.enqueue(me) {
                    Some(prev) => Stage::Linking(prev),
                    None => Stage::Spinning,
                },
                Stage::Idle => Stage::Idle,
                Stage::Linking(prev) => {
                    lock.link(me, prev);
                    Stage::Spinning
                }
                Stage::Spinning => match lock.try_acquire(me) {
                    Some(g) => Stage::Holding(g),
                    None => Stage::Spinning,
                },
                Stage::Holding(g) => {
                    *lock.get_mut(&g) += 1;
                    left[i] -= 1;
                    if lock.unlock(g) {
                        Stage::Idle
                    } else {
                        Stage::Releasing
                    }
                }
                Stage::Releasing => {
                    if lock.finish_unlock(me) {
                        Stage::Idle
                    } else {
                        Stage::Releasing
                    }
                }
            };
            if left[i] > 0 || !matches!(stages[i], Stage::Idle) {
                busy += 1;
            }
        }
    }
    let g = lock.lock(ids[0]);
    *lock.get(&g)
}

#[test]
fn mcs_counts_every_increment() {
    assert_eq!(run_interleaved(4, 100_000), 400_000);
}

#[test]
fn mcs_default_node_is_clear() {
    let n = MCSNode::default();
    assert!(n.next.is_none());
    assert!(!n.locked);
}

#[test]
fn mcs_uncontended_release_clears_tail() {
    let mut lock = MCSLock::new(1u32);
    let a = lock.add_node(MCSNode::new());
    let b = lock.add_node(MCSNode::new());
    assert_eq!((a, b), (0, 1));
    let g = lock.lock(a);
    assert_eq!(g.node(), a);
    *lock.get_mut(&g) = 2;
    assert!(lock.unlock(g));
    let g = lock.lock(b);
    assert_eq!(*lock.get(&g), 2);
}

#[test]
fn mcs_grants_in_order_of_swaps() {
    let mut lock = MCSLock::new(0u32);
    let h = lock.add_node(MCSNode::new());
    let a = lock.add_node(MCSNode::new());
    let b = lock.add_node(MCSNode::new());
    let gh = lock.lock(h);
    assert_eq!(lock.enqueue(a), Some(h));
    assert_eq!(lock.enqueue(b), Some(a));
    // `a` has not linked itself yet: the holder must wait for it.
    assert!(!lock.unlock(gh));
    assert!(!lock.finish_unlock(h));
    lock.link(a, h);
    lock.link(b, a);
    assert!(lock.try_acquire(b).is_none());
    assert!(lock.try_acquire(a).is_none());
    assert!(lock.finish_unlock(h));
    assert!(lock.try_acquire(b).is_none());
    let ga = lock.try_acquire(a).unwrap();
    assert_eq!(ga.node(), a);
    assert!(lock.unlock(ga));
    let gb = lock.try_acquire(b).unwrap();
    assert_eq!(gb.node(), b);
    assert!(lock.unlock(gb));
}
