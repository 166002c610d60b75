use vstd::prelude::*;

verus! {

/// The number of participant slots of a fair lock.
pub const NUM_LOCK: usize = 8;

/// Where the participant of one slot stands.
pub enum SlotPhase {
    /// Not trying to take the lock.
    Idle,
    /// Has announced itself in `waiting` and spins.
    Requesting,
    /// Is inside the critical section.
    Holding,
}

/// A fair lock over `NUM_LOCK` slots: `waiting[i]` is set while slot `i` asks
/// for the lock (and cleared by a releaser to hand the lock over), `locked` is
/// the flag of the uncontended path, and `turn` the slot served first.
pub struct FairLock<T> {
    waiting: Vec<bool>,
    locked: bool,
    turn: usize,
    data: T,
    phases: Ghost<Seq<SlotPhase>>,
}

/// Evidence that its slot holds the lock; `unlock` consumes it.
pub struct FairLockGuard {
    idx: usize,
}

/// The slot after `i` in the ring.
pub open spec fn succ(i: nat) -> nat {
    (i + 1) % (NUM_LOCK as nat)
}

/// A slot owns the lock when it holds it, or when a releaser has handed the
/// lock to it and it has not yet noticed.
pub open spec fn owns(phases: Seq<SlotPhase>, waiting: Seq<bool>, i: int) -> bool {
    phases[i] == SlotPhase::Holding || (phases[i] == SlotPhase::Requesting && !waiting[i])
}

/// See `FairLock::wf`.
pub open spec fn state_wf(
    waiting: Seq<bool>,
    locked: bool,
    turn: nat,
    phases: Seq<SlotPhase>,
) -> bool {
    &&& waiting.len() == NUM_LOCK
    &&& phases.len() == NUM_LOCK
    &&& turn < NUM_LOCK
    &&& forall|i: int| 0 <= i < NUM_LOCK && #[trigger] phases[i] == SlotPhase::Idle ==> !waiting[i]
    &&& forall|i: int| 0 <= i < NUM_LOCK && #[trigger] owns(phases, waiting, i) ==> locked
    &&& forall|i: int, j: int|
        0 <= i < NUM_LOCK && 0 <= j < NUM_LOCK && #[trigger] owns(phases, waiting, i)
            && #[trigger] owns(phases, waiting, j) ==> i == j
}

impl FairLockGuard {
    pub closed spec fn slot(&self) -> nat {
        self.idx as nat
    }

    /// The slot this guard was granted to.
    pub fn idx(&self) -> (r: usize)
        ensures
            r == self.slot(),
    {
        self.idx
    }
}

impl<T> FairLock<T> {
    pub closed spec fn waiting(&self) -> Seq<bool> {
        self.waiting@
    }

    pub closed spec fn locked(&self) -> bool {
        self.locked
    }

    pub closed spec fn turn(&self) -> nat {
        self.turn as nat
    }

    pub closed spec fn value(&self) -> T {
        self.data
    }

    pub closed spec fn phases(&self) -> Seq<SlotPhase> {
        self.phases@
    }

    pub open spec fn is_holding(&self, i: nat) -> bool {
        i < NUM_LOCK && self.phases()[i as int] == SlotPhase::Holding
    }

    /// `self` is `pre` after slot `s` released the lock (see `unlock`).
    pub open spec fn released(&self, pre: &Self, s: nat) -> bool {
        let next = if pre.turn() == s {
            succ(s)
        } else {
            pre.turn()
        };
        let w = pre.waiting().update(s as int, false);
        &&& self.value() == pre.value()
        &&& self.phases() == pre.phases().update(s as int, SlotPhase::Idle)
        &&& if w[next as int] {
            &&& self.turn() == next
            &&& self.waiting() == w.update(next as int, false)
            &&& self.locked()
            &&& owns(self.phases(), self.waiting(), next as int)
        } else {
            &&& self.turn() == succ(next)
            &&& self.waiting() == w
            &&& !self.locked()
        }
    }

    /// An idle slot never waits, an owner exists only while `locked` is set,
    /// and no two slots own the lock.
    pub open spec fn wf(&self) -> bool {
        state_wf(self.waiting(), self.locked(), self.turn(), self.phases())
    }

    /// A free lock guarding `v`: no slot waits and the turn is at slot 0.
    pub fn new(v: T) -> (r: Self)
        ensures
            r.wf(),
            r.waiting() == Seq::new(NUM_LOCK as nat, |i: int| false),
            !r.locked(),
            r.turn() == 0,
            r.value() == v,
            r.phases() == Seq::new(NUM_LOCK as nat, |i: int| SlotPhase::Idle),
    {
        let mut waiting: Vec<bool> = Vec::new();
        for i in 0..NUM_LOCK
            invariant
                waiting@ == Seq::new(i as nat, |k: int| false),
        {
            waiting.push(false);
        }
        let r = FairLock {
            waiting,
            locked: false,
            turn: 0,
            data: v,
            phases: Ghost(Seq::new(NUM_LOCK as nat, |i: int| SlotPhase::Idle)),
        };
        assert(r.waiting() =~= Seq::new(NUM_LOCK as nat, |i: int| false));
        r
    }

    /// Slot `idx` announces that it wants the lock (`waiting[idx] = true`).
    pub fn request(&mut self, idx: usize)
        requires
            old(self).wf(),
            idx < NUM_LOCK,
            old(self).phases()[idx as int] == SlotPhase::Idle,
        ensures
            final(self).wf(),
            final(self).waiting() == old(self).waiting().update(idx as int, true),
            final(self).phases() == old(self).phases().update(idx as int, SlotPhase::Requesting),
            final(self).locked() == old(self).locked(),
            final(self).turn() == old(self).turn(),
            final(self).value() == old(self).value(),
    {
        self.waiting.set(idx, true);
        self.phases = Ghost(self.phases@.update(idx as int, SlotPhase::Requesting));
        let ghost (op, ow) = (old(self).phases(), old(self).waiting());
        let ghost (np, nw) = (self.phases(), self.waiting());
        assert forall|i: int, j: int|
            0 <= i < NUM_LOCK && 0 <= j < NUM_LOCK && #[trigger] owns(np, nw, i) && #[trigger] owns(
                np,
                nw,
                j,
            ) implies i == j by {
            assert(owns(op, ow, i) && owns(op, ow, j));
        }
        assert forall|i: int| 0 <= i < NUM_LOCK && #[trigger] owns(np, nw, i) implies self.locked() by {
            assert(owns(op, ow, i));
        }
    }

    /// One round of the spin of a requesting slot: it is granted the lock if
    /// a releaser has cleared its `waiting` flag, or if it sets the free
    /// `locked` flag itself (compare and swap from false to true).
    pub fn try_acquire(&mut self, idx: usize) -> (r: Option<FairLockGuard>)
        requires
            old(self).wf(),
            idx < NUM_LOCK,
            old(self).phases()[idx as int] == SlotPhase::Requesting,
        ensures
            final(self).wf(),
            r is Some <==> (!old(self).waiting()[idx as int] || !old(self).locked()),
            r matches Some(g) ==> g.slot() == idx,
            final(self).waiting() == old(self).waiting(),
            final(self).locked() == (old(self).locked() || r is Some),
            final(self).turn() == old(self).turn(),
            final(self).value() == old(self).value(),
            final(self).phases() == if r is Some {
                old(self).phases().update(idx as int, SlotPhase::Holding)
            } else {
                old(self).phases()
            },
    {
        if !self.waiting[idx] {
            proof {
                assert(owns(old(self).phases(), old(self).waiting(), idx as int));
            }
            self.phases = Ghost(self.phases@.update(idx as int, SlotPhase::Holding));
            let ghost (np, nw) = (self.phases(), self.waiting());
            assert forall|i: int| 0 <= i < NUM_LOCK && #[trigger] owns(np, nw, i) implies owns(
                old(self).phases(),
                old(self).waiting(),
                i,
            ) by {}
            return Some(FairLockGuard { idx });
        }
        if !self.locked {
            self.locked = true;
            self.phases = Ghost(self.phases@.update(idx as int, SlotPhase::Holding));
            let ghost (np, nw) = (self.phases(), self.waiting());
            assert forall|i: int| 0 <= i < NUM_LOCK && #[trigger] owns(np, nw, i) implies i == idx by {
                if i != idx {
                    assert(owns(old(self).phases(), old(self).waiting(), i));
                }
            }
            return Some(FairLockGuard { idx });
        }
        None
    }

    /// Acquires the lock for slot `idx` while nobody else holds it: announces
    /// the slot and spins, and the first round takes the free `locked` flag.
    pub fn lock(&mut self, idx: usize) -> (g: FairLockGuard)
        requires
            old(self).wf(),
            idx < NUM_LOCK,
            old(self).phases()[idx as int] == SlotPhase::Idle,
            !old(self).locked(),
        ensures
            final(self).wf(),
            g.slot() == idx,
            final(self).is_holding(idx as nat),
            final(self).locked(),
            final(self).waiting() == old(self).waiting().update(idx as int, true),
            final(self).turn() == old(self).turn(),
            final(self).value() == old(self).value(),
    {
        self.request(idx);
        loop
            invariant
                self.wf(),
                idx < NUM_LOCK,
                self.phases()[idx as int] == SlotPhase::Requesting,
                !self.locked(),
                self.waiting() == old(self).waiting().update(idx as int, true),
                self.turn() == old(self).turn(),
                self.value() == old(self).value(),
            decreases 1int,
        {
            match self.try_acquire(idx) {
                Some(g) => {
                    return g;
                },
                None => {},
            }
        }
    }

    /// Releases the lock held by `g`. The slot stops waiting; the turn moves
    /// past the releaser; if the slot at the turn is waiting, the lock is
    /// handed to it directly and `locked` stays set, else that idle slot is
    /// skipped too and `locked` is cleared. The guard is consumed, so this
    /// happens once. The release is one step: its stores are made by the one
    /// owner, and a request that comes between its loads and stores has the
    /// same effect as one made just after it.
    pub fn unlock(&mut self, g: FairLockGuard)
        requires
            old(self).wf(),
            old(self).is_holding(g.slot()),
        ensures
            final(self).wf(),
            final(self).value() == old(self).value(),
            final(self).released(old(self), g.slot()),
    {
        let idx: usize = g.idx;
        proof {
            assert(owns(old(self).phases(), old(self).waiting(), idx as int));
        }
        self.waiting.set(idx, false);
        self.phases = Ghost(self.phases@.update(idx as int, SlotPhase::Idle));
        let turn: usize = self.turn;
        let next: usize = if turn == idx {
            (turn + 1) % NUM_LOCK
        } else {
            turn
        };
        if self.waiting[next] {
            proof {
                assert(next != idx);
                if old(self).phases()[next as int] == SlotPhase::Holding {
                    assert(owns(old(self).phases(), old(self).waiting(), next as int));
                }
            }
            self.turn = next;
            self.waiting.set(next, false);
            let ghost (np, nw) = (self.phases(), self.waiting());
            assert forall|i: int| 0 <= i < NUM_LOCK && #[trigger] owns(np, nw, i) implies i == next by {
                if i != next && i != idx {
                    assert(owns(old(self).phases(), old(self).waiting(), i));
                }
            }
        } else {
            self.turn = (next + 1) % NUM_LOCK;
            self.locked = false;
            let ghost (np, nw) = (self.phases(), self.waiting());
            assert forall|i: int| 0 <= i < NUM_LOCK && #[trigger] owns(np, nw, i) implies false by {
                if i != idx {
                    assert(owns(old(self).phases(), old(self).waiting(), i));
                }
            }
        }
    }

    /// The guarded value, read while holding the lock.
    pub fn get(&self, g: &FairLockGuard) -> (r: &T)
        requires
            self.wf(),
            self.is_holding(g.slot()),
        ensures
            *r == self.value(),
    {
        &self.data
    }

    /// The guarded value, for writing while holding the lock.
    pub fn get_mut(&mut self, g: &FairLockGuard) -> (r: &mut T)
        requires
            old(self).wf(),
            old(self).is_holding(g.slot()),
        ensures
            *r == old(self).value(),
            final(self).value() == *final(r),
            final(self).wf(),
            final(self).waiting() == old(self).waiting(),
            final(self).locked() == old(self).locked(),
            final(self).turn() == old(self).turn(),
            final(self).phases() == old(self).phases(),
    {
        &mut self.data
    }
}

/// Mutual exclusion: in every well-formed state, which each step preserves
/// whatever the interleaving, at most one slot holds the lock.
pub proof fn lemma_mutual_exclusion<T>(l: &FairLock<T>, a: nat, b: nat)
    requires
        l.wf(),
        l.is_holding(a),
        l.is_holding(b),
    ensures
        a == b,
{
    assert(owns(l.phases(), l.waiting(), a as int) && owns(l.phases(), l.waiting(), b as int));
}

/// How many steps round the ring slot `w` lies after slot `t`.
pub open spec fn ring_dist(t: nat, w: nat) -> nat {
    ((w + NUM_LOCK - t) % (NUM_LOCK as int)) as nat
}

/// A release never passes over a waiting slot: a slot `w` that waits while
/// another slot releases is either handed the lock, or the turn comes no
/// farther from it round the ring. It comes strictly closer, except when the
/// turn stays on a slot that is handed the lock and whose own release will
/// move the turn on.
pub proof fn lemma_release_skips_no_waiter<T>(pre: &FairLock<T>, post: &FairLock<T>, s: nat, w: nat)
    requires
        pre.wf(),
        pre.is_holding(s),
        post.released(pre, s),
        w < NUM_LOCK,
        w != s,
        pre.phases()[w as int] == SlotPhase::Requesting,
        pre.waiting()[w as int],
    ensures
        owns(post.phases(), post.waiting(), w as int) || ring_dist(post.turn(), w) < ring_dist(
            pre.turn(),
            w,
        ) || (post.turn() == pre.turn() && owns(post.phases(), post.waiting(), post.turn() as int)),
{
    let t = pre.turn();
    let next = if t == s {
        succ(s)
    } else {
        t
    };
    if w == next {
        assert(pre.waiting().update(s as int, false)[next as int]);
    }
}

} // verus!
