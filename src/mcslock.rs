use vstd::prelude::*;

verus! {

/// The queue entry of one acquisition: `next` is the successor's address,
/// written by the successor; `locked` is set while its owner must spin.
pub struct MCSNode {
    pub next: Option<usize>,
    pub locked: bool,
}

impl MCSNode {
    /// A node with no successor and not locked.
    pub fn new() -> (r: Self)
        ensures
            r.next is None,
            !r.locked,
    {
        MCSNode { next: None, locked: false }
    }
}

impl Default for MCSNode {
    fn default() -> (r: Self)
        ensures
            r.next is None,
            !r.locked,
    {
        MCSNode::new()
    }
}

/// Where the owner of one node stands.
pub enum NodePhase {
    /// Not in the queue.
    Idle,
    /// Swapped into `tail` behind a predecessor, not yet linked to it.
    Linking,
    /// Spins on its own `locked` flag.
    Spinning,
    /// Inside the critical section.
    Holding,
    /// Releasing, waiting for a successor that is still linking itself.
    Releasing,
}

/// An MCS queue lock. Nodes live at stable addresses, their indices in
/// `nodes`; `tail` is the last queued node. The ghost `queue` lists the
/// queued nodes from the head, which owns the lock, to the tail.
pub struct MCSLock<T> {
    tail: Option<usize>,
    nodes: Vec<MCSNode>,
    data: T,
    phases: Ghost<Seq<NodePhase>>,
    queue: Ghost<Seq<usize>>,
}

/// Evidence that its node holds the lock; `unlock` consumes it.
pub struct MCSLockGuard {
    node: usize,
}

impl MCSLockGuard {
    pub closed spec fn node_spec(&self) -> nat {
        self.node as nat
    }

    /// The node this guard was granted to.
    pub fn node(&self) -> (r: usize)
        ensures
            r == self.node_spec(),
    {
        self.node
    }
}

/// The head of the queue holds, releases, or spins with its flag cleared.
pub open spec fn head_ok(p: NodePhase, n: MCSNode) -> bool {
    p == NodePhase::Holding || p == NodePhase::Releasing || (p == NodePhase::Spinning && !n.locked)
}

/// What holds of the `k`-th queued node: its phase, and that its `next`
/// names the following node once that one has linked itself.
pub open spec fn entry_ok(
    nodes: Seq<MCSNode>,
    phases: Seq<NodePhase>,
    q: Seq<usize>,
    k: int,
) -> bool {
    let n = q[k] as int;
    &&& if k == 0 {
        head_ok(phases[n], nodes[n])
    } else {
        phases[n] == NodePhase::Linking || (phases[n] == NodePhase::Spinning && nodes[n].locked)
    }
    &&& if k + 1 < q.len() {
        nodes[n].next == if phases[q[k + 1] as int] == NodePhase::Linking {
            None::<usize>
        } else {
            Some(q[k + 1])
        }
    } else {
        nodes[n].next is None
    }
}

/// See `MCSLock::wf`.
pub open spec fn state_wf(
    tail: Option<usize>,
    nodes: Seq<MCSNode>,
    phases: Seq<NodePhase>,
    q: Seq<usize>,
) -> bool {
    &&& phases.len() == nodes.len()
    &&& nodes.len() <= usize::MAX
    &&& forall|k: int| 0 <= k < q.len() ==> #[trigger] q[k] < nodes.len()
    &&& forall|a: int, b: int|
        0 <= a < q.len() && 0 <= b < q.len() && #[trigger] q[a] == #[trigger] q[b] ==> a == b
    &&& forall|n: int|
        0 <= n < nodes.len() && #[trigger] phases[n] != NodePhase::Idle ==> q.contains(n as usize)
    &&& forall|k: int| 0 <= k < q.len() ==> #[trigger] entry_ok(nodes, phases, q, k)
    &&& forall|k: int| 0 <= k < q.len() ==> phases[#[trigger] q[k] as int] != NodePhase::Idle
    &&& q.len() > 0 && phases[q[0] as int] == NodePhase::Releasing ==> q.len() > 1
    &&& if q.len() == 0 {
        tail is None
    } else {
        tail == Some(q.last())
    }
}

impl<T> MCSLock<T> {
    pub closed spec fn tail(&self) -> Option<usize> {
        self.tail
    }

    pub closed spec fn nodes(&self) -> Seq<MCSNode> {
        self.nodes@
    }

    pub closed spec fn value(&self) -> T {
        self.data
    }

    pub closed spec fn phases(&self) -> Seq<NodePhase> {
        self.phases@
    }

    /// The queued nodes, in the order of their swaps into `tail`.
    pub closed spec fn queue(&self) -> Seq<usize> {
        self.queue@
    }

    pub open spec fn phase(&self, n: nat) -> NodePhase {
        self.phases()[n as int]
    }

    pub open spec fn is_holding(&self, n: nat) -> bool {
        n < self.nodes().len() && self.phase(n) == NodePhase::Holding
    }

    /// `me` was swapped into `tail` right behind `prev` and has not linked yet.
    pub open spec fn linked_behind(&self, me: usize, prev: usize) -> bool {
        &&& me < self.nodes().len()
        &&& self.phase(me as nat) == NodePhase::Linking
        &&& exists|k: int|
            1 <= k < self.queue().len() && #[trigger] self.queue()[k] == me && self.queue()[k - 1]
                == prev
    }

    /// `self` is `pre` after `me`, at the head, passed the lock to `n`.
    pub open spec fn handed_off(&self, pre: &Self, me: usize, n: usize) -> bool {
        &&& pre.queue().len() > 1
        &&& pre.queue()[0] == me
        &&& pre.queue()[1] == n
        &&& self.queue() == pre.queue().drop_first()
        &&& self.phases() == pre.phases().update(me as int, NodePhase::Idle)
        &&& self.nodes() == pre.nodes().update(
            n as int,
            MCSNode { next: pre.nodes()[n as int].next, locked: false },
        )
        &&& self.tail() == pre.tail()
        &&& self.value() == pre.value()
    }

    /// The queue is linked as described at `entry_ok`, `tail` is its last
    /// node, and exactly the queued nodes are not idle.
    pub open spec fn wf(&self) -> bool {
        state_wf(self.tail(), self.nodes(), self.phases(), self.queue())
    }

    /// A free lock guarding `v`, with no nodes yet.
    pub fn new(v: T) -> (r: Self)
        ensures
            r.wf(),
            r.tail() is None,
            r.nodes().len() == 0,
            r.queue().len() == 0,
            r.value() == v,
    {
        MCSLock {
            tail: None,
            nodes: Vec::new(),
            data: v,
            phases: Ghost(Seq::empty()),
            queue: Ghost(Seq::empty()),
        }
    }

    /// Gives `node` a stable address, which is returned.
    pub fn add_node(&mut self, node: MCSNode) -> (id: usize)
        requires
            old(self).wf(),
            old(self).nodes().len() < usize::MAX,
        ensures
            final(self).wf(),
            id == old(self).nodes().len(),
            final(self).nodes() == old(self).nodes().push(node),
            final(self).phases() == old(self).phases().push(NodePhase::Idle),
            final(self).tail() == old(self).tail(),
            final(self).queue() == old(self).queue(),
            final(self).value() == old(self).value(),
    {
        let id: usize = self.nodes.len();
        self.nodes.push(node);
        self.phases = Ghost(self.phases@.push(NodePhase::Idle));
        let ghost q = self.queue@;
        assert forall|k: int| 0 <= k < q.len() implies #[trigger] entry_ok(
            self.nodes@,
            self.phases@,
            q,
            k,
        ) by {
            assert(entry_ok(old(self).nodes(), old(self).phases(), q, k));
        }
        assert forall|n: int|
            0 <= n < self.nodes@.len() && #[trigger] self.phases@[n]
                != NodePhase::Idle implies q.contains(n as usize) by {
            assert(old(self).phases()[n] != NodePhase::Idle);
        }
        id
    }

    /// The start of an acquisition by `me`: clears its node and swaps it into
    /// `tail`, returning the previous tail. Without one the lock was free and
    /// `me` heads the queue; otherwise it must still link itself behind it.
    pub fn enqueue(&mut self, me: usize) -> (prev: Option<usize>)
        requires
            old(self).wf(),
            me < old(self).nodes().len(),
            old(self).phase(me as nat) == NodePhase::Idle,
        ensures
            final(self).wf(),
            prev == old(self).tail(),
            final(self).tail() == Some(me),
            final(self).queue() == old(self).queue().push(me),
            final(self).nodes() == old(self).nodes().update(
                me as int,
                MCSNode { next: None, locked: false },
            ),
            final(self).phases() == old(self).phases().update(
                me as int,
                if prev is None {
                    NodePhase::Spinning
                } else {
                    NodePhase::Linking
                },
            ),
            final(self).value() == old(self).value(),
    {
        self.nodes.set(me, MCSNode { next: None, locked: false });
        let prev: Option<usize> = self.tail;
        self.tail = Some(me);
        let ghost p = if prev is None {
            NodePhase::Spinning
        } else {
            NodePhase::Linking
        };
        let ghost oq = self.queue@;
        self.phases = Ghost(self.phases@.update(me as int, p));
        self.queue = Ghost(self.queue@.push(me));
        proof {
            let nq = self.queue@;
            let on = old(self).nodes();
            let op = old(self).phases();
            assert forall|k: int| 0 <= k < oq.len() implies oq[k] != me by {
                assert(op[oq[k] as int] != NodePhase::Idle);
            }
            assert forall|k: int| 0 <= k < nq.len() implies #[trigger] nq[k] < self.nodes@.len() by {
                if k < oq.len() {
                    assert(oq[k] < on.len());
                }
            }
            assert forall|a: int, b: int|
                0 <= a < nq.len() && 0 <= b < nq.len() && #[trigger] nq[a] == #[trigger] nq[b] implies a
                == b by {
                if a < oq.len() && b < oq.len() {
                    assert(oq[a] == oq[b]);
                } else if a < oq.len() {
                    assert(oq[a] != me);
                } else if b < oq.len() {
                    assert(oq[b] != me);
                }
            }
            assert forall|n: int|
                0 <= n < self.nodes@.len() && #[trigger] self.phases@[n]
                    != NodePhase::Idle implies nq.contains(n as usize) by {
                if n == me {
                    assert(nq[oq.len() as int] == me);
                } else {
                    assert(op[n] != NodePhase::Idle);
                    let k = choose|k: int| 0 <= k < oq.len() && oq[k] == n as usize;
                    assert(nq[k] == n as usize);
                }
            }
            assert forall|k: int| 0 <= k < nq.len() implies #[trigger] entry_ok(
                self.nodes@,
                self.phases@,
                nq,
                k,
            ) by {
                if k < oq.len() {
                    assert(entry_ok(on, op, oq, k));
                    assert(nq[k] == oq[k]);
                    if k + 1 < oq.len() {
                        assert(nq[k + 1] == oq[k + 1]);
                        assert(oq[k + 1] != me);
                    }
                }
            }
            assert forall|k: int| 0 <= k < nq.len() implies self.phases@[#[trigger] nq[k] as int]
                != NodePhase::Idle by {
                if k < oq.len() {
                    assert(op[oq[k] as int] != NodePhase::Idle);
                    assert(oq[k] != me);
                }
            }
            if oq.len() > 0 {
                assert(oq[0] != me);
            }
        }
        prev
    }

    /// `me`, already swapped in behind `prev`, marks its node locked and
    /// publishes itself as `prev`'s successor; then it spins. The two stores
    /// are one step: nobody reads `me`'s flag before the link is published.
    pub fn link(&mut self, me: usize, prev: usize)
        requires
            old(self).wf(),
            old(self).linked_behind(me, prev),
        ensures
            final(self).wf(),
            final(self).nodes() == old(self).nodes().update(
                me as int,
                MCSNode { next: old(self).nodes()[me as int].next, locked: true },
            ).update(
                prev as int,
                MCSNode { next: Some(me), locked: old(self).nodes()[prev as int].locked },
            ),
            final(self).phases() == old(self).phases().update(me as int, NodePhase::Spinning),
            final(self).tail() == old(self).tail(),
            final(self).queue() == old(self).queue(),
            final(self).value() == old(self).value(),
    {
        let ghost q = self.queue@;
        let ghost on = self.nodes@;
        let ghost op = self.phases@;
        let ghost k = choose|k: int| 1 <= k < q.len() && #[trigger] q[k] == me && q[k - 1] == prev;
        proof {
            assert(q[k] < on.len() && q[k - 1] < on.len());
            assert(entry_ok(on, op, q, k - 1));
        }
        let me_next: Option<usize> = self.nodes[me].next;
        self.nodes.set(me, MCSNode { next: me_next, locked: true });
        let prev_locked: bool = self.nodes[prev].locked;
        self.nodes.set(prev, MCSNode { next: Some(me), locked: prev_locked });
        self.phases = Ghost(self.phases@.update(me as int, NodePhase::Spinning));
        proof {
            assert forall|j: int| 0 <= j < q.len() implies #[trigger] entry_ok(
                self.nodes@,
                self.phases@,
                q,
                j,
            ) by {
                assert(entry_ok(on, op, q, j));
                if j != k && j != k - 1 {
                    assert(q[j] != me && q[j] != prev);
                    if j + 1 < q.len() {
                        assert(q[j + 1] != me);
                    }
                }
                if j == k && j + 1 < q.len() {
                    assert(q[j + 1] != me);
                }
            }
            assert forall|n: int|
                0 <= n < self.nodes@.len() && #[trigger] self.phases@[n]
                    != NodePhase::Idle implies q.contains(n as usize) by {
                if n != me {
                    assert(op[n] != NodePhase::Idle);
                }
            }
            assert forall|j: int| 0 <= j < q.len() implies self.phases@[#[trigger] q[j] as int]
                != NodePhase::Idle by {
                assert(op[q[j] as int] != NodePhase::Idle);
            }
            if q[0] == me {
                assert(k == 0);
            }
        }
    }

    /// One round of the spin of `me` on its own flag: it holds the lock once
    /// its predecessor has cleared the flag (or there was none).
    pub fn try_acquire(&mut self, me: usize) -> (r: Option<MCSLockGuard>)
        requires
            old(self).wf(),
            me < old(self).nodes().len(),
            old(self).phase(me as nat) == NodePhase::Spinning,
        ensures
            final(self).wf(),
            r is Some <==> !old(self).nodes()[me as int].locked,
            r matches Some(g) ==> g.node_spec() == me,
            final(self).phases() == if r is Some {
                old(self).phases().update(me as int, NodePhase::Holding)
            } else {
                old(self).phases()
            },
            final(self).nodes() == old(self).nodes(),
            final(self).tail() == old(self).tail(),
            final(self).queue() == old(self).queue(),
            final(self).value() == old(self).value(),
    {
        if self.nodes[me].locked {
            return None;
        }
        proof {
            lemma_head(self.tail, self.nodes@, self.phases@, self.queue@, me as int);
        }
        let ghost q = self.queue@;
        let ghost op = self.phases@;
        self.phases = Ghost(self.phases@.update(me as int, NodePhase::Holding));
        proof {
            assert forall|j: int| 0 <= j < q.len() implies #[trigger] entry_ok(
                self.nodes@,
                self.phases@,
                q,
                j,
            ) by {
                assert(entry_ok(self.nodes@, op, q, j));
                if j > 0 {
                    assert(q[j] != q[0]);
                }
                if j + 1 < q.len() {
                    assert(q[j + 1] != q[0]);
                }
            }
            assert forall|n: int|
                0 <= n < self.nodes@.len() && #[trigger] self.phases@[n]
                    != NodePhase::Idle implies q.contains(n as usize) by {
                if n != me {
                    assert(op[n] != NodePhase::Idle);
                }
            }
            assert forall|j: int| 0 <= j < q.len() implies self.phases@[#[trigger] q[j] as int]
                != NodePhase::Idle by {
                assert(op[q[j] as int] != NodePhase::Idle);
            }
        }
        Some(MCSLockGuard { node: me })
    }
    /// Acquires a lock that nobody holds or waits for, with the node at
    /// `node`: swaps it into `tail`, finds no predecessor, and holds.
    pub fn lock(&mut self, node: usize) -> (g: MCSLockGuard)
        requires
            old(self).wf(),
            node < old(self).nodes().len(),
            old(self).phase(node as nat) == NodePhase::Idle,
            old(self).tail() is None,
        ensures
            final(self).wf(),
            g.node_spec() == node,
            final(self).is_holding(node as nat),
            final(self).tail() == Some(node),
            final(self).queue() == seq![node],
            final(self).nodes() == old(self).nodes().update(
                node as int,
                MCSNode { next: None, locked: false },
            ),
            final(self).value() == old(self).value(),
    {
        let prev: Option<usize> = self.enqueue(node);
        proof {
            assert(self.queue@ =~= seq![node]);
        }
        loop
            invariant
                self.wf(),
                node < self.nodes().len(),
                node < old(self).nodes().len(),
                self.phase(node as nat) == NodePhase::Spinning,
                !self.nodes()[node as int].locked,
                self.tail() == Some(node),
                self.queue() == seq![node],
                self.nodes() == old(self).nodes().update(
                    node as int,
                    MCSNode { next: None, locked: false },
                ),
                self.value() == old(self).value(),
            decreases 1int,
        {
            match self.try_acquire(node) {
                Some(g) => {
                    return g;
                },
                None => {},
            }
        }
    }

    /// The guarded value, read while holding the lock.
    pub fn get(&self, g: &MCSLockGuard) -> (r: &T)
        requires
            self.wf(),
            self.is_holding(g.node_spec()),
        ensures
            *r == self.value(),
    {
        &self.data
    }

    /// The guarded value, for writing while holding the lock.
    pub fn get_mut(&mut self, g: &MCSLockGuard) -> (r: &mut T)
        requires
            old(self).wf(),
            old(self).is_holding(g.node_spec()),
        ensures
            *r == old(self).value(),
            final(self).value() == *final(r),
            final(self).wf(),
            final(self).tail() == old(self).tail(),
            final(self).nodes() == old(self).nodes(),
            final(self).phases() == old(self).phases(),
            final(self).queue() == old(self).queue(),
    {
        &mut self.data
    }

    /// `me` heads the queue and passes the lock to its linked successor `n`
    /// by clearing `n`'s flag; `me` leaves the queue.
    fn hand_off(&mut self, me: usize, n: usize)
        requires
            old(self).wf(),
            old(self).queue().len() > 0,
            old(self).queue()[0] == me,
            old(self).phase(me as nat) == NodePhase::Holding || old(self).phase(me as nat)
                == NodePhase::Releasing,
            old(self).nodes()[me as int].next == Some(n),
        ensures
            final(self).wf(),
            final(self).handed_off(old(self), me, n),
    {
        let ghost q = self.queue@;
        let ghost on = self.nodes@;
        let ghost op = self.phases@;
        proof {
            assert(q[0] < on.len());
            assert(entry_ok(on, op, q, 0));
            assert(q.len() > 1);
            assert(q[1] < on.len());
            assert(entry_ok(on, op, q, 1));
        }
        let n_next: Option<usize> = self.nodes[n].next;
        self.nodes.set(n, MCSNode { next: n_next, locked: false });
        self.phases = Ghost(self.phases@.update(me as int, NodePhase::Idle));
        self.queue = Ghost(self.queue@.drop_first());
        proof {
            let nq = self.queue@;
            assert forall|j: int| 0 <= j < nq.len() implies #[trigger] nq[j] < self.nodes@.len() by {
                assert(q[j + 1] < on.len());
            }
            assert forall|a: int, b: int|
                0 <= a < nq.len() && 0 <= b < nq.len() && #[trigger] nq[a] == #[trigger] nq[b] implies a
                == b by {
                assert(q[a + 1] == q[b + 1]);
            }
            assert forall|j: int| 0 <= j < nq.len() implies #[trigger] entry_ok(
                self.nodes@,
                self.phases@,
                nq,
                j,
            ) by {
                assert(entry_ok(on, op, q, j + 1));
                assert(nq[j] == q[j + 1]);
                assert(q[j + 1] != q[0]);
                if j > 0 {
                    assert(q[j + 1] != q[1]);
                }
                if j + 1 < nq.len() {
                    assert(nq[j + 1] == q[j + 2]);
                    assert(q[j + 2] != q[0]);
                }
            }
            assert forall|j: int| 0 <= j < nq.len() implies self.phases@[#[trigger] nq[j] as int]
                != NodePhase::Idle by {
                assert(op[q[j + 1] as int] != NodePhase::Idle);
                assert(q[j + 1] != q[0]);
            }
            assert forall|m: int|
                0 <= m < self.nodes@.len() && #[trigger] self.phases@[m]
                    != NodePhase::Idle implies nq.contains(m as usize) by {
                assert(op[m] != NodePhase::Idle);
                let k = choose|k: int| 0 <= k < q.len() && q[k] == m as usize;
                assert(k != 0);
                assert(nq[k - 1] == m as usize);
            }
            assert(nq.last() == q.last());
        }
    }

    /// Releases the lock held by `g`, consuming the guard. If the node has a
    /// successor, the lock is handed to it; if it is the tail, `tail` is
    /// cleared (compare and swap from the node to empty). Otherwise a
    /// successor is still linking itself: the node goes on releasing through
    /// `finish_unlock`, and `false` is returned. Reading `next` and the
    /// compare and swap are one step: a swap into `tail` between them makes
    /// the compare and swap fail, as it does here.
    pub fn unlock(&mut self, g: MCSLockGuard) -> (done: bool)
        requires
            old(self).wf(),
            old(self).is_holding(g.node_spec()),
        ensures
            final(self).wf(),
            old(self).queue().len() > 0,
            old(self).queue()[0] == g.node_spec(),
            ({
                let me = g.node_spec() as int;
                match old(self).nodes()[me].next {
                    Some(n) => done && final(self).handed_off(old(self), me as usize, n),
                    None => if old(self).tail() == Some(me as usize) {
                        &&& done
                        &&& final(self).tail() is None
                        &&& final(self).queue().len() == 0
                        &&& final(self).phases() == old(self).phases().update(me, NodePhase::Idle)
                        &&& final(self).nodes() == old(self).nodes()
                        &&& final(self).value() == old(self).value()
                    } else {
                        &&& !done
                        &&& final(self).tail() == old(self).tail()
                        &&& final(self).queue() == old(self).queue()
                        &&& final(self).phases() == old(self).phases().update(
                            me,
                            NodePhase::Releasing,
                        )
                        &&& final(self).nodes() == old(self).nodes()
                        &&& final(self).value() == old(self).value()
                    },
                }
            }),
    {
        let me: usize = g.node;
        proof {
            lemma_head(self.tail, self.nodes@, self.phases@, self.queue@, me as int);
        }
        match self.nodes[me].next {
            Some(n) => {
                self.hand_off(me, n);
                true
            },
            None => {
                let ghost q = self.queue@;
                let ghost op = self.phases@;
                if self.tail == Some(me) {
                    proof {
                        assert(q[q.len() - 1] == q[0]);
                        assert forall|m: int|
                            0 <= m < self.nodes@.len() && #[trigger] op[m] != NodePhase::Idle implies m
                            == me by {
                            let k = choose|k: int| 0 <= k < q.len() && q[k] == m as usize;
                        }
                    }
                    self.tail = None;
                    self.phases = Ghost(self.phases@.update(me as int, NodePhase::Idle));
                    self.queue = Ghost(Seq::empty());
                    proof {
                        assert forall|m: int|
                            0 <= m < self.nodes@.len() && #[trigger] self.phases@[m]
                                != NodePhase::Idle implies self.queue@.contains(m as usize) by {
                            assert(op[m] != NodePhase::Idle);
                        }
                    }
                    true
                } else {
                    proof {
                        assert(q.len() != 1);
                    }
                    self.phases = Ghost(self.phases@.update(me as int, NodePhase::Releasing));
                    proof {
                        lemma_update_head(self.tail, self.nodes@, op, q, NodePhase::Releasing);
                    }
                    false
                }
            },
        }
    }

    /// One more round of a release that found its successor still linking:
    /// once the successor has linked itself, the lock is handed to it.
    pub fn finish_unlock(&mut self, me: usize) -> (done: bool)
        requires
            old(self).wf(),
            me < old(self).nodes().len(),
            old(self).phase(me as nat) == NodePhase::Releasing,
        ensures
            final(self).wf(),
            old(self).queue().len() > 1,
            old(self).queue()[0] == me,
            match old(self).nodes()[me as int].next {
                Some(n) => done && final(self).handed_off(old(self), me, n),
                None => !done && *final(self) == *old(self),
            },
    {
        proof {
            lemma_head(self.tail, self.nodes@, self.phases@, self.queue@, me as int);
        }
        match self.nodes[me].next {
            Some(n) => {
                self.hand_off(me, n);
                true
            },
            None => false,
        }
    }
}

/// Changing the phase of the head to another phase allowed there keeps the
/// queue well formed.
pub proof fn lemma_update_head(
    tail: Option<usize>,
    nodes: Seq<MCSNode>,
    phases: Seq<NodePhase>,
    q: Seq<usize>,
    p: NodePhase,
)
    requires
        state_wf(tail, nodes, phases, q),
        q.len() > 1,
        head_ok(phases[q[0] as int], nodes[q[0] as int]),
        head_ok(p, nodes[q[0] as int]),
        p != NodePhase::Idle,
        p != NodePhase::Linking,
    ensures
        state_wf(tail, nodes, phases.update(q[0] as int, p), q),
{
    let np = phases.update(q[0] as int, p);
    assert(q[0] < nodes.len());
    assert forall|j: int| 0 <= j < q.len() implies #[trigger] entry_ok(nodes, np, q, j) by {
        assert(entry_ok(nodes, phases, q, j));
        if j > 0 {
            assert(q[j] != q[0]);
        }
        if j + 1 < q.len() {
            assert(q[j + 1] != q[0]);
        }
    }
    assert forall|m: int| 0 <= m < nodes.len() && #[trigger] np[m] != NodePhase::Idle implies q.contains(
        m as usize,
    ) by {
        if m != q[0] {
            assert(phases[m] != NodePhase::Idle);
        } else {
            assert(q[0] == m as usize);
        }
    }
    assert forall|j: int| 0 <= j < q.len() implies np[#[trigger] q[j] as int] != NodePhase::Idle by {
        assert(phases[q[j] as int] != NodePhase::Idle);
    }
}

/// A node that holds, releases, or spins with a cleared flag heads the queue.
pub proof fn lemma_head(
    tail: Option<usize>,
    nodes: Seq<MCSNode>,
    phases: Seq<NodePhase>,
    q: Seq<usize>,
    n: int,
)
    requires
        state_wf(tail, nodes, phases, q),
        0 <= n < nodes.len(),
        phases[n] == NodePhase::Holding || phases[n] == NodePhase::Releasing || (phases[n]
            == NodePhase::Spinning && !nodes[n].locked),
    ensures
        q.len() > 0,
        q[0] == n,
{
    assert(phases[n] != NodePhase::Idle);
    assert(q.contains(n as usize));
    let k = choose|k: int| 0 <= k < q.len() && q[k] == n as usize;
    assert(q[k] as int == n);
    assert(entry_ok(nodes, phases, q, k));
    assert(k == 0);
}

/// Mutual exclusion: in every well-formed state, which each step preserves
/// whatever the interleaving, at most one node holds the lock.
pub proof fn lemma_mutual_exclusion<T>(l: &MCSLock<T>, a: nat, b: nat)
    requires
        l.wf(),
        l.is_holding(a),
        l.is_holding(b),
    ensures
        a == b,
{
    lemma_head(l.tail(), l.nodes(), l.phases(), l.queue(), a as int);
    lemma_head(l.tail(), l.nodes(), l.phases(), l.queue(), b as int);
}

/// First come, first served: the queue is in the order of the swaps into
/// `tail` (`enqueue` appends, a release removes the head), and a node behind
/// the head does not hold the lock; it is still linking or spinning.
pub proof fn lemma_fifo<T>(l: &MCSLock<T>, j: int)
    requires
        l.wf(),
        0 < j < l.queue().len(),
    ensures
        !l.is_holding(l.queue()[j] as nat),
        l.phase(l.queue()[j] as nat) == NodePhase::Linking || l.phase(l.queue()[j] as nat)
            == NodePhase::Spinning,
{
    assert(entry_ok(l.nodes(), l.phases(), l.queue(), j));
}

} // verus!
