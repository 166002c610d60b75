use vstd::prelude::*;

verus! {

/// Where one acquisition of a ticket lock stands.
pub enum TicketPhase {
    /// The ticket was drawn; its owner spins until it is served.
    Waiting,
    /// The owner is inside the critical section.
    Holding,
    /// The owner has released the lock.
    Done,
}

/// A ticket lock: `issued` is the next ticket handed out, `serving` the ticket
/// that may proceed. Each acquisition is known by its ticket.
pub struct TicketLock<T> {
    issued: u64,
    serving: u64,
    data: T,
    phases: Ghost<Map<nat, TicketPhase>>,
}

/// Evidence that the ticket it carries holds the lock; `unlock` consumes it.
pub struct TicketLockGuard {
    ticket: u64,
}

impl TicketLockGuard {
    pub closed spec fn ticket_spec(&self) -> nat {
        self.ticket as nat
    }

    /// The ticket this guard was granted with.
    pub fn ticket(&self) -> (r: u64)
        ensures
            r == self.ticket_spec(),
    {
        self.ticket
    }
}

impl<T> TicketLock<T> {
    pub closed spec fn issued(&self) -> nat {
        self.issued as nat
    }

    pub closed spec fn serving(&self) -> nat {
        self.serving as nat
    }

    pub closed spec fn value(&self) -> T {
        self.data
    }

    /// The phase of every ticket drawn so far.
    pub closed spec fn phases(&self) -> Map<nat, TicketPhase> {
        self.phases@
    }

    pub open spec fn is_waiting(&self, t: nat) -> bool {
        self.phases().contains_key(t) && self.phases()[t] == TicketPhase::Waiting
    }

    pub open spec fn is_holding(&self, t: nat) -> bool {
        self.phases().contains_key(t) && self.phases()[t] == TicketPhase::Holding
    }

    pub open spec fn is_done(&self, t: nat) -> bool {
        self.phases().contains_key(t) && self.phases()[t] == TicketPhase::Done
    }

    /// Tickets below `serving` are done, the one at `serving` (if drawn) waits
    /// or holds, and every later one waits.
    pub open spec fn wf(&self) -> bool {
        phases_wf(self.issued(), self.serving(), self.phases())
    }

    /// No ticket is outstanding: the lock is free and nobody waits.
    pub open spec fn is_idle(&self) -> bool {
        self.issued() == self.serving()
    }

    /// A free lock guarding `v`.
    pub fn new(v: T) -> (r: Self)
        ensures
            r.wf(),
            r.issued() == 0,
            r.serving() == 0,
            r.value() == v,
    {
        TicketLock { issued: 0, serving: 0, data: v, phases: Ghost(Map::empty()) }
    }

    /// Draws the next ticket (the atomic increment of `issued`).
    pub fn take_ticket(&mut self) -> (t: u64)
        requires
            old(self).wf(),
            old(self).issued() < u64::MAX,
        ensures
            final(self).wf(),
            t == old(self).issued(),
            final(self).issued() == old(self).issued() + 1,
            final(self).serving() == old(self).serving(),
            final(self).value() == old(self).value(),
            final(self).phases() == old(self).phases().insert(t as nat, TicketPhase::Waiting),
    {
        let t: u64 = self.issued;
        self.issued = self.issued + 1;
        self.phases = Ghost(self.phases@.insert(t as nat, TicketPhase::Waiting));
        t
    }

    /// One round of the spin on `serving`: the waiting ticket `t` enters the
    /// critical section exactly when it is the one being served.
    pub fn try_enter(&mut self, t: u64) -> (r: Option<TicketLockGuard>)
        requires
            old(self).wf(),
            old(self).is_waiting(t as nat),
        ensures
            final(self).wf(),
            r is Some <==> t as nat == old(self).serving(),
            r matches Some(g) ==> g.ticket_spec() == t,
            final(self).issued() == old(self).issued(),
            final(self).serving() == old(self).serving(),
            final(self).value() == old(self).value(),
            final(self).phases() == if r is Some {
                old(self).phases().insert(t as nat, TicketPhase::Holding)
            } else {
                old(self).phases()
            },
    {
        if self.serving == t {
            self.phases = Ghost(self.phases@.insert(t as nat, TicketPhase::Holding));
            Some(TicketLockGuard { ticket: t })
        } else {
            None
        }
    }

    /// Acquires a lock that nobody holds or waits for: draws a ticket and
    /// spins until it is served, which happens at the first round.
    pub fn lock(&mut self) -> (g: TicketLockGuard)
        requires
            old(self).wf(),
            old(self).is_idle(),
            old(self).issued() < u64::MAX,
        ensures
            final(self).wf(),
            g.ticket_spec() == old(self).issued(),
            final(self).is_holding(g.ticket_spec()),
            final(self).issued() == old(self).issued() + 1,
            final(self).serving() == old(self).serving(),
            final(self).value() == old(self).value(),
    {
        let t: u64 = self.take_ticket();
        loop
            invariant
                self.wf(),
                self.is_waiting(t as nat),
                t as nat == self.serving(),
                t == old(self).issued(),
                self.serving() == old(self).serving(),
                self.issued() == t + 1,
                self.value() == old(self).value(),
            decreases 1int,
        {
            match self.try_enter(t) {
                Some(g) => {
                    return g;
                },
                None => {},
            }
        }
    }

    /// Releases the lock held by `g` (the increment of `serving`), handing it
    /// to the next ticket. The guard is consumed, so this happens once.
    pub fn unlock(&mut self, g: TicketLockGuard)
        requires
            old(self).wf(),
            old(self).is_holding(g.ticket_spec()),
        ensures
            final(self).wf(),
            final(self).serving() == old(self).serving() + 1,
            final(self).issued() == old(self).issued(),
            final(self).value() == old(self).value(),
            final(self).phases() == old(self).phases().insert(g.ticket_spec(), TicketPhase::Done),
    {
        proof {
            lemma_holder_is_served(self, g.ticket_spec());
        }
        self.serving = self.serving + 1;
        self.phases = Ghost(self.phases@.insert(g.ticket as nat, TicketPhase::Done));
    }

    /// The guarded value, read while holding the lock.
    pub fn get(&self, g: &TicketLockGuard) -> (r: &T)
        requires
            self.wf(),
            self.is_holding(g.ticket_spec()),
        ensures
            *r == self.value(),
    {
        &self.data
    }

    /// The guarded value, for writing while holding the lock.
    pub fn get_mut(&mut self, g: &TicketLockGuard) -> (r: &mut T)
        requires
            old(self).wf(),
            old(self).is_holding(g.ticket_spec()),
        ensures
            *r == old(self).value(),
            final(self).value() == *final(r),
            final(self).wf(),
            final(self).issued() == old(self).issued(),
            final(self).serving() == old(self).serving(),
            final(self).phases() == old(self).phases(),
    {
        &mut self.data
    }
}

/// The phases of tickets `0..issued` when `serving` is being served.
pub open spec fn phases_wf(issued: nat, serving: nat, m: Map<nat, TicketPhase>) -> bool {
    &&& serving <= issued
    &&& forall|t: nat| #[trigger] m.contains_key(t) <==> t < issued
    &&& forall|t: nat| t < serving ==> #[trigger] m[t] == TicketPhase::Done
    &&& forall|t: nat| serving < t < issued ==> #[trigger] m[t] == TicketPhase::Waiting
    &&& serving < issued ==> (m[serving] == TicketPhase::Waiting || m[serving]
        == TicketPhase::Holding)
}

/// The ticket that holds a well-formed lock is the one being served.
pub proof fn lemma_holder_is_served<T>(l: &TicketLock<T>, t: nat)
    requires
        l.wf(),
        l.is_holding(t),
    ensures
        t == l.serving(),
        t < l.issued(),
{
    assert(l.phases().contains_key(t));
    if t < l.serving() {
        assert(l.is_done(t));
    } else if t > l.serving() {
        assert(l.is_waiting(t));
    }
}

/// Mutual exclusion: in every well-formed state, which each step preserves
/// whatever the interleaving, at most one ticket holds the lock.
pub proof fn lemma_mutual_exclusion<T>(l: &TicketLock<T>, a: nat, b: nat)
    requires
        l.wf(),
        l.is_holding(a),
        l.is_holding(b),
    ensures
        a == b,
{
    lemma_holder_is_served(l, a);
    lemma_holder_is_served(l, b);
}

/// First come, first served: once a ticket has been granted the lock, every
/// ticket drawn before it has been granted and released.
pub proof fn lemma_fifo<T>(l: &TicketLock<T>, a: nat, b: nat)
    requires
        l.wf(),
        a < b,
        l.is_holding(b) || l.is_done(b),
    ensures
        l.is_done(a),
{
    assert(l.phases().contains_key(b));
    if b > l.serving() {
        assert(l.is_waiting(b));
    }
    assert(a < l.serving());
}

/// A waiting ticket has only the tickets from `serving` up to it ahead of
/// it: since each `unlock` moves `serving` on by one and `try_enter` of the
/// served ticket succeeds, it is granted after `t - serving` releases.
pub proof fn lemma_waiting_bound<T>(l: &TicketLock<T>, t: nat)
    requires
        l.wf(),
        l.is_waiting(t),
    ensures
        l.serving() <= t < l.issued(),
{
    assert(l.phases().contains_key(t));
    if t < l.serving() {
        assert(l.is_done(t));
    }
}

} // verus!
