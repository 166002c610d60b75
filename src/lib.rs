//! Spin locks guarding a value: a ticket lock, an MCS queue lock and a fair
//! lock over a ring of participant slots.
//!
//! Each lock value holds the shared variables of its protocol (what the
//! atomics of a threaded build hold) together with the guarded value. Every
//! atomic action of a participant is one method, so any interleaving of the
//! participants is a sequence of method calls. A ghost record says where each
//! participant stands; `wf` is the invariant that every step keeps, and the
//! `lemma_mutual_exclusion` of each module shows from it that at most one
//! participant is in the critical section. A guard is handed out when a
//! participant enters and is consumed by its release. `lock` runs the whole
//! acquisition on a lock that nobody else holds or waits for.
pub mod ticketlock;
pub mod fairlock;
pub mod mcslock;
