//! Leader election for one round of a DAG-based Byzantine-fault-tolerant
//! consensus protocol.
//!
//! Units form a causal DAG: one unit per committee member per round, each
//! citing at most one parent unit per member, all parents one round below.
//! For a target round the election picks a single "head" unit among that
//! round's units by virtual voting: every later unit casts a vote for or
//! against the current candidate, derived from its parents' votes with a
//! deterministic common-vote fallback, and a supermajority of votes at a
//! sufficiently high relative round elects or eliminates the candidate.
//! Candidates are tried in ascending hash order.

pub mod election;
pub mod units;
