//! Weighted selection policies: pick one candidate per call so that, over
//! many calls, each candidate is chosen in proportion to its configured
//! weight.
//!
//! Three interchangeable policies are provided, all implementing the shared
//! [`Weight`] contract:
//! - [`RandWeight`]: proportional random selection, independent per call;
//! - [`RoundrobinWeight`]: the classic weighted round-robin scheme (as used
//!   by LVS), driven by the greatest common divisor of the weights;
//! - [`SmoothWeight`]: the smooth weighted round-robin scheme (as used by
//!   Nginx), driven by a per-entry accumulator.

use vstd::prelude::*;

pub mod random_weight;
pub mod roundrobin_weight;
pub mod smooth_weight;

pub use random_weight::RandWeight;
pub use roundrobin_weight::RoundrobinWeight;
pub use smooth_weight::SmoothWeight;

verus! {

/// The contract shared by every selection policy.
///
/// A selector owns an ordered sequence of weighted entries. Entries are
/// appended by `add`, enumerated by `all`, cleared all at once by
/// `remove_all`, and consulted by `next`, which returns the next selected
/// candidate. `reset` clears only cursor/accumulator progress while keeping
/// the entries.
///
/// Whatever the policy: with no entries `next` yields `None`, and with a
/// single entry it yields that entry regardless of the sign of its weight.
pub trait Weight {
    type Item;

    /// The entries currently configured, in insertion order, as
    /// (item, weight) pairs.
    spec fn entries(&self) -> Seq<(Self::Item, int)>;

    /// The structural invariant each policy maintains over its own state.
    spec fn inv(&self) -> bool;

    /// Machine-arithmetic side conditions under which `next` is free of
    /// overflow; trivially true for ordinary weight tables.
    spec fn next_req(&self) -> bool;

    /// Machine-arithmetic side conditions under which `add` is free of
    /// overflow; trivially true for ordinary weight tables.
    spec fn add_req(&self, weight: int) -> bool;

    /// Returns the next selected candidate, or `None` when nothing is
    /// eligible.
    fn next(&mut self) -> (r: Option<Self::Item>)
        requires
            old(self).inv(),
            old(self).next_req(),
        ensures
            final(self).inv(),
            final(self).entries() == old(self).entries(),
            old(self).entries().len() == 0 ==> r is None,
            old(self).entries().len() == 1 ==> r == Some(old(self).entries()[0].0),
    ;

    /// Appends one weighted entry. The weight is recorded as given; entries
    /// with a non-positive weight simply stay ineligible.
    fn add(&mut self, item: Self::Item, weight: isize)
        requires
            old(self).inv(),
            old(self).add_req(weight as int),
        ensures
            final(self).inv(),
            final(self).entries() == old(self).entries().push((item, weight as int)),
    ;

    /// A snapshot of the current entries, in insertion order. Takes `&self`,
    /// so repeated calls cannot advance any cursor or accumulator.
    fn all(&self) -> (r: Vec<(Self::Item, isize)>)
        ensures
            r@.len() == self.entries().len(),
            forall|k: int|
                0 <= k < r@.len() ==> #[trigger] r@[k].0 == self.entries()[k].0
                    && r@[k].1 as int == self.entries()[k].1,
    ;

    /// Clears every entry and every selector-level aggregate.
    fn remove_all(&mut self)
        requires
            old(self).inv(),
        ensures
            final(self).inv(),
            final(self).entries().len() == 0,
    ;

    /// Clears only cursor/accumulator progress; the entries and their
    /// weights are retained.
    fn reset(&mut self)
        requires
            old(self).inv(),
        ensures
            final(self).inv(),
            final(self).entries() == old(self).entries(),
    ;
}

/// Enumeration is idempotent: any two snapshots a selector hands out for
/// the same entries are equal, so repeated `all` calls agree; `all` takes
/// `&self`, so no call can advance a cursor or an accumulator either.
pub proof fn lemma_all_idempotent<I>(entries: Seq<(I, int)>, r1: Seq<(I, isize)>, r2: Seq<
    (I, isize),
>)
    requires
        r1.len() == entries.len(),
        forall|k: int|
            0 <= k < r1.len() ==> #[trigger] r1[k].0 == entries[k].0 && r1[k].1 as int
                == entries[k].1,
        r2.len() == entries.len(),
        forall|k: int|
            0 <= k < r2.len() ==> #[trigger] r2[k].0 == entries[k].0 && r2[k].1 as int
                == entries[k].1,
    ensures
        r1 == r2,
{
    assert forall|k: int| 0 <= k < r1.len() implies r1[k] == r2[k] by {
        assert(r1[k].0 == r2[k].0);
        assert(r1[k].1 == r2[k].1);
    }
    assert(r1 =~= r2);
}

} // verus!
