//! Proportional random selection: each call picks an entry with probability
//! proportional to its weight, independently of every earlier call.

use super::Weight;
use rand::Rng;
use vstd::prelude::*;

verus! {

/// One weighted candidate of the random selector.
pub struct RandWeightItem<T> {
    pub item: T,
    pub weight: isize,
}

/// Selects among weighted entries by a proportional random draw. The policy
/// is not smooth: only the long-run frequencies follow the weights.
pub struct RandWeight<T> {
    pub items: Vec<RandWeightItem<T>>,
    pub sum_of_weights: isize,
}

/// The sum of the weights of `s`.
pub open spec fn sum_weights<T>(s: Seq<RandWeightItem<T>>) -> int
    decreases s.len(),
{
    if s.len() == 0 {
        0
    } else {
        sum_weights(s.drop_last()) + s.last().weight as int
    }
}

/// Every prefix sum of the weights stays within `isize`; `add` maintains the
/// running sum incrementally, so this holds of every table it builds.
pub open spec fn prefixes_fit<T>(s: Seq<RandWeightItem<T>>) -> bool {
    forall|k: int|
        0 <= k <= s.len() ==> isize::MIN as int <= sum_weights(#[trigger] s.take(k))
            <= isize::MAX as int
}

/// The cumulative-weight walk: starting at index `i` with running value `r`,
/// the first entry whose weight drops the running value below zero is
/// selected, so an entry of weight `w` owns exactly `w` of the values below
/// the total; if no entry triggers, the walk ends defensively on the last
/// entry.
pub open spec fn walk_pick<T>(s: Seq<RandWeightItem<T>>, r: int, i: int) -> int
    decreases s.len() - i,
        when 0 <= i < s.len()
{
    if r - (s[i].weight as int) < 0 {
        i
    } else if i == s.len() - 1 {
        i
    } else {
        walk_pick(s, r - s[i].weight as int, i + 1)
    }
}

/// The walk's intermediate running values stay within `isize`, whatever
/// value in `[0, sum)` was drawn.
pub open spec fn walk_fits<T>(s: Seq<RandWeightItem<T>>) -> bool {
    forall|k: int|
        1 <= k <= s.len() ==> sum_weights(s) - sum_weights(#[trigger] s.take(k))
            <= isize::MAX as int + 1
}

/// The walk always ends on a valid index.
pub proof fn lemma_walk_pick_range<T>(s: Seq<RandWeightItem<T>>, r: int, i: int)
    requires
        0 <= i < s.len(),
    ensures
        i <= walk_pick(s, r, i) < s.len(),
    decreases s.len() - i,
{
    if r - (s[i].weight as int) < 0 {
    } else if i == s.len() - 1 {
    } else {
        lemma_walk_pick_range(s, r - s[i].weight as int, i + 1);
    }
}

proof fn lemma_sum_take_succ<T>(s: Seq<RandWeightItem<T>>, k: int)
    requires
        0 <= k < s.len(),
    ensures
        sum_weights(s.take(k + 1)) == sum_weights(s.take(k)) + s[k].weight as int,
{
    assert(s.take(k + 1).drop_last() =~= s.take(k));
    assert(s.take(k + 1).last() == s[k]);
}

proof fn lemma_prefix_monotone<T>(s: Seq<RandWeightItem<T>>, a: int, b: int)
    requires
        forall|k: int| 0 <= k < s.len() ==> (#[trigger] s[k]).weight >= 0,
        0 <= a <= b <= s.len(),
    ensures
        sum_weights(s.take(a)) <= sum_weights(s.take(b)),
    decreases b - a,
{
    if a < b {
        lemma_sum_take_succ(s, b - 1);
        lemma_prefix_monotone(s, a, b - 1);
    }
}

proof fn lemma_walk_slots_from<T>(s: Seq<RandWeightItem<T>>, d: int, i: int, j: int)
    requires
        forall|k: int| 0 <= k < s.len() ==> (#[trigger] s[k]).weight >= 0,
        0 <= j <= i < s.len(),
        sum_weights(s.take(i)) <= d < sum_weights(s.take(i + 1)),
    ensures
        walk_pick(s, d - sum_weights(s.take(j)), j) == i,
    decreases i - j,
{
    lemma_sum_take_succ(s, i);
    let r = d - sum_weights(s.take(j));
    if j == i {
        assert(r - (s[i].weight as int) < 0);
    } else {
        lemma_sum_take_succ(s, j);
        lemma_prefix_monotone(s, j + 1, i);
        assert(r - (s[j].weight as int) == d - sum_weights(s.take(j + 1)) >= 0);
        lemma_walk_slots_from(s, d, i, j + 1);
    }
}

/// With non-negative weights the walk is exactly proportional: entry `i`
/// is selected for precisely the drawable values `d` between its prefix
/// sum and the next, a band as wide as its own weight. An entry of weight
/// zero owns no value at all, so it is never selected.
pub proof fn lemma_walk_slots<T>(s: Seq<RandWeightItem<T>>, d: int, i: int)
    requires
        forall|k: int| 0 <= k < s.len() ==> (#[trigger] s[k]).weight >= 0,
        0 <= i < s.len(),
        sum_weights(s.take(i)) <= d < sum_weights(s.take(i + 1)),
    ensures
        walk_pick(s, d, 0) == i,
{
    assert(s.take(0) =~= Seq::<RandWeightItem<T>>::empty());
    lemma_walk_slots_from(s, d, i, 0);
}

/// Relies on rand::thread_rng and rand::Rng::gen_range: a uniformly
/// distributed draw from the half-open range `[0, bound)`.
#[verifier::external_body]
fn draw_below(bound: isize) -> (r: isize)
    requires
        1 <= bound,
    ensures
        0 <= r < bound,
{
    rand::thread_rng().gen_range(0..bound)
}

impl<T: Copy> RandWeight<T> {
    /// Entries recorded, the running sum matching their weights, and every
    /// prefix sum representable.
    pub open spec fn wf(&self) -> bool {
        &&& self.sum_of_weights as int == sum_weights(self.items@)
        &&& prefixes_fit(self.items@)
    }

    /// An empty selector.
    pub fn new() -> (s: Self)
        ensures
            s.wf(),
            s.items@.len() == 0,
            s.sum_of_weights == 0,
    {
        let s = RandWeight { items: Vec::new(), sum_of_weights: 0 };
        proof {
            assert forall|k: int| 0 <= k <= s.items@.len() implies isize::MIN as int
                <= sum_weights(#[trigger] s.items@.take(k)) <= isize::MAX as int by {
                assert(s.items@.take(k) =~= s.items@);
            }
        }
        s
    }

    /// Returns the next selected candidate: `None` with no entries or with a
    /// non-positive total weight, the sole entry with one entry, and
    /// otherwise the entry on which the cumulative-weight walk ends for some
    /// uniformly drawn value below the total weight.
    pub fn next(&mut self) -> (r: Option<T>)
        requires
            old(self).wf(),
            old(self).items@.len() >= 2 ==> walk_fits(old(self).items@),
        ensures
            *final(self) == *old(self),
            old(self).items@.len() == 0 ==> r is None,
            old(self).items@.len() == 1 ==> r == Some(old(self).items@[0].item),
            old(self).items@.len() >= 2 && sum_weights(old(self).items@) <= 0 ==> r is None,
            old(self).items@.len() >= 2 && sum_weights(old(self).items@) >= 1 ==> exists|d: int|
                0 <= d < sum_weights(old(self).items@) && r == Some(
                    old(self).items@[#[trigger] walk_pick(old(self).items@, d, 0)].item,
                ) && old(self).items@[walk_pick(old(self).items@, d, 0)].weight >= 1,
    {
        let n: usize = self.items.len();
        if n <= 1 {
            if n == 0 {
                return None;
            }
            return Some(self.items[0].item);
        }
        if self.sum_of_weights <= 0 {
            return None;
        }

        let mut index: isize = draw_below(self.sum_of_weights);
        let ghost s = self.items@;
        let ghost r0: int = index as int;
        let mut k: usize = 0;
        while k < n
            invariant
                *self == *old(self),
                self.wf(),
                walk_fits(s),
                s == self.items@,
                n == s.len(),
                2 <= n,
                1 <= self.sum_of_weights,
                0 <= r0 < sum_weights(s),
                k <= n,
                index as int == r0 - sum_weights(s.take(k as int)),
                index >= 0,
                k < n ==> walk_pick(s, r0, 0) == walk_pick(s, index as int, k as int),
                k == n ==> walk_pick(s, r0, 0) == n - 1,
            decreases n - k,
        {
            proof {
                lemma_sum_take_succ(s, k as int);
                assert(sum_weights(s.take(k as int)) >= isize::MIN as int);
                assert(sum_weights(s.take(k as int + 1)) <= isize::MAX as int);
                assert(sum_weights(s.take(k as int + 1)) >= isize::MIN as int);
                assert(sum_weights(s) - sum_weights(s.take(k as int + 1)) <= isize::MAX as int
                    + 1);
            }
            let w: isize = self.items[k].weight;
            index = index - w;
            if index < 0 {
                proof {
                    assert(walk_pick(s, r0, 0) == k as int);
                }
                return Some(self.items[k].item);
            }
            k = k + 1;
            proof {
                if k < n {
                    assert(walk_pick(s, r0, 0) == walk_pick(s, index as int, k as int));
                } else {
                    assert(s.take(n as int) =~= s);
                }
            }
        }
        proof {
            assert(s.take(n as int) =~= s);
            assert(walk_pick(s, r0, 0) == n - 1);
        }
        Some(self.items[n - 1].item)
    }

    /// Appends one entry and grows the running sum by its weight.
    pub fn add(&mut self, item: T, weight: isize)
        requires
            old(self).wf(),
            isize::MIN as int <= old(self).sum_of_weights + weight as int <= isize::MAX as int,
        ensures
            final(self).wf(),
            final(self).items@ == old(self).items@.push(
                RandWeightItem { item, weight },
            ),
            final(self).sum_of_weights as int == old(self).sum_of_weights + weight as int,
    {
        let weight_item = RandWeightItem { item, weight };
        self.items.push(weight_item);
        self.sum_of_weights = self.sum_of_weights + weight;
        proof {
            let s0 = old(self).items@;
            let s1 = self.items@;
            assert(s1.drop_last() =~= s0);
            assert forall|k: int| 0 <= k <= s1.len() implies isize::MIN as int <= sum_weights(
                #[trigger] s1.take(k),
            ) <= isize::MAX as int by {
                if k <= s0.len() {
                    assert(s1.take(k) =~= s0.take(k));
                } else {
                    assert(s1.take(k) =~= s1);
                }
            }
        }
    }

    /// A snapshot of the entries, in insertion order.
    pub fn all(&self) -> (r: Vec<(T, isize)>)
        ensures
            r@.len() == self.items@.len(),
            forall|k: int|
                0 <= k < r@.len() ==> #[trigger] r@[k] == (
                    self.items@[k].item,
                    self.items@[k].weight,
                ),
    {
        let mut out: Vec<(T, isize)> = Vec::new();
        let mut k: usize = 0;
        while k < self.items.len()
            invariant
                k <= self.items@.len(),
                out@.len() == k,
                forall|j: int|
                    0 <= j < k ==> #[trigger] out@[j] == (
                        self.items@[j].item,
                        self.items@[j].weight,
                    ),
            decreases self.items@.len() - k,
        {
            out.push((self.items[k].item, self.items[k].weight));
            k = k + 1;
        }
        out
    }

    /// Clears every entry and returns the running sum to zero, exactly as
    /// construction leaves it.
    pub fn remove_all(&mut self)
        ensures
            final(self).wf(),
            final(self).items@.len() == 0,
            final(self).sum_of_weights == 0,
    {
        self.items.clear();
        self.sum_of_weights = 0;
        proof {
            assert forall|k: int| 0 <= k <= self.items@.len() implies isize::MIN as int
                <= sum_weights(#[trigger] self.items@.take(k)) <= isize::MAX as int by {
                assert(self.items@.take(k) =~= self.items@);
            }
        }
    }

    /// The random source is the thread-local generator, which needs no
    /// reinitialisation, so there is no progress state to clear.
    pub fn reset(&mut self)
        ensures
            *final(self) == *old(self),
    {
    }
}

/// Two well-formed random selectors over the same entries agree in every
/// field: the policy keeps no per-call progress state, so after a reset a
/// selector stands exactly as a freshly built one with the same entries.
pub proof fn lemma_reset_restarts<T: Copy>(a: RandWeight<T>, b: RandWeight<T>)
    requires
        a.wf(),
        b.wf(),
        a.items@ == b.items@,
    ensures
        a.sum_of_weights == b.sum_of_weights,
{
}

impl<T: Copy> Weight for RandWeight<T> {
    type Item = T;

    open spec fn entries(&self) -> Seq<(T, int)> {
        self.items@.map_values(|e: RandWeightItem<T>| (e.item, e.weight as int))
    }

    open spec fn inv(&self) -> bool {
        self.wf()
    }

    open spec fn next_req(&self) -> bool {
        self.items@.len() >= 2 ==> walk_fits(self.items@)
    }

    open spec fn add_req(&self, weight: int) -> bool {
        isize::MIN as int <= self.sum_of_weights + weight <= isize::MAX as int
    }

    fn next(&mut self) -> (r: Option<T>) {
        RandWeight::<T>::next(self)
    }

    fn add(&mut self, item: T, weight: isize) {
        RandWeight::<T>::add(self, item, weight);
        proof {
            assert(self.entries() =~= old(self).entries().push((item, weight as int)));
        }
    }

    fn all(&self) -> (r: Vec<(T, isize)>) {
        RandWeight::<T>::all(self)
    }

    fn remove_all(&mut self) {
        RandWeight::<T>::remove_all(self);
        proof {
            assert(self.entries().len() == 0);
        }
    }

    fn reset(&mut self) {
        RandWeight::<T>::reset(self);
    }
}

} // verus!
