//! Smooth weighted round-robin selection, the scheme used by Nginx: on each
//! selection every entry's accumulator grows by its effective weight, the
//! entry with the greatest accumulator wins and pays back the total of all
//! effective weights, which interleaves entries as evenly as the weight
//! ratios allow. Weights `{5, 1, 1}` give the sequence `a a b a c a a`.

use super::Weight;
use vstd::prelude::*;

verus! {

/// One weighted candidate of the smooth selector, with its accumulator
/// (`current_weight`, starting at 0) and its recovering copy of the nominal
/// weight (`effective_weight`, starting at the weight itself).
#[derive(Clone, Copy)]
pub struct SmoothWeightItem<T> {
    pub item: T,
    pub weight: isize,
    pub current_weight: isize,
    pub effective_weight: isize,
}

/// Selects among weighted entries by the smooth weighted round-robin
/// scheme; all selection state lives in the entries themselves.
pub struct SmoothWeight<T> {
    pub items: Vec<SmoothWeightItem<T>>,
}

/// The sum of the effective weights of `s`.
pub open spec fn sm_total<T>(s: Seq<SmoothWeightItem<T>>) -> int
    decreases s.len(),
{
    if s.len() == 0 {
        0
    } else {
        sm_total(s.drop_last()) + s.last().effective_weight as int
    }
}

/// Entry `k`'s accumulator once its effective weight has been added, before
/// any pay-back.
pub open spec fn upd_cur<T>(s: Seq<SmoothWeightItem<T>>, k: int) -> int {
    s[k].current_weight + s[k].effective_weight
}

/// The winner among the first `m` entries: the greatest grown accumulator,
/// earliest entry first on ties.
pub open spec fn sm_best<T>(s: Seq<SmoothWeightItem<T>>, m: int) -> int
    decreases m,
        when 1 <= m <= s.len()
{
    if m == 1 {
        0
    } else {
        let b = sm_best(s, m - 1);
        if upd_cur(s, m - 1) > upd_cur(s, b) {
            m - 1
        } else {
            b
        }
    }
}

/// The arithmetic of one selection step stays within `isize`: every grown
/// accumulator, every partial total, and the winner's pay-back.
pub open spec fn step_fits<T>(s: Seq<SmoothWeightItem<T>>) -> bool {
    &&& forall|k: int|
        0 <= k < s.len() ==> isize::MIN as int <= #[trigger] upd_cur(s, k) <= isize::MAX as int
    &&& forall|k: int|
        0 <= k <= s.len() ==> isize::MIN as int <= sm_total(#[trigger] s.take(k))
            <= isize::MAX as int
    &&& s.len() >= 1 ==> isize::MIN as int <= upd_cur(s, sm_best(s, s.len() as int)) - sm_total(
        s,
    ) <= isize::MAX as int
}

/// How one selection step rewrites the entries: every accumulator grows by
/// its entry's effective weight, and the winner additionally pays back the
/// total; items, weights and effective weights are untouched.
pub open spec fn sm_step_post<T>(
    s0: Seq<SmoothWeightItem<T>>,
    s1: Seq<SmoothWeightItem<T>>,
) -> bool {
    let best = sm_best(s0, s0.len() as int);
    &&& s1.len() == s0.len()
    &&& forall|k: int|
        0 <= k < s0.len() ==> (#[trigger] s1[k]).item == s0[k].item && s1[k].weight == s0[k].weight
            && s1[k].effective_weight == s0[k].effective_weight
    &&& forall|k: int|
        0 <= k < s0.len() && k != best ==> (#[trigger] s1[k]).current_weight as int == upd_cur(
            s0,
            k,
        )
    &&& s1[best].current_weight as int == upd_cur(s0, best) - sm_total(s0)
}

/// The winner among the first `m` entries is one of them.
pub proof fn lemma_sm_best_range<T>(s: Seq<SmoothWeightItem<T>>, m: int)
    requires
        1 <= m <= s.len(),
    ensures
        0 <= sm_best(s, m) < m,
    decreases m,
{
    if m > 1 {
        lemma_sm_best_range(s, m - 1);
    }
}

proof fn lemma_sm_total_take_succ<T>(s: Seq<SmoothWeightItem<T>>, k: int)
    requires
        0 <= k < s.len(),
    ensures
        sm_total(s.take(k + 1)) == sm_total(s.take(k)) + s[k].effective_weight as int,
{
    assert(s.take(k + 1).drop_last() =~= s.take(k));
    assert(s.take(k + 1).last() == s[k]);
}

proof fn lemma_sm_total_whole<T>(s: Seq<SmoothWeightItem<T>>)
    ensures
        sm_total(s.take(s.len() as int)) == sm_total(s),
{
    assert(s.take(s.len() as int) =~= s);
}

/// The sum of the accumulators of `s`.
pub open spec fn sm_cur_sum<T>(s: Seq<SmoothWeightItem<T>>) -> int
    decreases s.len(),
{
    if s.len() == 0 {
        0
    } else {
        sm_cur_sum(s.drop_last()) + s.last().current_weight as int
    }
}

proof fn lemma_sm_cur_sum_take_succ<T>(s: Seq<SmoothWeightItem<T>>, k: int)
    requires
        0 <= k < s.len(),
    ensures
        sm_cur_sum(s.take(k + 1)) == sm_cur_sum(s.take(k)) + s[k].current_weight as int,
{
    assert(s.take(k + 1).drop_last() =~= s.take(k));
    assert(s.take(k + 1).last() == s[k]);
}

proof fn lemma_step_cur_sum_prefix<T>(
    s0: Seq<SmoothWeightItem<T>>,
    s1: Seq<SmoothWeightItem<T>>,
    k: int,
)
    requires
        sm_step_post(s0, s1),
        s0.len() >= 1,
        0 <= k <= s0.len(),
    ensures
        sm_cur_sum(s1.take(k)) == sm_cur_sum(s0.take(k)) + sm_total(s0.take(k)) - (
        if sm_best(s0, s0.len() as int) < k {
            sm_total(s0)
        } else {
            0
        }),
    decreases k,
{
    if k == 0 {
        assert(s0.take(0) =~= Seq::<SmoothWeightItem<T>>::empty());
        assert(s1.take(0) =~= Seq::<SmoothWeightItem<T>>::empty());
        lemma_sm_best_range(s0, s0.len() as int);
    } else {
        lemma_step_cur_sum_prefix(s0, s1, k - 1);
        lemma_sm_cur_sum_take_succ(s0, k - 1);
        lemma_sm_cur_sum_take_succ(s1, k - 1);
        lemma_sm_total_take_succ(s0, k - 1);
    }
}

/// One smooth step leaves the sum of the accumulators unchanged: the
/// winner pays back exactly what the pass handed out, which is what makes
/// the schedule self-correcting. From a fresh or reset table, where every
/// accumulator is zero, the accumulators therefore always sum to zero.
pub proof fn lemma_step_preserves_cur_sum<T>(
    s0: Seq<SmoothWeightItem<T>>,
    s1: Seq<SmoothWeightItem<T>>,
)
    requires
        sm_step_post(s0, s1),
        s0.len() >= 1,
    ensures
        sm_cur_sum(s1) == sm_cur_sum(s0),
{
    let n = s0.len() as int;
    lemma_sm_best_range(s0, n);
    lemma_step_cur_sum_prefix(s0, s1, n);
    assert(s0.take(n) =~= s0);
    assert(s1.take(n) =~= s1);
}

impl<T: Copy> SmoothWeight<T> {
    /// Every entry's effective weight sits at its nominal weight: this
    /// selector only ever climbs an effective weight back toward the
    /// nominal one and never lowers it below, so the two stay equal.
    pub open spec fn wf(&self) -> bool {
        forall|k: int|
            0 <= k < self.items@.len() ==> (#[trigger] self.items@[k]).effective_weight
                == self.items@[k].weight
    }

    /// An empty selector.
    pub fn new() -> (s: Self)
        ensures
            s.wf(),
            s.items@.len() == 0,
    {
        SmoothWeight { items: Vec::new() }
    }

    /// One full smooth step over all entries, returning the winning entry
    /// as it stands after paying back the total.
    fn next_smooth_weighted(&mut self) -> (r: Option<SmoothWeightItem<T>>)
        requires
            old(self).wf(),
            old(self).items@.len() >= 1,
            step_fits(old(self).items@),
        ensures
            final(self).wf(),
            sm_step_post(old(self).items@, final(self).items@),
            r == Some(final(self).items@[sm_best(old(self).items@, old(self).items@.len() as int)]),
    {
        let ghost s0 = self.items@;
        let mut total: isize = 0;
        let mut best_index: usize = 0;
        let mut found: bool = false;

        let items_len: usize = self.items.len();
        let mut i: usize = 0;
        while i < items_len
            invariant
                old(self).wf(),
                step_fits(s0),
                s0 == old(self).items@,
                items_len == s0.len(),
                1 <= items_len,
                i <= items_len,
                self.items@.len() == items_len,
                forall|k: int| i <= k < items_len ==> self.items@[k] == s0[k],
                forall|k: int|
                    0 <= k < i ==> (#[trigger] self.items@[k]).item == s0[k].item
                        && self.items@[k].weight == s0[k].weight
                        && self.items@[k].effective_weight == s0[k].effective_weight
                        && self.items@[k].current_weight as int == upd_cur(s0, k),
                total as int == sm_total(s0.take(i as int)),
                found == (i > 0),
                i >= 1 ==> 0 <= best_index < i && best_index as int == sm_best(s0, i as int),
            decreases items_len - i,
        {
            proof {
                lemma_sm_total_take_succ(s0, i as int);
                assert(self.items@[i as int] == s0[i as int]);
                assert(isize::MIN as int <= upd_cur(s0, i as int) <= isize::MAX as int);
                assert(isize::MIN as int <= sm_total(s0.take(i as int + 1)) <= isize::MAX as int);
            }
            let mut e = self.items[i];
            e.current_weight = e.current_weight + e.effective_weight;
            total = total + e.effective_weight;
            if e.effective_weight < e.weight {
                e.effective_weight = e.effective_weight + 1;
            }
            self.items[i] = e;

            if !found || self.items[i].current_weight > self.items[best_index].current_weight {
                found = true;
                best_index = i;
            }
            i = i + 1;
        }

        if !found {
            return None;
        }

        proof {
            lemma_sm_total_whole(s0);
            lemma_sm_best_range(s0, s0.len() as int);
            assert(self.items@[best_index as int].current_weight as int == upd_cur(
                s0,
                best_index as int,
            ));
        }
        let mut b = self.items[best_index];
        b.current_weight = b.current_weight - total;
        self.items[best_index] = b;
        Some(b)
    }

    /// Returns the next selected candidate: `None` with no entries, the
    /// sole entry with one entry, and otherwise the winner of one smooth
    /// step.
    pub fn next(&mut self) -> (r: Option<T>)
        requires
            old(self).wf(),
            old(self).items@.len() >= 2 ==> step_fits(old(self).items@),
        ensures
            final(self).wf(),
            old(self).items@.len() == 0 ==> r is None && *final(self) == *old(self),
            old(self).items@.len() == 1 ==> r == Some(old(self).items@[0].item) && *final(self)
                == *old(self),
            old(self).items@.len() >= 2 ==> sm_step_post(old(self).items@, final(self).items@)
                && r == Some(
                old(self).items@[sm_best(old(self).items@, old(self).items@.len() as int)].item,
            ),
    {
        if self.items.len() <= 1 {
            if self.items.len() == 0 {
                return None;
            }
            return Some(self.items[0].item);
        }

        proof {
            lemma_sm_best_range(self.items@, self.items@.len() as int);
        }
        let rt = self.next_smooth_weighted();
        match rt {
            Some(it) => Some(it.item),
            None => None,
        }
    }

    /// Appends one entry with a zeroed accumulator and an effective weight
    /// equal to the nominal one.
    pub fn add(&mut self, item: T, weight: isize)
        requires
            old(self).wf(),
        ensures
            final(self).wf(),
            final(self).items@ == old(self).items@.push(
                SmoothWeightItem { item, weight, current_weight: 0, effective_weight: weight },
            ),
    {
        let weight_item = SmoothWeightItem {
            item,
            weight,
            current_weight: 0,
            effective_weight: weight,
        };
        self.items.push(weight_item);
    }

    /// A snapshot of the entries, in insertion order.
    pub fn all(&self) -> (r: Vec<(T, isize)>)
        ensures
            r@.len() == self.items@.len(),
            forall|k: int|
                0 <= k < r@.len() ==> #[trigger] r@[k] == (
                    self.items@[k].item,
                    self.items@[k].weight,
                ),
    {
        let mut out: Vec<(T, isize)> = Vec::new();
        let mut k: usize = 0;
        while k < self.items.len()
            invariant
                k <= self.items@.len(),
                out@.len() == k,
                forall|j: int|
                    0 <= j < k ==> #[trigger] out@[j] == (
                        self.items@[j].item,
                        self.items@[j].weight,
                    ),
            decreases self.items@.len() - k,
        {
            out.push((self.items[k].item, self.items[k].weight));
            k = k + 1;
        }
        out
    }

    /// Clears every entry; the selector holds no other state.
    pub fn remove_all(&mut self)
        ensures
            final(self).wf(),
            final(self).items@.len() == 0,
    {
        self.items.clear();
    }

    /// Returns every entry to its post-construction state: accumulator at
    /// zero and effective weight at the nominal weight; items and weights
    /// are retained.
    pub fn reset(&mut self)
        ensures
            final(self).wf(),
            final(self).items@.len() == old(self).items@.len(),
            forall|k: int|
                0 <= k < old(self).items@.len() ==> (#[trigger] final(self).items@[k]).item == old(
                    self,
                ).items@[k].item && final(self).items@[k].weight == old(self).items@[k].weight
                    && final(self).items@[k].current_weight == 0
                    && final(self).items@[k].effective_weight == old(self).items@[k].weight,
    {
        let n: usize = self.items.len();
        let mut k: usize = 0;
        while k < n
            invariant
                n == self.items@.len(),
                n == old(self).items@.len(),
                k <= n,
                forall|j: int| k <= j < n ==> self.items@[j] == old(self).items@[j],
                forall|j: int|
                    0 <= j < k ==> (#[trigger] self.items@[j]).item == old(self).items@[j].item
                        && self.items@[j].weight == old(self).items@[j].weight
                        && self.items@[j].current_weight == 0
                        && self.items@[j].effective_weight == old(self).items@[j].weight,
            decreases n - k,
        {
            let mut e = self.items[k];
            e.current_weight = 0;
            e.effective_weight = e.weight;
            self.items[k] = e;
            k = k + 1;
        }
    }
}

/// Two smooth selectors over the same items and weights whose progress
/// state is cleared hold exactly the same entries: resetting a selector
/// restarts the selection sequence of a freshly built one.
pub proof fn lemma_reset_restarts<T>(a: Seq<SmoothWeightItem<T>>, b: Seq<SmoothWeightItem<T>>)
    requires
        a.len() == b.len(),
        forall|k: int|
            0 <= k < a.len() ==> (#[trigger] a[k]).item == b[k].item && a[k].weight == b[k].weight,
        forall|k: int|
            0 <= k < a.len() ==> (#[trigger] a[k]).current_weight == 0 && a[k].effective_weight
                == a[k].weight,
        forall|k: int|
            0 <= k < b.len() ==> (#[trigger] b[k]).current_weight == 0 && b[k].effective_weight
                == b[k].weight,
    ensures
        a == b,
{
    assert forall|k: int| 0 <= k < a.len() implies a[k] == b[k] by {
        assert(a[k].item == b[k].item);
        assert(a[k].weight == b[k].weight);
        assert(a[k].current_weight == b[k].current_weight);
        assert(a[k].effective_weight == b[k].effective_weight);
    }
    assert(a =~= b);
}

impl<T: Copy> Weight for SmoothWeight<T> {
    type Item = T;

    open spec fn entries(&self) -> Seq<(T, int)> {
        self.items@.map_values(|e: SmoothWeightItem<T>| (e.item, e.weight as int))
    }

    open spec fn inv(&self) -> bool {
        self.wf()
    }

    open spec fn next_req(&self) -> bool {
        self.items@.len() >= 2 ==> step_fits(self.items@)
    }

    open spec fn add_req(&self, weight: int) -> bool {
        true
    }

    fn next(&mut self) -> (r: Option<T>) {
        let r = SmoothWeight::<T>::next(self);
        proof {
            assert(self.entries() =~= old(self).entries());
        }
        r
    }

    fn add(&mut self, item: T, weight: isize) {
        SmoothWeight::<T>::add(self, item, weight);
        proof {
            assert(self.entries() =~= old(self).entries().push((item, weight as int)));
        }
    }

    fn all(&self) -> (r: Vec<(T, isize)>) {
        SmoothWeight::<T>::all(self)
    }

    fn remove_all(&mut self) {
        SmoothWeight::<T>::remove_all(self);
    }

    fn reset(&mut self) {
        SmoothWeight::<T>::reset(self);
        proof {
            assert(self.entries() =~= old(self).entries());
        }
    }
}

} // verus!
