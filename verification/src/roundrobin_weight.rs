//! Classic weighted round-robin selection, the scheme used by LVS: a cyclic
//! cursor sweeps the entries while a countdown weight, stepped by the
//! greatest common divisor of the positive weights, decides which entries
//! are currently eligible; each entry is revisited at intervals
//! proportional to its weight.

use super::Weight;
use vstd::arithmetic::div_mod::{
    lemma_basic_div, lemma_div_by_self, lemma_div_is_ordered, lemma_div_plus_one,
    lemma_div_pos_is_pos,
};
use vstd::prelude::*;

verus! {

/// One weighted candidate of the round-robin selector.
pub struct RRWeightItem<T> {
    pub item: T,
    pub weight: isize,
}

/// Selects among weighted entries by the LVS weighted round-robin scheme,
/// with a cyclic cursor `i`, a countdown weight `cw`, and the running
/// greatest common divisor and maximum of the positive weights.
pub struct RoundrobinWeight<T> {
    pub items: Vec<RRWeightItem<T>>,
    pub gcd: isize,
    pub max_w: isize,
    pub i: isize,
    pub cw: isize,
}

/// The weights of `s`, in order.
pub open spec fn weights<T>(s: Seq<RRWeightItem<T>>) -> Seq<int> {
    s.map_values(|e: RRWeightItem<T>| e.weight as int)
}

/// Greatest common divisor of two positive integers, by the Euclidean
/// scheme the executable `gcd` follows.
pub open spec fn spec_gcd(a: int, b: int) -> int
    decreases b,
        when 1 <= b
{
    if a % b == 0 {
        b
    } else {
        spec_gcd(b, a % b)
    }
}

proof fn lemma_gcd_bounds(a: int, b: int)
    requires
        1 <= a,
        1 <= b,
    ensures
        1 <= spec_gcd(a, b),
        spec_gcd(a, b) <= a,
        spec_gcd(a, b) <= b,
    decreases b,
{
    let r = a % b;
    vstd::arithmetic::div_mod::lemma_fundamental_div_mod(a, b);
    if r == 0 {
        // a is a positive multiple of b, so b <= a
        let q = a / b;
        assert(a == b * q);
        assert(q >= 1 && b * q >= b) by (nonlinear_arith)
            requires
                b >= 1,
                b * q >= 1,
        ;
    } else {
        assert(0 <= r < b);
        lemma_gcd_bounds(b, r);
        if a < b {
            vstd::arithmetic::div_mod::lemma_small_mod(a as nat, b as nat);
            assert(r == a);
        } else {
            assert(r < b <= a);
        }
    }
}

/// The aggregates the selector keeps while entries are added: the greatest
/// common divisor and the maximum of the positive weights seen so far,
/// both zero while no positive weight has been added.
pub open spec fn rr_aggs(ws: Seq<int>) -> (int, int)
    decreases ws.len(),
{
    if ws.len() == 0 {
        (0, 0)
    } else {
        let prev = rr_aggs(ws.drop_last());
        let w = ws.last();
        if w >= 1 {
            if prev.0 == 0 {
                (w, w)
            } else {
                (spec_gcd(prev.0, w), if prev.1 < w { w } else { prev.1 })
            }
        } else {
            prev
        }
    }
}

proof fn lemma_rr_aggs_props(ws: Seq<int>)
    ensures
        rr_aggs(ws).1 == 0 ==> rr_aggs(ws).0 == 0 && forall|k: int|
            0 <= k < ws.len() ==> #[trigger] ws[k] <= 0,
        rr_aggs(ws).1 >= 1 ==> 1 <= rr_aggs(ws).0 <= rr_aggs(ws).1 && exists|k: int|
            0 <= k < ws.len() && #[trigger] ws[k] == rr_aggs(ws).1,
        rr_aggs(ws).0 >= 0,
        rr_aggs(ws).1 >= 0,
    decreases ws.len(),
{
    if ws.len() == 0 {
    } else {
        let prev = rr_aggs(ws.drop_last());
        let w = ws.last();
        lemma_rr_aggs_props(ws.drop_last());
        assert(forall|k: int|
            0 <= k < ws.len() - 1 ==> #[trigger] ws[k] == ws.drop_last()[k]);
        if w >= 1 {
            if prev.0 == 0 {
                assert(ws[ws.len() - 1] == w);
            } else {
                lemma_gcd_bounds(prev.0, w);
                if prev.1 < w {
                    assert(ws[ws.len() - 1] == w);
                } else {
                    let k0 = choose|k: int|
                        0 <= k < ws.drop_last().len() && #[trigger] ws.drop_last()[k] == prev.1;
                    assert(ws[k0] == prev.1);
                }
            }
        } else {
            if prev.1 >= 1 {
                let k0 = choose|k: int|
                    0 <= k < ws.drop_last().len() && #[trigger] ws.drop_last()[k] == prev.1;
                assert(ws[k0] == prev.1);
            }
        }
    }
}

/// The least index holding `v`.
pub open spec fn first_index_of(w: Seq<int>, v: int) -> int
    decreases w.len(),
{
    if w.len() == 0 {
        0
    } else if w[0] == v {
        0
    } else {
        1 + first_index_of(w.subrange(1, w.len() as int), v)
    }
}

proof fn lemma_first_index_of(w: Seq<int>, v: int)
    requires
        exists|k: int| 0 <= k < w.len() && #[trigger] w[k] == v,
    ensures
        ({
            let fi = first_index_of(w, v);
            &&& 0 <= fi < w.len()
            &&& w[fi] == v
            &&& forall|j: int| 0 <= j < fi ==> w[j] != v
        }),
    decreases w.len(),
{
    let k0 = choose|k: int| 0 <= k < w.len() && #[trigger] w[k] == v;
    if w[0] == v {
    } else {
        let tail = w.subrange(1, w.len() as int);
        assert(k0 >= 1);
        assert(tail[k0 - 1] == v);
        assert(exists|k: int| 0 <= k < tail.len() && #[trigger] tail[k] == v);
        lemma_first_index_of(tail, v);
        let ft = first_index_of(tail, v);
        assert(w[1 + ft] == tail[ft]);
        assert forall|j: int| 0 <= j < 1 + ft implies w[j] != v by {
            if j >= 1 {
                assert(tail[j - 1] == w[j]);
            }
        }
    }
}

/// How many wraps the countdown makes from `cw` before it is put back to
/// the maximum weight, stepping down by `g` per wrap.
pub open spec fn rr_nrw(cw: int, g: int) -> int {
    if cw <= g {
        0
    } else {
        (cw - 1) / g
    }
}

/// The cursor after one advance: one step right, wrapping to the front.
pub open spec fn rr_adv_i(w: Seq<int>, i: int) -> int {
    if i + 1 == w.len() as int {
        0
    } else {
        i + 1
    }
}

/// The countdown after one advance: stepped down by `g` on a wrap and put
/// back to the maximum `m` once it would reach zero or below.
pub open spec fn rr_adv_cw(w: Seq<int>, g: int, m: int, i: int, cw: int) -> int {
    if rr_adv_i(w, i) == 0 {
        if cw - g <= 0 {
            m
        } else {
            cw - g
        }
    } else {
        cw
    }
}

/// The states from which one selection terminates: at least two entries,
/// aggregates of a table that holds a positive weight, and cursor and
/// countdown in their working ranges.
pub open spec fn rr_step_ok(w: Seq<int>, g: int, m: int, i: int, cw: int) -> bool {
    &&& 2 <= w.len()
    &&& 1 <= g <= m
    &&& exists|k: int| 0 <= k < w.len() && #[trigger] w[k] == m
    &&& -1 <= i < w.len()
    &&& 0 <= cw <= m
}

/// An upper bound on how many advances one selection can still take: the
/// sweeps left until the countdown returns to the maximum, plus the sweep
/// that then ends on the first maximal entry.
pub open spec fn rr_measure(w: Seq<int>, g: int, m: int, i: int, cw: int) -> int {
    let n = w.len() as int;
    let fm = first_index_of(w, m);
    if cw == m && 0 <= i < fm {
        fm - i
    } else {
        (n - 1 - i) + rr_nrw(cw, g) * n + 2 + fm
    }
}

proof fn lemma_rr_measure_decreases(w: Seq<int>, g: int, m: int, i: int, cw: int)
    requires
        rr_step_ok(w, g, m, i, cw),
        w[rr_adv_i(w, i)] < rr_adv_cw(w, g, m, i, cw),
    ensures
        rr_step_ok(w, g, m, rr_adv_i(w, i), rr_adv_cw(w, g, m, i, cw)),
        0 <= rr_measure(w, g, m, rr_adv_i(w, i), rr_adv_cw(w, g, m, i, cw)) < rr_measure(
            w,
            g,
            m,
            i,
            cw,
        ),
{
    let n = w.len() as int;
    let fm = first_index_of(w, m);
    lemma_first_index_of(w, m);
    let i2 = rr_adv_i(w, i);
    let cw2 = rr_adv_cw(w, g, m, i, cw);
    assert(0 <= i2 < n);

    if cw > g {
        lemma_div_pos_is_pos(cw - 1, g);
        lemma_div_by_self(g);
        lemma_div_is_ordered(g, cw - 1, g);
        assert(rr_nrw(cw, g) >= 1);
    }
    assert(rr_nrw(cw, g) >= 0);
    assert(rr_nrw(cw2, g) >= 0) by {
        if cw2 > g {
            lemma_div_pos_is_pos(cw2 - 1, g);
        }
    }
    assert(rr_nrw(cw, g) * n >= 0 && rr_nrw(cw2, g) * n >= 0) by (nonlinear_arith)
        requires
            rr_nrw(cw, g) >= 0,
            rr_nrw(cw2, g) >= 0,
            n >= 2,
    ;

    if cw == m && 0 <= i < fm {
        // mid-sweep toward the first maximal entry: the advance cannot wrap
        assert(i + 1 <= fm < n);
        assert(i2 == i + 1);
        assert(cw2 == m);
        assert(i2 != fm);
        assert(i2 < fm);
    } else {
        if i2 == 0 {
            assert(i == n - 1 || i == -1);
            if cw - g <= 0 {
                // the countdown is put back to the maximum; the sweep that
                // begins now ends at the first maximal entry
                assert(cw2 == m);
                assert(rr_nrw(cw, g) == 0);
                assert(w[0] < m);
                assert(fm >= 1);
                assert(rr_measure(w, g, m, i2, cw2) == fm);
                assert(rr_measure(w, g, m, i, cw) >= 2 + fm);
            } else {
                // an ordinary wrap: one fewer sweep remains
                assert(cw2 == cw - g);
                assert(cw > g);
                lemma_div_plus_one(cw - g - 1, g);
                assert((cw - 1) / g == 1 + (cw - g - 1) / g);
                if cw - g <= g {
                    lemma_basic_div(cw - g - 1, g);
                    assert(rr_nrw(cw - g, g) == 0);
                    assert(rr_nrw(cw, g) == 1);
                } else {
                    assert(rr_nrw(cw - g, g) == (cw - g - 1) / g);
                    assert(rr_nrw(cw, g) == rr_nrw(cw - g, g) + 1);
                }
                assert(cw2 < m);
                assert((rr_nrw(cw - g, g) + 1) * n == rr_nrw(cw - g, g) * n + n)
                    by (nonlinear_arith);
            }
        } else {
            // an ordinary advance within a sweep
            assert(i2 == i + 1);
            assert(cw2 == cw);
            if cw == m {
                assert(i >= fm || i < 0);
                assert(i != -1);
                assert(i2 > fm);
            }
        }
    }
}

/// The state of cursor and countdown after one selection: entries are
/// advanced past, with the countdown stepped at each wrap, until one whose
/// weight reaches the countdown is found; that entry, at the cursor's new
/// position, is the one selected.
pub open spec fn rr_step(w: Seq<int>, g: int, m: int, i: int, cw: int) -> (int, int)
    decreases rr_measure(w, g, m, i, cw),
        when rr_step_ok(w, g, m, i, cw)
        via rr_step_decreases
{
    let i2 = rr_adv_i(w, i);
    let cw2 = rr_adv_cw(w, g, m, i, cw);
    if w[i2] >= cw2 {
        (i2, cw2)
    } else {
        rr_step(w, g, m, i2, cw2)
    }
}

#[via_fn]
proof fn rr_step_decreases(w: Seq<int>, g: int, m: int, i: int, cw: int) {
    if rr_step_ok(w, g, m, i, cw) && w[rr_adv_i(w, i)] < rr_adv_cw(w, g, m, i, cw) {
        lemma_rr_measure_decreases(w, g, m, i, cw);
    }
}

/// Greatest common divisor of two positive integers, by the Euclidean
/// algorithm.
fn gcd(x: isize, y: isize) -> (r: isize)
    requires
        1 <= x,
        1 <= y,
    ensures
        r as int == spec_gcd(x as int, y as int),
        1 <= r <= x,
        r <= y,
{
    proof {
        lemma_gcd_bounds(x as int, y as int);
    }
    let mut t: usize;
    let mut a: usize = x as usize;
    let mut b: usize = y as usize;
    loop
        invariant
            1 <= a,
            1 <= b <= y,
            spec_gcd(a as int, b as int) == spec_gcd(x as int, y as int),
            1 <= spec_gcd(x as int, y as int) <= x as int,
        decreases b,
    {
        t = a % b;
        if t > 0 {
            a = b;
            b = t;
        } else {
            return b as isize;
        }
    }
}

impl<T: Copy> RoundrobinWeight<T> {
    /// The aggregates match the weight table, and cursor and countdown sit
    /// in their working ranges; a countdown of zero only occurs with the
    /// cursor parked before the first entry.
    pub open spec fn wf(&self) -> bool {
        let w = weights(self.items@);
        &&& self.items@.len() <= isize::MAX as int
        &&& self.gcd as int == rr_aggs(w).0
        &&& self.max_w as int == rr_aggs(w).1
        &&& -1 <= self.i as int
        &&& (self.i == -1 || (self.i as int) < self.items@.len())
        &&& 0 <= self.cw as int <= self.max_w as int
        &&& (self.cw == 0 ==> self.i == -1)
        &&& (self.max_w == 0 ==> self.i == -1 && self.cw == 0)
    }

    /// An empty selector, with the cursor parked before the first entry.
    pub fn new() -> (s: Self)
        ensures
            s.wf(),
            s.items@.len() == 0,
            s.gcd == 0,
            s.max_w == 0,
            s.i == -1,
            s.cw == 0,
    {
        RoundrobinWeight { items: Vec::new(), gcd: 0, max_w: 0, i: -1, cw: 0 }
    }

    /// Returns the next selected candidate: `None` with no entries or with
    /// no positive weight, the sole entry with one entry, and otherwise the
    /// entry the cyclic countdown sweep ends on, which always carries a
    /// positive weight.
    pub fn next(&mut self) -> (r: Option<T>)
        requires
            old(self).wf(),
        ensures
            final(self).wf(),
            final(self).items@ == old(self).items@,
            final(self).gcd == old(self).gcd,
            final(self).max_w == old(self).max_w,
            old(self).items@.len() == 0 ==> r is None && *final(self) == *old(self),
            old(self).items@.len() == 1 ==> r == Some(old(self).items@[0].item) && *final(self)
                == *old(self),
            old(self).items@.len() >= 2 && old(self).max_w == 0 ==> r is None && *final(self)
                == *old(self),
            old(self).items@.len() >= 2 && old(self).max_w >= 1 ==> ({
                let st = rr_step(
                    weights(old(self).items@),
                    old(self).gcd as int,
                    old(self).max_w as int,
                    old(self).i as int,
                    old(self).cw as int,
                );
                &&& final(self).i as int == st.0
                &&& final(self).cw as int == st.1
                &&& 1 <= st.1
                &&& r == Some(old(self).items@[st.0].item)
                &&& weights(old(self).items@)[st.0] >= 1
            }),
    {
        let n: usize = self.items.len();
        if n <= 1 {
            if n == 0 {
                return None;
            }
            return Some(self.items[0].item);
        }
        if self.max_w == 0 {
            // no positive weight: nothing is ever eligible
            return None;
        }

        let ghost w = weights(self.items@);
        proof {
            lemma_rr_aggs_props(w);
        }
        let mut i: isize = self.i;
        let mut cw: isize = self.cw;
        loop
            invariant
                *self == *old(self),
                self.wf(),
                n == self.items@.len(),
                2 <= n,
                w == weights(self.items@),
                w.len() == n,
                1 <= self.max_w,
                rr_step_ok(w, self.gcd as int, self.max_w as int, i as int, cw as int),
                (cw == 0 ==> i == -1),
                rr_step(w, self.gcd as int, self.max_w as int, old(self).i as int, old(self).cw as int)
                    == rr_step(w, self.gcd as int, self.max_w as int, i as int, cw as int),
            decreases rr_measure(w, self.gcd as int, self.max_w as int, i as int, cw as int),
        {
            let ghost i_at: int = i as int;
            let ghost cw_at: int = cw as int;

            i = i + 1;
            if i == n as isize {
                i = 0;
            }
            if i == 0 {
                cw = cw - self.gcd;
                if cw <= 0 {
                    cw = self.max_w;
                    if cw == 0 {
                        // unreachable: a positive weight exists here
                        return None;
                    }
                }
            }
            proof {
                assert(i as int == rr_adv_i(w, i_at));
                assert(cw as int == rr_adv_cw(
                    w,
                    self.gcd as int,
                    self.max_w as int,
                    i_at,
                    cw_at,
                ));
                assert(1 <= cw as int);
            }

            if self.items[i as usize].weight >= cw {
                proof {
                    assert(w[i as int] == self.items@[i as int].weight as int);
                    assert(rr_step(
                        w,
                        self.gcd as int,
                        self.max_w as int,
                        i_at,
                        cw_at,
                    ) == (i as int, cw as int));
                }
                self.i = i;
                self.cw = cw;
                return Some(self.items[i as usize].item);
            }
            proof {
                assert(w[rr_adv_i(w, i_at)] < rr_adv_cw(
                    w,
                    self.gcd as int,
                    self.max_w as int,
                    i_at,
                    cw_at,
                ));
                lemma_rr_measure_decreases(
                    w,
                    self.gcd as int,
                    self.max_w as int,
                    i_at,
                    cw_at,
                );
            }
        }
    }

    /// Appends one entry. A positive weight folds into the running
    /// aggregates; the first positive weight seeds them and parks the
    /// cursor, so the cycle restarts cleanly; a non-positive weight leaves
    /// every aggregate alone.
    pub fn add(&mut self, item: T, weight: isize)
        requires
            old(self).wf(),
            old(self).items@.len() < isize::MAX as int,
        ensures
            final(self).wf(),
            final(self).items@ == old(self).items@.push(RRWeightItem { item, weight }),
            weight <= 0 ==> final(self).gcd == old(self).gcd && final(self).max_w == old(
                self,
            ).max_w && final(self).i == old(self).i && final(self).cw == old(self).cw,
            weight >= 1 && old(self).gcd == 0 ==> final(self).gcd == weight && final(self).max_w
                == weight && final(self).i == -1 && final(self).cw == 0,
            weight >= 1 && old(self).gcd >= 1 ==> final(self).gcd as int == spec_gcd(
                old(self).gcd as int,
                weight as int,
            ) && final(self).max_w == (if old(self).max_w < weight {
                weight
            } else {
                old(self).max_w
            }) && final(self).i == old(self).i && final(self).cw == old(self).cw,
    {
        proof {
            lemma_rr_aggs_props(weights(old(self).items@));
        }
        let weight_item = RRWeightItem { item, weight };

        if weight > 0 {
            if self.gcd == 0 {
                self.gcd = weight;
                self.max_w = weight;
                self.i = -1;
                self.cw = 0;
            } else {
                self.gcd = gcd(self.gcd, weight);
                if self.max_w < weight {
                    self.max_w = weight;
                }
            }
        }

        self.items.push(weight_item);
        proof {
            let w0 = weights(old(self).items@);
            let w1 = weights(self.items@);
            assert(w1.drop_last() =~= w0);
            assert(w1.last() == weight as int);
        }
    }

    /// A snapshot of the entries, in insertion order.
    pub fn all(&self) -> (r: Vec<(T, isize)>)
        ensures
            r@.len() == self.items@.len(),
            forall|k: int|
                0 <= k < r@.len() ==> #[trigger] r@[k] == (
                    self.items@[k].item,
                    self.items@[k].weight,
                ),
    {
        let mut out: Vec<(T, isize)> = Vec::new();
        let mut k: usize = 0;
        while k < self.items.len()
            invariant
                k <= self.items@.len(),
                out@.len() == k,
                forall|j: int|
                    0 <= j < k ==> #[trigger] out@[j] == (
                        self.items@[j].item,
                        self.items@[j].weight,
                    ),
            decreases self.items@.len() - k,
        {
            out.push((self.items[k].item, self.items[k].weight));
            k = k + 1;
        }
        out
    }

    /// Clears every entry and every aggregate, exactly as construction
    /// leaves them.
    pub fn remove_all(&mut self)
        ensures
            final(self).wf(),
            final(self).items@.len() == 0,
            final(self).gcd == 0,
            final(self).max_w == 0,
            final(self).i == -1,
            final(self).cw == 0,
    {
        self.items.clear();
        self.gcd = 0;
        self.max_w = 0;
        self.i = -1;
        self.cw = 0;
    }

    /// Parks the cursor and countdown again; entries and aggregates are
    /// retained.
    pub fn reset(&mut self)
        requires
            old(self).wf(),
        ensures
            final(self).wf(),
            final(self).items@ == old(self).items@,
            final(self).gcd == old(self).gcd,
            final(self).max_w == old(self).max_w,
            final(self).i == -1,
            final(self).cw == 0,
    {
        self.i = -1;
        self.cw = 0;
    }
}

/// Two well-formed round-robin selectors over the same entries whose
/// cursor and countdown are parked are equal in every field: resetting a
/// selector restarts the selection sequence of a freshly built one with
/// the same entries.
pub proof fn lemma_reset_restarts<T: Copy>(a: RoundrobinWeight<T>, b: RoundrobinWeight<T>)
    requires
        a.wf(),
        b.wf(),
        a.items@ == b.items@,
        a.i == -1,
        a.cw == 0,
        b.i == -1,
        b.cw == 0,
    ensures
        a.gcd == b.gcd,
        a.max_w == b.max_w,
        a.i == b.i,
        a.cw == b.cw,
{
}

impl<T: Copy> Weight for RoundrobinWeight<T> {
    type Item = T;

    open spec fn entries(&self) -> Seq<(T, int)> {
        self.items@.map_values(|e: RRWeightItem<T>| (e.item, e.weight as int))
    }

    open spec fn inv(&self) -> bool {
        self.wf()
    }

    open spec fn next_req(&self) -> bool {
        true
    }

    open spec fn add_req(&self, weight: int) -> bool {
        self.items@.len() < isize::MAX as int
    }

    fn next(&mut self) -> (r: Option<T>) {
        let r = RoundrobinWeight::<T>::next(self);
        proof {
            assert(self.entries() =~= old(self).entries());
        }
        r
    }

    fn add(&mut self, item: T, weight: isize) {
        RoundrobinWeight::<T>::add(self, item, weight);
        proof {
            assert(self.entries() =~= old(self).entries().push((item, weight as int)));
        }
    }

    fn all(&self) -> (r: Vec<(T, isize)>) {
        RoundrobinWeight::<T>::all(self)
    }

    fn remove_all(&mut self) {
        RoundrobinWeight::<T>::remove_all(self);
    }

    fn reset(&mut self) {
        RoundrobinWeight::<T>::reset(self);
        proof {
            assert(self.entries() =~= old(self).entries());
        }
    }
}

} // verus!
