//! The live value tracker: the set of values live at the current point of a
//! block, kept up to date one instruction at a time.
use vstd::prelude::*;
use crate::domtree::{DomTree, available, available_values};
use crate::ir::{has_value, Function, FuncModel};
use crate::liveness::{Liveness, liveness_complete, has_range, span_of, starts_at, ends_at};

verus! {

/// Whether the start of the span of `v` that begins at `begin` in block `b` is
/// explained by a definition the tracker sees: a parameter of `b` or a value
/// defined in a strict dominator of `b` for a span that begins at the block's
/// entry, the result of the instruction just before it otherwise.
pub open spec fn started(m: FuncModel, t: DomTree, b: int, v: int, begin: int) -> bool {
    if begin == 0 {
        available(m, t, b, v) || has_value(m.blocks[b].params, v)
    } else {
        begin - 1 < m.blocks[b].insts.len() && has_value(m.blocks[b].insts[begin - 1].results, v)
    }
}

/// Whether the tracker holds value `v` at point `j` of block `b`: `v` is live
/// there and the start of its span is explained by a definition.
pub open spec fn held(m: FuncModel, l: Liveness, t: DomTree, b: int, j: int, v: int) -> bool {
    &&& 0 <= v < m.types.len()
    &&& match span_of(l, v, b) {
        Some(s) => s.begin <= j <= s.end && started(m, t, b, v, s.begin as int),
        None => false,
    }
}

/// The held set at point `j` of block `b`, as a membership sequence.
pub open spec fn held_set(m: FuncModel, l: Liveness, t: DomTree, b: int, j: int) -> Seq<bool> {
    Seq::new(m.types.len(), |v: int| held(m, l, t, b, j, v))
}

/// The indices below `n` at which `live` holds, in increasing order.
pub open spec fn live_ids(live: Seq<bool>, n: int) -> Seq<u32>
    decreases n,
{
    if n <= 0 {
        Seq::empty()
    } else if live[n - 1] {
        live_ids(live, n - 1).push((n - 1) as u32)
    } else {
        live_ids(live, n - 1)
    }
}

/// The working set of the tracker, as one flag per value.
pub struct LiveValueTracker {
    live: Vec<bool>,
}

impl View for LiveValueTracker {
    type V = Seq<bool>;

    closed spec fn view(&self) -> Seq<bool> {
        self.live@
    }
}

impl LiveValueTracker {
    /// A tracker for a function with `n` values, holding none of them.
    pub fn new(n: usize) -> (r: Self)
        ensures
            r@.len() == n,
            forall|v: int| 0 <= v < n ==> !#[trigger] r@[v],
    {
        LiveValueTracker { live: crate::domtree::none_set(n) }
    }

    /// Seeds the working set for the entry of block `b`: the values live on
    /// entry to `b` that are parameters of `b` or are defined in one of its
    /// strict dominators. Values that are dead on arrival are left out.
    pub fn enter_block(&mut self, f: &Function, l: &Liveness, t: &DomTree, b: usize)
        requires
            liveness_complete(f@, *l),
            t.wf(f@.blocks.len() as int),
            b < f@.blocks.len(),
        ensures
            final(self)@ == held_set(f@, *l, *t, b as int, 0),
    {
        let nv = f.value_types.len();
        let avail = available_values(f, t, b);
        let mut live = crate::domtree::none_set(nv);
        let mut v: usize = 0;
        while v < nv
            invariant
                liveness_complete(f@, *l),
                b < f@.blocks.len(),
                nv == f@.types.len(),
                avail@.len() == nv,
                forall|w: int| 0 <= w < nv ==> #[trigger] avail@[w] == available(f@, *t, b as int, w),
                live@.len() == nv,
                v <= nv,
                forall|w: int| 0 <= w < nv ==> #[trigger] live@[w] == (w < v && avail@[w] && starts_at(*l, w, b as int, 0)),
            decreases nv - v,
        {
            assert(has_range(f@, *l, v as int));
            if avail[v] {
                match l.ranges[v].spans[b] {
                    Some(s) => {
                        if s.begin == 0 {
                            live.set(v, true);
                        }
                    }
                    None => {}
                }
            }
            v += 1;
        }
        assert(f.blocks@[b as int]@ == f@.blocks[b as int]);
        let params = &f.blocks[b].params;
        let mut i: usize = 0;
        while i < params.len()
            invariant
                liveness_complete(f@, *l),
                b < f@.blocks.len(),
                nv == f@.types.len(),
                params@ == f@.blocks[b as int].params,
                avail@.len() == nv,
                forall|w: int| 0 <= w < nv ==> #[trigger] avail@[w] == available(f@, *t, b as int, w),
                live@.len() == nv,
                i <= params@.len(),
                forall|w: int| 0 <= w < nv ==> #[trigger] live@[w] == ((avail@[w] || has_value(params@.take(i as int), w)) && starts_at(*l, w, b as int, 0)),
            decreases params@.len() - i,
        {
            let p = params[i];
            assert(crate::liveness::block_values_below(f@, b as int));
            assert(p < nv);
            assert(has_range(f@, *l, p as int));
            match l.ranges[p as usize].spans[b] {
                Some(s) => {
                    if s.begin == 0 {
                        live.set(p as usize, true);
                    }
                }
                None => {}
            }
            assert forall|w: int| 0 <= w < nv implies #[trigger] live@[w] == ((avail@[w] || has_value(params@.take(i as int + 1), w)) && starts_at(*l, w, b as int, 0)) by {
                let t0 = params@.take(i as int);
                let t1 = params@.take(i as int + 1);
                assert(t1[i as int] == p);
                if has_value(t0, w) {
                    let k = choose|k: int| 0 <= k < t0.len() && t0[k] as int == w;
                    assert(t1[k] == t0[k]);
                }
                if has_value(t1, w) {
                    let k = choose|k: int| 0 <= k < t1.len() && t1[k] as int == w;
                    if k < t0.len() {
                        assert(t1[k] == t0[k]);
                    }
                }
            }
            i += 1;
        }
        assert(params@.take(i as int) =~= params@);
        self.live = live;
        assert(self@ =~= held_set(f@, *l, *t, b as int, 0));
    }

    /// Removes from the working set every value whose live range in block `b`
    /// ends at point `point`: the values whose last use is the instruction
    /// there.
    pub fn retire(&mut self, l: &Liveness, b: usize, point: usize)
        requires
            old(self)@.len() <= l.ranges@.len(),
            forall|v: int| 0 <= v < old(self)@.len() ==> b < (#[trigger] l.ranges@[v]).spans@.len(),
        ensures
            final(self)@.len() == old(self)@.len(),
            forall|v: int|
                0 <= v < old(self)@.len() ==> #[trigger] final(self)@[v] == (old(self)@[v] && !ends_at(*l, v, b as int, point as int)),
    {
        let n = self.live.len();
        let mut v: usize = 0;
        while v < n
            invariant
                n == old(self)@.len(),
                n <= l.ranges@.len(),
                forall|w: int| 0 <= w < n ==> b < (#[trigger] l.ranges@[w]).spans@.len(),
                self@.len() == n,
                v <= n,
                forall|w: int|
                    0 <= w < n ==> #[trigger] self@[w] == (if w < v {
                        old(self)@[w] && !ends_at(*l, w, b as int, point as int)
                    } else {
                        old(self)@[w]
                    }),
            decreases n - v,
        {
            match l.ranges[v].spans[b] {
                Some(s) => {
                    if s.end == point {
                        self.live.set(v, false);
                    }
                }
                None => {}
            }
            v += 1;
        }
    }

    /// Adds to the working set the results of the instruction at point
    /// `point` of block `b` whose live range in `b` begins right after it.
    /// Results that are never used are not added.
    pub fn process(&mut self, l: &Liveness, b: usize, point: usize, results: &Vec<u32>)
        requires
            old(self)@.len() <= l.ranges@.len(),
            forall|v: int| 0 <= v < old(self)@.len() ==> b < (#[trigger] l.ranges@[v]).spans@.len(),
            forall|k: int| 0 <= k < results@.len() ==> results@[k] < old(self)@.len(),
        ensures
            final(self)@.len() == old(self)@.len(),
            forall|v: int|
                0 <= v < old(self)@.len() ==> #[trigger] final(self)@[v] == (old(self)@[v] || (has_value(
                    results@,
                    v,
                ) && starts_at(*l, v, b as int, point + 1))),
    {
        let n = self.live.len();
        let mut i: usize = 0;
        while i < results.len()
            invariant
                n == old(self)@.len(),
                n <= l.ranges@.len(),
                forall|w: int| 0 <= w < n ==> b < (#[trigger] l.ranges@[w]).spans@.len(),
                forall|k: int| 0 <= k < results@.len() ==> results@[k] < n,
                self@.len() == n,
                i <= results@.len(),
                forall|w: int|
                    0 <= w < n ==> #[trigger] self@[w] == (old(self)@[w] || (has_value(results@.take(i as int), w)
                        && starts_at(*l, w, b as int, point + 1))),
            decreases results@.len() - i,
        {
            let r = results[i];
            match l.ranges[r as usize].spans[b] {
                Some(s) => {
                    if point < usize::MAX && s.begin == point + 1 && s.end >= point + 1 {
                        self.live.set(r as usize, true);
                    }
                }
                None => {}
            }
            assert forall|w: int| 0 <= w < n implies #[trigger] self@[w] == (old(self)@[w] || (has_value(results@.take(i as int + 1), w)
                        && starts_at(*l, w, b as int, point + 1))) by {
                let t0 = results@.take(i as int);
                let t1 = results@.take(i as int + 1);
                assert(t1[i as int] == r);
                if has_value(t0, w) {
                    let k = choose|k: int| 0 <= k < t0.len() && t0[k] as int == w;
                    assert(t1[k] == t0[k]);
                }
                if has_value(t1, w) {
                    let k = choose|k: int| 0 <= k < t1.len() && t1[k] as int == w;
                    if k < t0.len() {
                        assert(t1[k] == t0[k]);
                    }
                }
            }
            i += 1;
        }
        assert(results@.take(i as int) =~= results@);
    }

    /// The values of the working set, in increasing order.
    pub fn snapshot(&self) -> (r: Vec<u32>)
        requires
            self@.len() <= u32::MAX as int + 1,
        ensures
            r@ == live_ids(self@, self@.len() as int),
    {
        let mut r: Vec<u32> = Vec::new();
        let mut v: usize = 0;
        while v < self.live.len()
            invariant
                self@.len() <= u32::MAX as int + 1,
                v <= self@.len(),
                r@ == live_ids(self@, v as int),
            decreases self@.len() - v,
        {
            if self.live[v] {
                r.push(v as u32);
            }
            v += 1;
        }
        r
    }
}

} // verus!
