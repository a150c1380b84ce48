//! The dominator tree of a function, as computed by a dominator analysis, and
//! the values that the dominators of a block make available in it.
use vstd::prelude::*;
use crate::error::StackmapError;
use crate::ir::{has_value, Function, FuncModel, InstModel, Opcode, strip, raw_insts, lemma_strip_take, lemma_strip_all};

verus! {

/// A dominator tree over the blocks of a function.
///
/// `idom[b]` is the immediate dominator of block `b`; it is `None` for the
/// entry and for blocks that cannot be reached from it. `depth[b]` is the
/// depth of `b` in the tree. `preorder` lists the blocks to visit, each
/// block's dominators before it.
#[derive(Clone, Debug)]
pub struct DomTree {
    pub entry: usize,
    pub idom: Vec<Option<usize>>,
    pub depth: Vec<usize>,
    pub preorder: Vec<usize>,
}

impl DomTree {
    /// The tree has one node per block of an `n`-block function, and every
    /// immediate dominator is a block, shallower than the block it dominates.
    pub open spec fn wf(self, n: int) -> bool {
        &&& self.idom@.len() == n
        &&& self.depth@.len() == n
        &&& self.entry < n
        &&& self.idom@[self.entry as int] is None
        &&& forall|b: int|
            0 <= b < n ==> (#[trigger] self.idom@[b] matches Some(p) ==> p < n && self.depth@[p as int]
                < self.depth@[b])
        &&& forall|k: int| 0 <= k < self.preorder@.len() ==> #[trigger] self.preorder@[k] < n
    }

    /// Whether block `b` can be reached from the entry.
    pub open spec fn reachable(self, b: int) -> bool {
        0 <= b < self.idom@.len() && (b == self.entry || self.idom@[b] is Some)
    }

    /// Whether block `a` dominates block `b`: `a` is `b` or one of its
    /// ancestors in the tree.
    pub open spec fn dominates(self, a: int, b: int) -> bool
        decreases self.depth@[b],
    {
        if a == b {
            true
        } else if 0 <= b < self.idom@.len() && b < self.depth@.len() {
            match self.idom@[b] {
                Some(p) => if p < self.depth@.len() && self.depth@[p as int] < self.depth@[b] {
                    self.dominates(a, p as int)
                } else {
                    false
                },
                None => false,
            }
        } else {
            false
        }
    }

    /// Whether `a` dominates `b`. Both must be reachable blocks.
    pub fn dominates_block(&self, a: usize, b: usize) -> (r: Result<bool, StackmapError>)
        requires
            self.wf(self.idom@.len() as int),
        ensures
            r is Ok <==> self.reachable(a as int) && self.reachable(b as int),
            r matches Ok(d) ==> d == self.dominates(a as int, b as int),
            r matches Err(e) ==> e matches StackmapError::UnreachableBlockQueried { block } && !self.reachable(
                block as int,
            ) && (block == a || block == b),
    {
        if a >= self.idom.len() || (a != self.entry && self.idom[a].is_none()) {
            return Err(StackmapError::UnreachableBlockQueried { block: a });
        }
        if b >= self.idom.len() || (b != self.entry && self.idom[b].is_none()) {
            return Err(StackmapError::UnreachableBlockQueried { block: b });
        }
        let mut cur = b;
        loop
            invariant
                self.wf(self.idom@.len() as int),
                self.reachable(a as int),
                self.reachable(b as int),
                cur < self.idom@.len(),
                self.dominates(a as int, b as int) == self.dominates(a as int, cur as int),
            decreases self.depth@[cur as int],
        {
            if cur == a {
                return Ok(true);
            }
            match self.idom[cur] {
                Some(p) => {
                    cur = p;
                }
                None => {
                    return Ok(false);
                }
            }
        }
    }
}

/// Whether block `b` defines value `v`, as a parameter or as the result of
/// one of its instructions.
pub open spec fn defines(m: FuncModel, b: int, v: int) -> bool {
    ||| has_value(m.blocks[b].params, v)
    ||| exists|k: int| 0 <= k < m.blocks[b].insts.len() && has_value((#[trigger] m.blocks[b].insts[k]).results, v)
}

/// Whether value `v` is defined in a block that strictly dominates `b`.
pub open spec fn available(m: FuncModel, t: DomTree, b: int, v: int) -> bool
    decreases t.depth@[b],
{
    if 0 <= b < t.idom@.len() && b < t.depth@.len() {
        match t.idom@[b] {
            Some(p) => if p < t.depth@.len() && t.depth@[p as int] < t.depth@[b] {
                available(m, t, p as int, v) || defines(m, p as int, v)
            } else {
                false
            },
            None => false,
        }
    } else {
        false
    }
}

/// Sets `set[v]` for every `v` of `vals` that indexes `set`.
fn mark_all(set: &mut Vec<bool>, vals: &Vec<u32>)
    ensures
        final(set)@.len() == old(set)@.len(),
        forall|v: int|
            0 <= v < old(set)@.len() ==> #[trigger] final(set)@[v] == (old(set)@[v] || has_value(vals@, v)),
{
    let mut i: usize = 0;
    while i < vals.len()
        invariant
            i <= vals@.len(),
            set@.len() == old(set)@.len(),
            forall|v: int|
                0 <= v < old(set)@.len() ==> #[trigger] set@[v] == (old(set)@[v] || has_value(vals@.take(i as int), v)),
        decreases vals@.len() - i,
    {
        let x = vals[i];
        if (x as usize) < set.len() {
            set.set(x as usize, true);
        }
        assert(vals@.take(i as int + 1) =~= vals@.take(i as int).push(x));
        assert forall|v: int| 0 <= v < old(set)@.len() implies #[trigger] set@[v] == (old(set)@[v] || has_value(vals@.take(i as int + 1), v)) by {
            let t0 = vals@.take(i as int);
            let t1 = vals@.take(i as int + 1);
            assert(t1[i as int] == x);
            if has_value(t0, v) {
                let k = choose|k: int| 0 <= k < t0.len() && t0[k] as int == v;
                assert(t1[k] == t0[k]);
            }
            if has_value(t1, v) {
                let k = choose|k: int| 0 <= k < t1.len() && t1[k] as int == v;
                if k < t0.len() {
                    assert(t1[k] == t0[k]);
                }
            }
        }
        i += 1;
    }
    assert(vals@.take(i as int) =~= vals@);
}

/// Sets `acc[v]` wherever `other[v]` is set.
fn or_into(acc: &mut Vec<bool>, other: &Vec<bool>)
    requires
        old(acc)@.len() == other@.len(),
    ensures
        final(acc)@.len() == old(acc)@.len(),
        forall|v: int| 0 <= v < other@.len() ==> #[trigger] final(acc)@[v] == (old(acc)@[v] || other@[v]),
{
    let mut v: usize = 0;
    while v < other.len()
        invariant
            acc@.len() == other@.len(),
            v <= other@.len(),
            forall|w: int| 0 <= w < other@.len() ==> #[trigger] acc@[w] == (if w < v { old(acc)@[w] || other@[w] } else { old(acc)@[w] }),
        decreases other@.len() - v,
    {
        if other[v] {
            acc.set(v, true);
        }
        v += 1;
    }
}

/// A vector of `n` copies of `false`.
pub fn none_set(n: usize) -> (r: Vec<bool>)
    ensures
        r@.len() == n,
        forall|v: int| 0 <= v < n ==> !#[trigger] r@[v],
{
    let mut r: Vec<bool> = Vec::new();
    while r.len() < n
        invariant
            r@.len() <= n,
            forall|v: int| 0 <= v < r@.len() ==> !#[trigger] r@[v],
        decreases n - r@.len(),
    {
        r.push(false);
    }
    r
}

/// Whether some instruction of `s` has `v` among its results.
pub open spec fn some_result(s: Seq<InstModel>, v: int) -> bool {
    exists|k: int| 0 <= k < s.len() && has_value((#[trigger] s[k]).results, v)
}

/// The values that block `b` defines, as a membership vector over the
/// function's values.
pub fn defined_values(f: &Function, b: usize) -> (r: Vec<bool>)
    requires
        b < f.blocks@.len(),
    ensures
        r@.len() == f@.types.len(),
        forall|v: int| 0 <= v < f@.types.len() ==> #[trigger] r@[v] == defines(f@, b as int, v),
{
    let block = &f.blocks[b];
    assert(f@.blocks[b as int] == block@);
    let mut r = none_set(f.value_types.len());
    mark_all(&mut r, &block.params);
    let ghost raw = raw_insts(*block);
    let mut i: usize = 0;
    while i < block.insts.len()
        invariant
            block == &f.blocks@[b as int],
            f@.blocks[b as int] == block@,
            raw == raw_insts(*block),
            i <= block.insts@.len(),
            r@.len() == f@.types.len(),
            forall|v: int|
                0 <= v < f@.types.len() ==> #[trigger] r@[v] == (has_value(block.params@, v) || some_result(strip(raw.take(i as int)), v)),
        decreases block.insts@.len() - i,
    {
        let inst = &block.insts[i];
        proof {
            lemma_strip_take(raw, i as int);
        }
        if inst.opcode != Opcode::Stackmap {
            mark_all(&mut r, &inst.results);
            assert forall|v: int| 0 <= v < f@.types.len() implies #[trigger] r@[v] == (has_value(block.params@, v) || some_result(strip(raw.take(i as int + 1)), v)) by {
                let s0 = strip(raw.take(i as int));
                let s1 = strip(raw.take(i as int + 1));
                assert(s1[s0.len() as int] == inst@);
                if some_result(s0, v) {
                    let k = choose|k: int| 0 <= k < s0.len() && has_value((#[trigger] s0[k]).results, v);
                    assert(s1[k] == s0[k]);
                }
                if some_result(s1, v) {
                    let k = choose|k: int| 0 <= k < s1.len() && has_value((#[trigger] s1[k]).results, v);
                    if k < s0.len() {
                        assert(s1[k] == s0[k]);
                    }
                }
            }
        }
        i += 1;
    }
    proof {
        lemma_strip_all(raw);
    }
    r
}

/// The values defined in the blocks that strictly dominate `b`, as a
/// membership vector over the function's values. Found by walking up the tree
/// from `b`.
pub fn available_values(f: &Function, t: &DomTree, b: usize) -> (r: Vec<bool>)
    requires
        t.wf(f@.blocks.len() as int),
        b < f@.blocks.len(),
    ensures
        r@.len() == f@.types.len(),
        forall|v: int| 0 <= v < f@.types.len() ==> #[trigger] r@[v] == available(f@, *t, b as int, v),
{
    let nv = f.value_types.len();
    let mut acc = none_set(nv);
    let mut cur = b;
    loop
        invariant
            t.wf(f@.blocks.len() as int),
            f@.blocks.len() == f.blocks@.len(),
            cur < f@.blocks.len(),
            nv == f@.types.len(),
            acc@.len() == nv,
            forall|v: int| 0 <= v < nv ==> available(f@, *t, b as int, v) == (#[trigger] acc@[v] || available(f@, *t, cur as int, v)),
        decreases t.depth@[cur as int],
    {
        match t.idom[cur] {
            Some(p) => {
                let defs = defined_values(f, p);
                or_into(&mut acc, &defs);
                assert forall|v: int| 0 <= v < nv implies available(f@, *t, cur as int, v) == (available(f@, *t, p as int, v) || defines(f@, p as int, v)) by {
                    assert(t.idom@[cur as int] == Some(p));
                }
                cur = p;
            }
            None => {
                return acc;
            }
        }
    }
}

} // verus!
