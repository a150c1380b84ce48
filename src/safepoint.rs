//! Which instructions are safepoints, under a configurable policy.
use vstd::prelude::*;
use crate::domtree::{DomTree, none_set};
use crate::error::StackmapError;
use crate::ir::{Function, FuncModel, Inst, Opcode, strip, raw_insts, lemma_strip_take, lemma_strip_all, lemma_strip_point};

verus! {

/// The policy that decides which instructions are safepoints.
#[derive(Clone, Copy, Debug, PartialEq, Eq, Structural)]
pub enum SafepointPolicy {
    /// Every call: collection may happen inside any callee.
    CallSites,
    /// The entry of every block that is the target of a back edge.
    LoopHeaders,
    /// Only the instructions that the frontend tagged as safepoints.
    ExplicitMarkers,
}

impl Default for SafepointPolicy {
    fn default() -> (r: Self)
        ensures
            r == SafepointPolicy::CallSites,
    {
        SafepointPolicy::CallSites
    }
}

/// Whether block number `h` is among `dests`.
pub open spec fn has_dest(dests: Seq<usize>, h: int) -> bool {
    exists|e: int| 0 <= e < dests.len() && dests[e] as int == h
}

/// Whether some instruction of block `s` branches to `h` and `h` dominates
/// `s`, so that the edge goes back.
pub open spec fn back_edge(m: FuncModel, t: DomTree, s: int, h: int) -> bool {
    &&& t.dominates(h, s)
    &&& exists|k: int| 0 <= k < m.blocks[s].insts.len() && has_dest((#[trigger] m.blocks[s].insts[k]).dests, h)
}

/// Whether `h` is the target of a back edge from a reachable block.
pub open spec fn is_loop_header(m: FuncModel, t: DomTree, h: int) -> bool {
    exists|s: int| 0 <= s < m.blocks.len() && t.reachable(s) && #[trigger] back_edge(m, t, s, h)
}

pub open spec fn dests_reachable(t: DomTree, dests: Seq<usize>) -> bool {
    forall|e: int| 0 <= e < dests.len() ==> t.reachable(#[trigger] dests[e] as int)
}

pub open spec fn block_dests_reachable(m: FuncModel, t: DomTree, s: int) -> bool {
    forall|k: int| 0 <= k < m.blocks[s].insts.len() ==> dests_reachable(t, (#[trigger] m.blocks[s].insts[k]).dests)
}

/// Every branch of a reachable block goes to a reachable block.
pub open spec fn edges_reachable(m: FuncModel, t: DomTree) -> bool {
    forall|s: int| 0 <= s < m.blocks.len() && t.reachable(s) ==> #[trigger] block_dests_reachable(m, t, s)
}

/// Whether the instruction with opcode `op` at point `j` of a block is a
/// safepoint under `policy`, `header` telling whether the block is a loop
/// header.
pub open spec fn selects(policy: SafepointPolicy, op: Opcode, j: int, header: bool) -> bool {
    match policy {
        SafepointPolicy::CallSites => op is Call,
        SafepointPolicy::LoopHeaders => j == 0 && header,
        SafepointPolicy::ExplicitMarkers => op is Safepoint,
    }
}

/// Whether the program instruction at point `j` of block `b` is a safepoint.
pub open spec fn is_safepoint(m: FuncModel, t: DomTree, policy: SafepointPolicy, b: int, j: int) -> bool {
    selects(policy, m.blocks[b].insts[j].opcode, j, is_loop_header(m, t, b))
}

/// Whether `inst`, at point `point` of a block, is a safepoint under
/// `policy`; `header` tells whether the block is a loop header. Markers are
/// never safepoints.
pub fn is_safepoint_inst(policy: SafepointPolicy, inst: &Inst, point: usize, header: bool) -> (r: bool)
    ensures
        r == selects(policy, inst.opcode, point as int, header),
{
    match policy {
        SafepointPolicy::CallSites => inst.opcode == Opcode::Call,
        SafepointPolicy::LoopHeaders => point == 0 && header,
        SafepointPolicy::ExplicitMarkers => inst.opcode == Opcode::Safepoint,
    }
}

/// Marks in `hdr` each destination of `dests` that dominates block `s`.
fn mark_back_edges(t: &DomTree, s: usize, dests: &Vec<usize>, hdr: &mut Vec<bool>, Ghost(n): Ghost<int>) -> (r: Result<(), StackmapError>)
    requires
        t.wf(n),
        t.reachable(s as int),
        old(hdr)@.len() == n,
    ensures
        final(hdr)@.len() == n,
        r is Ok <==> dests_reachable(*t, dests@),
        r matches Err(e) ==> e matches StackmapError::UnreachableBlockQueried { block } && !t.reachable(block as int),
        r is Ok ==> forall|h: int| 0 <= h < n ==> #[trigger] final(hdr)@[h] == (old(hdr)@[h] || (has_dest(dests@, h) && t.dominates(h, s as int))),
{
    let mut e: usize = 0;
    while e < dests.len()
        invariant
            t.wf(n),
            t.reachable(s as int),
            hdr@.len() == n,
            e <= dests@.len(),
            dests_reachable(*t, dests@.take(e as int)),
            forall|h: int| 0 <= h < n ==> #[trigger] hdr@[h] == (old(hdr)@[h] || (has_dest(dests@.take(e as int), h) && t.dominates(h, s as int))),
        decreases dests@.len() - e,
    {
        let d = dests[e];
        let t0 = Ghost(dests@.take(e as int));
        let t1 = Ghost(dests@.take(e as int + 1));
        assert(t1@[e as int] == d);
        match t.dominates_block(d, s) {
            Err(err) => {
                assert(dests@[e as int] == d);
                assert(!dests_reachable(*t, dests@));
                return Err(err);
            }
            Ok(back) => {
                if back {
                    hdr.set(d, true);
                }
            }
        }
        assert forall|h: int| 0 <= h < n implies #[trigger] hdr@[h] == (old(hdr)@[h] || (has_dest(t1@, h) && t.dominates(h, s as int))) by {
            if has_dest(t0@, h) {
                let k = choose|k: int| 0 <= k < t0@.len() && t0@[k] as int == h;
                assert(t1@[k] == t0@[k]);
            }
            if has_dest(t1@, h) {
                let k = choose|k: int| 0 <= k < t1@.len() && t1@[k] as int == h;
                if k < t0@.len() {
                    assert(t1@[k] == t0@[k]);
                }
            }
        }
        assert forall|k: int| 0 <= k < t1@.len() implies t.reachable(#[trigger] t1@[k] as int) by {
            if k < t0@.len() {
                assert(t1@[k] == t0@[k]);
            }
        }
        e += 1;
    }
    assert(dests@.take(e as int) =~= dests@);
    Ok(())
}

/// Which blocks are loop headers: the targets of back edges, an edge going
/// back when its target dominates its source. Only the edges of reachable
/// blocks count; one that leads to an unreachable block is an error.
pub fn loop_headers(f: &Function, t: &DomTree) -> (r: Result<Vec<bool>, StackmapError>)
    requires
        t.wf(f@.blocks.len() as int),
    ensures
        r is Ok <==> edges_reachable(f@, *t),
        r matches Err(e) ==> e matches StackmapError::UnreachableBlockQueried { block } && !t.reachable(block as int),
        r matches Ok(hdr) ==> hdr@.len() == f@.blocks.len() && forall|h: int|
            0 <= h < f@.blocks.len() ==> #[trigger] hdr@[h] == is_loop_header(f@, *t, h),
{
    let nb = f.blocks.len();
    let ghost n = nb as int;
    let mut hdr = none_set(nb);
    let mut s: usize = 0;
    while s < nb
        invariant
            t.wf(n),
            n == nb,
            nb == f@.blocks.len(),
            s <= nb,
            hdr@.len() == nb,
            forall|c: int| 0 <= c < s && t.reachable(c) ==> #[trigger] block_dests_reachable(f@, *t, c),
            forall|h: int| 0 <= h < nb ==> #[trigger] hdr@[h] == exists|c: int| 0 <= c < s && t.reachable(c) && #[trigger] back_edge(f@, *t, c, h),
        decreases nb - s,
    {
        if s == t.entry || t.idom[s].is_some() {
            let block = &f.blocks[s];
            assert(f@.blocks[s as int] == block@);
            let ghost raw = raw_insts(*block);
            let ghost before = hdr@;
            let mut i: usize = 0;
            while i < block.insts.len()
                invariant
                    t.wf(n),
                    n == nb,
                    before.len() == nb,
                    t.reachable(s as int),
                    s < nb,
                    nb == f@.blocks.len(),
                    block == &f.blocks@[s as int],
                    f@.blocks[s as int] == block@,
                    raw == raw_insts(*block),
                    i <= block.insts@.len(),
                    hdr@.len() == nb,
                    forall|k: int| 0 <= k < strip(raw.take(i as int)).len() ==> dests_reachable(*t, (#[trigger] strip(raw.take(i as int))[k]).dests),
                    forall|h: int| 0 <= h < nb ==> #[trigger] hdr@[h] == (before[h] || (t.dominates(h, s as int) && exists|k: int| 0 <= k < strip(raw.take(i as int)).len() && has_dest((#[trigger] strip(raw.take(i as int))[k]).dests, h))),
                decreases block.insts@.len() - i,
            {
                let inst = &block.insts[i];
                proof {
                    lemma_strip_take(raw, i as int);
                }
                if inst.opcode != Opcode::Stackmap {
                    proof {
                        lemma_strip_point(raw, i as int);
                    }
                    let ghost s0 = strip(raw.take(i as int));
                    let ghost s1 = strip(raw.take(i as int + 1));
                    let ghost mid = hdr@;
                    assert(s1[s0.len() as int] == inst@);
                    match mark_back_edges(t, s, &inst.dests, &mut hdr, Ghost(n)) {
                        Err(err) => {
                            assert(f@.blocks[s as int].insts[s0.len() as int] == inst@);
                            assert(!block_dests_reachable(f@, *t, s as int));
                            return Err(err);
                        }
                        Ok(()) => {}
                    }
                    assert forall|k: int| 0 <= k < s1.len() implies dests_reachable(*t, (#[trigger] s1[k]).dests) by {
                        if k < s0.len() {
                            assert(s1[k] == s0[k]);
                        }
                    }
                    assert forall|h: int| 0 <= h < nb implies #[trigger] hdr@[h] == (before[h] || (t.dominates(h, s as int) && exists|k: int| 0 <= k < s1.len() && has_dest((#[trigger] s1[k]).dests, h))) by {
                        if exists|k: int| 0 <= k < s0.len() && has_dest((#[trigger] s0[k]).dests, h) {
                            let k = choose|k: int| 0 <= k < s0.len() && has_dest((#[trigger] s0[k]).dests, h);
                            assert(s1[k] == s0[k]);
                        }
                        if exists|k: int| 0 <= k < s1.len() && has_dest((#[trigger] s1[k]).dests, h) {
                            let k = choose|k: int| 0 <= k < s1.len() && has_dest((#[trigger] s1[k]).dests, h);
                            if k < s0.len() {
                                assert(s1[k] == s0[k]);
                            }
                        }
                    }
                }
                i += 1;
            }
            proof {
                lemma_strip_all(raw);
            }
            assert(block_dests_reachable(f@, *t, s as int));
            assert forall|h: int| 0 <= h < nb implies #[trigger] hdr@[h] == exists|c: int| 0 <= c < s + 1 && t.reachable(c) && #[trigger] back_edge(f@, *t, c, h) by {
                if back_edge(f@, *t, s as int, h) {
                    assert(0 <= s < s + 1 && t.reachable(s as int));
                }
            }
        }
        s += 1;
    }
    assert forall|h: int| 0 <= h < nb implies #[trigger] hdr@[h] == is_loop_header(f@, *t, h) by {}
    Ok(hdr)
}

} // verus!
