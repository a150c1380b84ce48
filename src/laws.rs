//! What holds of the records the pass computes.
use vstd::prelude::*;
use crate::domtree::{DomTree, available, defines};
use crate::ir::{has_value, is_reference, Function, FuncModel, Type, raw_insts};
use crate::liveness::{Liveness, covers, span_of};
use crate::safepoint::{SafepointPolicy, is_loop_header, is_safepoint};
use crate::markers::{lemma_marked_strip, marked, target_exists};
use crate::stackmap::{
    RecordModel, SafepointRecord, computable, record_at, record_models, refs_only, stackmap_records,
    records_upto, block_records, lemma_live_ids,
};
use crate::tracker::{held, held_set, live_ids, started};

verus! {

/// A value is in `refs_only(types, ids)` exactly when it is in `ids` and has
/// a reference type; the order of `ids` is kept.
pub proof fn lemma_refs_only(types: Seq<Type>, ids: Seq<u32>)
    requires
        forall|k: int| 0 <= k < ids.len() ==> (#[trigger] ids[k]) < types.len(),
    ensures
        forall|x: int|
            #![trigger has_value(refs_only(types, ids), x)]
            has_value(refs_only(types, ids), x) <==> (has_value(ids, x) && is_reference(types[x])),
        (forall|i: int, k: int| 0 <= i < k < ids.len() ==> ids[i] < ids[k]) ==> (forall|i: int, k: int|
            0 <= i < k < refs_only(types, ids).len() ==> refs_only(types, ids)[i] < refs_only(types, ids)[k]),
        forall|k: int| 0 <= k < refs_only(types, ids).len() ==> has_value(ids, #[trigger] refs_only(types, ids)[k] as int),
    decreases ids.len(),
{
    if ids.len() > 0 {
        let p = ids.drop_last();
        lemma_refs_only(types, p);
        let rp = refs_only(types, p);
        let r = refs_only(types, ids);
        let x0 = ids.last();
        assert forall|x: int| #![trigger has_value(r, x)] has_value(r, x) <==> (has_value(ids, x) && is_reference(types[x])) by {
            if has_value(p, x) {
                let k = choose|k: int| 0 <= k < p.len() && p[k] as int == x;
                assert(ids[k] == p[k]);
            }
            if has_value(ids, x) {
                let k = choose|k: int| 0 <= k < ids.len() && ids[k] as int == x;
                if k < p.len() {
                    assert(ids[k] == p[k]);
                    assert(has_value(p, x));
                }
            }
            if has_value(rp, x) {
                let k = choose|k: int| 0 <= k < rp.len() && rp[k] as int == x;
                if is_reference(types[x0 as int]) {
                    assert(r[k] == rp[k]);
                }
            }
            if has_value(r, x) {
                let k = choose|k: int| 0 <= k < r.len() && r[k] as int == x;
                if k < rp.len() {
                    assert(r[k] == rp[k]);
                    assert(has_value(rp, x));
                }
            }
            if is_reference(types[x0 as int]) {
                assert(r[rp.len() as int] == x0);
            }
            assert(ids[ids.len() - 1] == x0);
        }
        assert forall|k: int| 0 <= k < r.len() implies has_value(ids, #[trigger] r[k] as int) by {
            if k < rp.len() {
                assert(r[k] == rp[k]);
                let q = choose|q: int| 0 <= q < p.len() && p[q] as int == rp[k] as int;
                assert(ids[q] == p[q]);
            } else {
                assert(ids[ids.len() - 1] == x0);
            }
        }
        if forall|i: int, k: int| 0 <= i < k < ids.len() ==> ids[i] < ids[k] {
            assert(forall|i: int, k: int| 0 <= i < k < p.len() ==> p[i] < p[k]) by {
                assert forall|i: int, k: int| 0 <= i < k < p.len() implies p[i] < p[k] by {
                    assert(p[i] == ids[i] && p[k] == ids[k]);
                }
            }
            assert forall|i: int, k: int| 0 <= i < k < r.len() implies r[i] < r[k] by {
                if k >= rp.len() {
                    assert(r[i] == rp[i]);
                    let q = choose|q: int| 0 <= q < p.len() && p[q] as int == rp[i] as int;
                    assert(ids[q] == p[q]);
                    assert(ids[q] < ids[ids.len() - 1]);
                } else {
                    assert(r[i] == rp[i] && r[k] == rp[k]);
                }
            }
        }
    }
}

/// What a record holds: the reference values held at its point, in
/// increasing order.
pub proof fn lemma_record_values(m: FuncModel, l: Liveness, t: DomTree, b: int, j: int)
    requires
        m.types.len() <= u32::MAX as int + 1,
    ensures
        forall|x: int|
            #![trigger has_value(record_at(m, l, t, b, j).values, x)]
            has_value(record_at(m, l, t, b, j).values, x) <==> (held(m, l, t, b, j, x) && is_reference(m.types[x])),
        forall|i: int, k: int|
            0 <= i < k < record_at(m, l, t, b, j).values.len() ==> record_at(m, l, t, b, j).values[i]
                < record_at(m, l, t, b, j).values[k],
{
    let n = m.types.len() as int;
    let live = held_set(m, l, t, b, j);
    let ids = live_ids(live, n);
    let vals = record_at(m, l, t, b, j).values;
    lemma_live_ids(live, n);
    lemma_refs_only(m.types, ids);
    assert forall|x: int| #![trigger has_value(record_at(m, l, t, b, j).values, x)]
        has_value(record_at(m, l, t, b, j).values, x) <==> (held(m, l, t, b, j, x) && is_reference(m.types[x])) by {
        if has_value(vals, x) {
            assert(has_value(ids, x));
            let q = choose|q: int| 0 <= q < ids.len() && ids[q] as int == x;
            assert(ids[q] < n);
            assert(live[x] == held(m, l, t, b, j, x));
        }
        if held(m, l, t, b, j, x) {
            assert(live[x] == held(m, l, t, b, j, x));
        }
    }
}

/// Whether `r` is the record of its own block and point, a safepoint.
pub open spec fn is_point_record(m: FuncModel, l: Liveness, t: DomTree, policy: SafepointPolicy, r: RecordModel) -> bool {
    &&& 0 <= r.block < m.blocks.len()
    &&& 0 <= r.point < m.blocks[r.block].insts.len()
    &&& is_safepoint(m, t, policy, r.block, r.point)
    &&& r == record_at(m, l, t, r.block, r.point)
}

/// Every record of the first `k` blocks of the traversal order is the record
/// of a point of a block.
pub proof fn lemma_records_are_points(m: FuncModel, l: Liveness, t: DomTree, policy: SafepointPolicy, k: int)
    requires
        t.wf(m.blocks.len() as int),
        0 <= k <= t.preorder@.len(),
    ensures
        forall|i: int|
            0 <= i < records_upto(m, l, t, policy, k).len() ==> is_point_record(m, l, t, policy, #[trigger] records_upto(m, l, t, policy, k)[i]),
    decreases k,
{
    if k > 0 {
        lemma_records_are_points(m, l, t, policy, k - 1);
        let b = t.preorder@[k - 1] as int;
        let n = m.blocks[b].insts.len() as int;
        lemma_block_records_are_points(m, l, t, policy, b, n);
        let prev = records_upto(m, l, t, policy, k - 1);
        let here = block_records(m, l, t, policy, b, n);
        assert forall|i: int|
            0 <= i < records_upto(m, l, t, policy, k).len() implies is_point_record(m, l, t, policy, #[trigger] records_upto(m, l, t, policy, k)[i]) by {
            if i < prev.len() {
                assert(records_upto(m, l, t, policy, k)[i] == prev[i]);
            } else {
                assert(records_upto(m, l, t, policy, k)[i] == here[i - prev.len()]);
            }
        }
    }
}

/// Every record of a block is the record of one of its points.
pub proof fn lemma_block_records_are_points(m: FuncModel, l: Liveness, t: DomTree, policy: SafepointPolicy, b: int, j: int)
    requires
        0 <= b < m.blocks.len(),
        j <= m.blocks[b].insts.len(),
    ensures
        forall|i: int|
            0 <= i < block_records(m, l, t, policy, b, j).len() ==> is_point_record(m, l, t, policy, #[trigger] block_records(m, l, t, policy, b, j)[i]),
    decreases j,
{
    if j > 0 {
        lemma_block_records_are_points(m, l, t, policy, b, j - 1);
        assert(j - 1 < m.blocks[b].insts.len());
        let prev = block_records(m, l, t, policy, b, j - 1);
        assert forall|i: int|
            0 <= i < block_records(m, l, t, policy, b, j).len() implies is_point_record(m, l, t, policy, #[trigger] block_records(m, l, t, policy, b, j)[i]) by {
            if i < prev.len() {
                assert(block_records(m, l, t, policy, b, j)[i] == prev[i]);
            } else {
                assert(block_records(m, l, t, policy, b, j)[i] == record_at(m, l, t, b, j - 1));
            }
        }
    }
}

/// Every record names an instruction of the function, so markers can be
/// put in for all of them.
pub proof fn lemma_records_have_targets(m: FuncModel, l: Liveness, t: DomTree, policy: SafepointPolicy, i: int)
    requires
        t.wf(m.blocks.len() as int),
        0 <= i < stackmap_records(m, l, t, policy).len(),
    ensures
        target_exists(m, stackmap_records(m, l, t, policy)[i]),
{
    let r = stackmap_records(m, l, t, policy)[i];
    lemma_records_are_points(m, l, t, policy, t.preorder@.len() as int);
    assert(is_point_record(m, l, t, policy, r));
    assert(m.blocks[r.block].insts[r.point].id == r.inst);
}

/// Every record is at a safepoint of the policy; under the loop-header
/// policy, at the entry of a loop header, so that a loop gets one record
/// however many calls it holds.
pub proof fn lemma_records_at_safepoints(m: FuncModel, l: Liveness, t: DomTree, policy: SafepointPolicy, i: int)
    requires
        t.wf(m.blocks.len() as int),
        0 <= i < stackmap_records(m, l, t, policy).len(),
    ensures
        is_safepoint(m, t, policy, stackmap_records(m, l, t, policy)[i].block, stackmap_records(m, l, t, policy)[i].point),
        policy is LoopHeaders ==> stackmap_records(m, l, t, policy)[i].point == 0 && is_loop_header(
            m,
            t,
            stackmap_records(m, l, t, policy)[i].block,
        ),
{
    let r = stackmap_records(m, l, t, policy)[i];
    lemma_records_are_points(m, l, t, policy, t.preorder@.len() as int);
    assert(is_point_record(m, l, t, policy, r));
}

/// Soundness: every value in a record is live, by the liveness analysis, at
/// the record's point; it has a reference type; and the values of a record
/// increase.
pub proof fn lemma_records_sound(m: FuncModel, l: Liveness, t: DomTree, policy: SafepointPolicy, i: int, v: int)
    requires
        t.wf(m.blocks.len() as int),
        m.types.len() <= u32::MAX as int + 1,
        0 <= i < stackmap_records(m, l, t, policy).len(),
        has_value(stackmap_records(m, l, t, policy)[i].values, v),
    ensures
        covers(l, v, stackmap_records(m, l, t, policy)[i].block, stackmap_records(m, l, t, policy)[i].point),
        is_reference(m.types[v]),
{
    let r = stackmap_records(m, l, t, policy)[i];
    lemma_records_are_points(m, l, t, policy, t.preorder@.len() as int);
    assert(is_point_record(m, l, t, policy, r));
    let (b, j) = (r.block, r.point);
    lemma_record_values(m, l, t, b, j);
    assert(held(m, l, t, b, j, v));
}

/// The values of every record increase.
pub proof fn lemma_records_ordered(m: FuncModel, l: Liveness, t: DomTree, policy: SafepointPolicy, i: int)
    requires
        t.wf(m.blocks.len() as int),
        m.types.len() <= u32::MAX as int + 1,
        0 <= i < stackmap_records(m, l, t, policy).len(),
    ensures
        forall|p: int, q: int| 0 <= p < q < stackmap_records(m, l, t, policy)[i].values.len()
            ==> stackmap_records(m, l, t, policy)[i].values[p] < stackmap_records(m, l, t, policy)[i].values[q],
{
    let r = stackmap_records(m, l, t, policy)[i];
    lemma_records_are_points(m, l, t, policy, t.preorder@.len() as int);
    assert(is_point_record(m, l, t, policy, r));
    lemma_record_values(m, l, t, r.block, r.point);
}

/// Precision: a value whose span in the record's block ended before the
/// record's point is not in the record.
pub proof fn lemma_records_precise(m: FuncModel, l: Liveness, t: DomTree, policy: SafepointPolicy, i: int, v: int)
    requires
        t.wf(m.blocks.len() as int),
        m.types.len() <= u32::MAX as int + 1,
        0 <= i < stackmap_records(m, l, t, policy).len(),
        span_of(l, v, stackmap_records(m, l, t, policy)[i].block) matches Some(s) && s.end
            < stackmap_records(m, l, t, policy)[i].point,
    ensures
        !has_value(stackmap_records(m, l, t, policy)[i].values, v),
{
    if has_value(stackmap_records(m, l, t, policy)[i].values, v) {
        lemma_records_sound(m, l, t, policy, i, v);
    }
}

/// The liveness analysis agrees with the function: in every block, each span
/// starts at a definition the tracker sees, the result of the instruction just
/// before it, or, at the block's entry, a parameter or a value defined in a
/// strict dominator.
pub open spec fn liveness_agrees(m: FuncModel, l: Liveness, t: DomTree) -> bool {
    forall|v: int, b: int|
        0 <= v < m.types.len() && 0 <= b < m.blocks.len() ==> (#[trigger] span_of(l, v, b) matches Some(s) ==> s.begin
            > s.end || started(m, t, b, v, s.begin as int))
}

/// Exactness: when the liveness analysis agrees with the function, the
/// record of a point holds exactly the reference values live there.
pub proof fn lemma_record_exact(m: FuncModel, l: Liveness, t: DomTree, b: int, j: int, v: int)
    requires
        liveness_agrees(m, l, t),
        m.types.len() <= u32::MAX as int + 1,
        0 <= b < m.blocks.len(),
        0 <= v < m.types.len(),
    ensures
        has_value(record_at(m, l, t, b, j).values, v) <==> (covers(l, v, b, j) && is_reference(m.types[v])),
{
    lemma_record_values(m, l, t, b, j);
    assert(span_of(l, v, b) matches Some(s) ==> s.begin > s.end || started(m, t, b, v, s.begin as int));
}

/// A value defined in a strict dominator of `b` is available in `b`.
pub proof fn lemma_dominator_defs_available(m: FuncModel, t: DomTree, d: int, b: int, v: int)
    requires
        t.wf(m.blocks.len() as int),
        0 <= b < m.blocks.len(),
        d != b,
        t.dominates(d, b),
        defines(m, d, v),
    ensures
        available(m, t, b, v),
    decreases t.depth@[b],
{
    let p = t.idom@[b]->Some_0 as int;
    if d != p {
        lemma_dominator_defs_available(m, t, d, p, v);
    }
}

/// Dominance-consistency: a value defined in any block that strictly
/// dominates `b`, an immediate predecessor of `b` or not, and live on entry to
/// `b`, is in the record of every safepoint of `b` where it is still live, if
/// it has a reference type.
pub proof fn lemma_dominating_value_recorded(m: FuncModel, l: Liveness, t: DomTree, d: int, b: int, j: int, v: int)
    requires
        t.wf(m.blocks.len() as int),
        m.types.len() <= u32::MAX as int + 1,
        0 <= b < m.blocks.len(),
        0 <= v < m.types.len(),
        d != b,
        t.dominates(d, b),
        defines(m, d, v),
        span_of(l, v, b) matches Some(s) && s.begin == 0,
        covers(l, v, b, j),
        is_reference(m.types[v]),
    ensures
        has_value(record_at(m, l, t, b, j).values, v),
{
    lemma_dominator_defs_available(m, t, d, b, v);
    lemma_record_values(m, l, t, b, j);
    assert(held(m, l, t, b, j, v));
}

/// Determinism: two runs on the same input give the same records, in the
/// same order.
pub proof fn lemma_records_deterministic(
    r1: Seq<SafepointRecord>,
    r2: Seq<SafepointRecord>,
    m: FuncModel,
    l: Liveness,
    t: DomTree,
    policy: SafepointPolicy,
)
    requires
        record_models(r1) == stackmap_records(m, l, t, policy),
        record_models(r2) == stackmap_records(m, l, t, policy),
    ensures
        record_models(r1) == record_models(r2),
{
}

/// Idempotence: markers put into a function, as the applier puts them, change
/// neither whether its records can be computed nor what they are.
pub proof fn lemma_markers_keep_records(
    f: Function,
    g: Function,
    recs: Seq<RecordModel>,
    l: Liveness,
    t: DomTree,
    policy: SafepointPolicy,
)
    requires
        g.value_types@ == f.value_types@,
        g.blocks@.len() == f.blocks@.len(),
        forall|b: int| 0 <= b < f.blocks@.len() ==> (#[trigger] g.blocks@[b]).params@ == f.blocks@[b].params@
            && marked(raw_insts(f.blocks@[b]), raw_insts(g.blocks@[b]), recs, b),
    ensures
        computable(g@, l, t, policy) == computable(f@, l, t, policy),
        stackmap_records(g@, l, t, policy) == stackmap_records(f@, l, t, policy),
{
    assert forall|b: int| 0 <= b < f.blocks@.len() implies #[trigger] g.blocks@[b]@ == f.blocks@[b]@ by {
        lemma_marked_strip(raw_insts(f.blocks@[b]), raw_insts(g.blocks@[b]), recs, b);
    }
    assert(g@.blocks =~= f@.blocks);
    assert(g@ == f@);
}

} // verus!
