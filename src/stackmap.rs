//! Safepoint records: computing them for a function (a pure scan), and
//! inserting stackmap markers from them (a separate mutating phase).
use vstd::prelude::*;
use crate::domtree::{DomTree, none_set};
use crate::error::StackmapError;
use crate::ir::{has_value, is_reference, Function, FuncModel, Opcode, Type, strip, raw_insts, lemma_strip_take, lemma_strip_all, lemma_strip_point};
use crate::liveness::{Liveness, liveness_complete, lacks_range, check_liveness, has_range, block_values_below, inst_values_below, starts_at, ends_at};
use crate::safepoint::{SafepointPolicy, is_safepoint, is_safepoint_inst, is_loop_header, edges_reachable, loop_headers};
use crate::tracker::{LiveValueTracker, held, held_set, live_ids};
use crate::markers::{apply_stackmaps, marked, target_exists};

verus! {

/// The reference-typed values live at one safepoint.
///
/// `block` and `point` locate the safepoint, `inst` is the identifier of its
/// instruction, and `values` lists the live reference values in increasing
/// order.
#[derive(Clone, Debug)]
pub struct SafepointRecord {
    pub block: usize,
    pub point: usize,
    pub inst: u32,
    pub values: Vec<u32>,
}

pub ghost struct RecordModel {
    pub block: int,
    pub point: int,
    pub inst: u32,
    pub values: Seq<u32>,
}

impl View for SafepointRecord {
    type V = RecordModel;

    open spec fn view(&self) -> RecordModel {
        RecordModel { block: self.block as int, point: self.point as int, inst: self.inst, values: self.values@ }
    }
}

/// The models of a list of records.
pub open spec fn record_models(s: Seq<SafepointRecord>) -> Seq<RecordModel> {
    s.map_values(|r: SafepointRecord| r@)
}

/// The values of `ids` whose type is a reference type, in order.
pub open spec fn refs_only(types: Seq<Type>, ids: Seq<u32>) -> Seq<u32>
    decreases ids.len(),
{
    if ids.len() == 0 {
        Seq::empty()
    } else if is_reference(types[ids.last() as int]) {
        refs_only(types, ids.drop_last()).push(ids.last())
    } else {
        refs_only(types, ids.drop_last())
    }
}

/// The record of the safepoint at point `j` of block `b`.
pub open spec fn record_at(m: FuncModel, l: Liveness, t: DomTree, b: int, j: int) -> RecordModel {
    RecordModel {
        block: b,
        point: j,
        inst: m.blocks[b].insts[j].id,
        values: refs_only(m.types, live_ids(held_set(m, l, t, b, j), m.types.len() as int)),
    }
}

/// The records of the safepoints among the first `j` points of block `b`.
pub open spec fn block_records(m: FuncModel, l: Liveness, t: DomTree, policy: SafepointPolicy, b: int, j: int) -> Seq<RecordModel>
    decreases j,
{
    if j <= 0 {
        Seq::empty()
    } else if is_safepoint(m, t, policy, b, j - 1) {
        block_records(m, l, t, policy, b, j - 1).push(record_at(m, l, t, b, j - 1))
    } else {
        block_records(m, l, t, policy, b, j - 1)
    }
}

/// The records of the first `k` blocks of the traversal order.
pub open spec fn records_upto(m: FuncModel, l: Liveness, t: DomTree, policy: SafepointPolicy, k: int) -> Seq<RecordModel>
    decreases k,
{
    if k <= 0 {
        Seq::empty()
    } else {
        let b = t.preorder@[k - 1] as int;
        records_upto(m, l, t, policy, k - 1) + block_records(m, l, t, policy, b, m.blocks[b].insts.len() as int)
    }
}

/// The records of a function: block by block in the traversal order of the
/// dominator tree, and point by point within a block.
pub open spec fn stackmap_records(m: FuncModel, l: Liveness, t: DomTree, policy: SafepointPolicy) -> Seq<RecordModel> {
    records_upto(m, l, t, policy, t.preorder@.len() as int)
}

/// The conditions under which the records can be computed.
pub open spec fn computable(m: FuncModel, l: Liveness, t: DomTree, policy: SafepointPolicy) -> bool {
    liveness_complete(m, l) && (policy is LoopHeaders ==> edges_reachable(m, t))
}

/// The indices of `live_ids(live, n)` are below `n` and increase.
pub proof fn lemma_live_ids(live: Seq<bool>, n: int)
    requires
        0 <= n <= u32::MAX as int + 1,
    ensures
        forall|k: int| 0 <= k < live_ids(live, n).len() ==> (#[trigger] live_ids(live, n)[k]) < n,
        forall|i: int, k: int| 0 <= i < k < live_ids(live, n).len() ==> live_ids(live, n)[i] < live_ids(live, n)[k],
        forall|x: int| 0 <= x < n ==> (has_value(live_ids(live, n), x) <==> #[trigger] live[x]),
    decreases n,
{
    if n > 0 {
        lemma_live_ids(live, n - 1);
        let p = live_ids(live, n - 1);
        let q = live_ids(live, n);
        assert forall|x: int| 0 <= x < n implies (has_value(q, x) <==> #[trigger] live[x]) by {
            if live[n - 1] {
                assert(q[p.len() as int] == (n - 1) as u32);
                if has_value(q, x) && x < n - 1 {
                    let k = choose|k: int| 0 <= k < q.len() && q[k] as int == x;
                    if k < p.len() {
                        assert(q[k] == p[k]);
                    }
                }
                if has_value(p, x) {
                    let k = choose|k: int| 0 <= k < p.len() && p[k] as int == x;
                    assert(q[k] == p[k]);
                }
            } else if x == n - 1 {
                if has_value(q, x) {
                    let k = choose|k: int| 0 <= k < q.len() && q[k] as int == x;
                    assert(q[k] < n - 1);
                }
            }
        }
    }
}

/// The reference-typed values of `ids`, in order.
fn select_refs(types: &Vec<Type>, ids: &Vec<u32>) -> (r: Vec<u32>)
    requires
        forall|k: int| 0 <= k < ids@.len() ==> (#[trigger] ids@[k]) < types@.len(),
    ensures
        r@ == refs_only(types@, ids@),
{
    let mut r: Vec<u32> = Vec::new();
    let mut i: usize = 0;
    while i < ids.len()
        invariant
            i <= ids@.len(),
            forall|k: int| 0 <= k < ids@.len() ==> (#[trigger] ids@[k]) < types@.len(),
            r@ == refs_only(types@, ids@.take(i as int)),
        decreases ids@.len() - i,
    {
        let v = ids[i];
        assert(ids@.take(i as int + 1).drop_last() =~= ids@.take(i as int));
        if types[v as usize].is_ref() {
            r.push(v);
        }
        i += 1;
    }
    assert(ids@.take(i as int) =~= ids@);
    r
}

/// One step of the tracker: the set held after point `j` is the set held at
/// `j` without the values whose span ends at `j`, with the results of the
/// instruction at `j` whose span begins right after it.
pub proof fn lemma_held_step(m: FuncModel, l: Liveness, t: DomTree, b: int, j: int, v: int)
    requires
        liveness_complete(m, l),
        0 <= b < m.blocks.len(),
        0 <= j < m.blocks[b].insts.len(),
        0 <= v < m.types.len(),
    ensures
        held(m, l, t, b, j + 1, v) == ((held(m, l, t, b, j, v) && !ends_at(l, v, b, j)) || (has_value(
            m.blocks[b].insts[j].results,
            v,
        ) && starts_at(l, v, b, j + 1))),
{
}

/// Scans block `b` from its entry, appending to `out` the record of each of
/// its safepoints.
fn scan_block(
    f: &Function,
    l: &Liveness,
    t: &DomTree,
    policy: SafepointPolicy,
    header: bool,
    b: usize,
    tracker: &mut LiveValueTracker,
    out: &mut Vec<SafepointRecord>,
)
    requires
        liveness_complete(f@, *l),
        t.wf(f@.blocks.len() as int),
        f@.types.len() <= u32::MAX as int + 1,
        b < f@.blocks.len(),
        policy is LoopHeaders ==> header == is_loop_header(f@, *t, b as int),
        old(tracker)@ == held_set(f@, *l, *t, b as int, 0),
    ensures
        record_models(final(out)@) == record_models(old(out)@) + block_records(
            f@,
            *l,
            *t,
            policy,
            b as int,
            f@.blocks[b as int].insts.len() as int,
        ),
{
    let ghost m = f@;
    let nv = f.value_types.len();
    let block = &f.blocks[b];
    assert(m.blocks[b as int] == block@);
    assert(block_values_below(m, b as int));
    let ghost raw = raw_insts(*block);
    let mut point: usize = 0;
    let mut i: usize = 0;
    while i < block.insts.len()
        invariant
            m == f@,
            liveness_complete(m, *l),
            t.wf(m.blocks.len() as int),
            m.types.len() <= u32::MAX as int + 1,
            nv == m.types.len(),
            b < m.blocks.len(),
            policy is LoopHeaders ==> header == is_loop_header(m, *t, b as int),
            block == &f.blocks@[b as int],
            m.blocks[b as int] == block@,
            block_values_below(m, b as int),
            raw == raw_insts(*block),
            i <= block.insts@.len(),
            point == strip(raw.take(i as int)).len(),
            point <= m.blocks[b as int].insts.len(),
            tracker@ == held_set(m, *l, *t, b as int, point as int),
            record_models(out@) == record_models(old(out)@) + block_records(m, *l, *t, policy, b as int, point as int),
        decreases block.insts@.len() - i,
    {
        let inst = &block.insts[i];
        proof {
            lemma_strip_take(raw, i as int);
        }
        if inst.opcode != Opcode::Stackmap {
            proof {
                lemma_strip_point(raw, i as int);
                crate::ir::lemma_strip_len(raw);
            }
            let ghost j = point as int;
            assert(m.blocks[b as int].insts[j] == inst@);
            let ghost prev = record_models(out@);
            if is_safepoint_inst(policy, inst, point, header) {
                assert(is_safepoint(m, *t, policy, b as int, j));
                let ids = tracker.snapshot();
                proof {
                    lemma_live_ids(tracker@, nv as int);
                }
                let values = select_refs(&f.value_types, &ids);
                out.push(SafepointRecord { block: b, point, inst: inst.id, values });
                assert(record_models(out@) =~= prev.push(record_at(m, *l, *t, b as int, j)));
            } else {
                assert(!is_safepoint(m, *t, policy, b as int, j));
                assert(record_models(out@) =~= prev);
            }
            assert(inst_values_below(m.blocks[b as int].insts[j], nv as int));
            assert forall|v: int| 0 <= v < nv implies b < (#[trigger] l.ranges@[v]).spans@.len() by {
                assert(has_range(m, *l, v));
            }
            assert(tracker@.len() == nv);
            if nv > 0 {
                assert(has_range(m, *l, nv - 1));
            }
            assert(forall|k: int| 0 <= k < inst.results@.len() ==> inst.results@[k] < nv);
            tracker.retire(l, b, point);
            tracker.process(l, b, point, &inst.results);
            assert forall|v: int| 0 <= v < nv implies #[trigger] tracker@[v] == held(m, *l, *t, b as int, j + 1, v) by {
                lemma_held_step(m, *l, *t, b as int, j, v);
            }
            assert(tracker@ =~= held_set(m, *l, *t, b as int, j + 1));
            point = point + 1;
        }
        i += 1;
    }
    proof {
        lemma_strip_all(raw);
    }
}

/// Computes the safepoint records of `f` under `policy`, visiting the blocks
/// in the traversal order of `t`. The function is only read.
///
/// Fails with `MissingLivenessInfo` when a value of `f` has no type or no
/// live range, and, under the loop-header policy, with
/// `UnreachableBlockQueried` when a reachable block branches to a block that
/// cannot be reached.
pub fn compute_stackmaps(f: &Function, l: &Liveness, t: &DomTree, policy: SafepointPolicy) -> (r: Result<Vec<SafepointRecord>, StackmapError>)
    requires
        t.wf(f@.blocks.len() as int),
        f@.types.len() <= u32::MAX as int + 1,
    ensures
        r is Ok <==> computable(f@, *l, *t, policy),
        r matches Err(e) ==> if liveness_complete(f@, *l) {
            e matches StackmapError::UnreachableBlockQueried { block } && !t.reachable(block as int)
        } else {
            e matches StackmapError::MissingLivenessInfo { value } && lacks_range(f@, *l, value as int)
        },
        r matches Ok(recs) ==> record_models(recs@) == stackmap_records(f@, *l, *t, policy),
{
    match check_liveness(f, l) {
        Ok(()) => {}
        Err(e) => {
            return Err(e);
        }
    }
    let nb = f.blocks.len();
    let header = if policy == SafepointPolicy::LoopHeaders {
        match loop_headers(f, t) {
            Ok(h) => h,
            Err(e) => {
                return Err(e);
            }
        }
    } else {
        none_set(nb)
    };
    let mut tracker = LiveValueTracker::new(f.value_types.len());
    let mut out: Vec<SafepointRecord> = Vec::new();
    let mut k: usize = 0;
    while k < t.preorder.len()
        invariant
            liveness_complete(f@, *l),
            t.wf(f@.blocks.len() as int),
            f@.types.len() <= u32::MAX as int + 1,
            nb == f@.blocks.len(),
            header@.len() == nb,
            policy is LoopHeaders ==> forall|h: int| 0 <= h < nb ==> #[trigger] header@[h] == is_loop_header(f@, *t, h),
            k <= t.preorder@.len(),
            record_models(out@) == records_upto(f@, *l, *t, policy, k as int),
        decreases t.preorder@.len() - k,
    {
        let b = t.preorder[k];
        assert(b < nb);
        tracker.enter_block(f, l, t, b);
        scan_block(f, l, t, policy, header[b], b, &mut tracker, &mut out);
        k += 1;
    }
    assert(computable(f@, *l, *t, policy));
    Ok(out)
}

/// The whole pass: computes the records of `f` under `policy`, then inserts
/// a marker for each of them. On an error the function is left unchanged.
pub fn emit_stackmaps(f: &mut Function, l: &Liveness, t: &DomTree, policy: SafepointPolicy) -> (r: Result<Vec<SafepointRecord>, StackmapError>)
    requires
        t.wf(old(f)@.blocks.len() as int),
        old(f)@.types.len() <= u32::MAX as int + 1,
    ensures
        r is Ok <==> computable(old(f)@, *l, *t, policy),
        r is Err ==> *final(f) == *old(f),
        r matches Err(e) ==> if liveness_complete(old(f)@, *l) {
            e matches StackmapError::UnreachableBlockQueried { block } && !t.reachable(block as int)
        } else {
            e matches StackmapError::MissingLivenessInfo { value } && lacks_range(old(f)@, *l, value as int)
        },
        r matches Ok(recs) ==> record_models(recs@) == stackmap_records(old(f)@, *l, *t, policy),
        r is Ok ==> final(f)@ == old(f)@,
        r is Ok ==> final(f).value_types@ == old(f).value_types@,
        r is Ok ==> final(f).blocks@.len() == old(f).blocks@.len(),
        r matches Ok(recs) ==> forall|b: int| 0 <= b < old(f).blocks@.len() ==> (#[trigger] final(f).blocks@[b]).params@ == old(f).blocks@[b].params@
            && marked(raw_insts(old(f).blocks@[b]), raw_insts(final(f).blocks@[b]), record_models(recs@), b),
{
    let recs = match compute_stackmaps(f, l, t, policy) {
        Ok(recs) => recs,
        Err(e) => {
            return Err(e);
        }
    };
    assert forall|i: int| 0 <= i < recs@.len() implies target_exists(f@, #[trigger] recs@[i]@) by {
        assert(recs@[i]@ == record_models(recs@)[i]);
        crate::laws::lemma_records_have_targets(f@, *l, *t, policy, i);
    }
    match apply_stackmaps(f, &recs) {
        Ok(()) => Ok(recs),
        Err(e) => Err(e),
    }
}

} // verus!
