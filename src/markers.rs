//! Inserting stackmap markers into a function from its records. This is the
//! second, mutating phase: it runs only once all records are known, and
//! builds each block's new instruction list aside before putting it in place.
use vstd::prelude::*;
use crate::error::StackmapError;
use crate::ir::{BlockData, Function, FuncModel, Inst, InstModel, Opcode, strip, raw_insts, lemma_strip_take, lemma_strip_all, lemma_strip_point};
use crate::stackmap::{RecordModel, SafepointRecord, record_models};

verus! {

/// Whether record `r` is about the instruction `id` of block `b`.
pub open spec fn targets(r: RecordModel, b: int, id: u32) -> bool {
    r.block == b && r.inst == id
}

/// Whether `k` is the first record of `recs` about instruction `id` of block `b`.
pub open spec fn is_first_target(recs: Seq<RecordModel>, b: int, id: u32, k: int) -> bool {
    &&& 0 <= k < recs.len()
    &&& targets(recs[k], b, id)
    &&& forall|q: int| 0 <= q < k ==> !targets(#[trigger] recs[q], b, id)
}

/// Whether some record of `recs` is about instruction `id` of block `b`.
pub open spec fn has_target(recs: Seq<RecordModel>, b: int, id: u32) -> bool {
    exists|k: int| is_first_target(recs, b, id, k)
}

/// The values of the first record about instruction `id` of block `b`.
pub open spec fn target_values(recs: Seq<RecordModel>, b: int, id: u32) -> Seq<u32> {
    recs[choose|k: int| is_first_target(recs, b, id, k)].values
}

/// Whether `i` is a stackmap marker for instruction `id` carrying `values`.
pub open spec fn is_marker_for(i: InstModel, id: u32, values: Seq<u32>) -> bool {
    &&& i.opcode is Stackmap
    &&& i.id == id
    &&& i.args == values
    &&& i.results.len() == 0
    &&& i.dests.len() == 0
}

/// Whether `new` is `old`, the instructions of block `b`, with a marker put
/// right before each program instruction that a record of `recs` is about,
/// and nothing else changed.
pub open spec fn marked(old: Seq<InstModel>, new: Seq<InstModel>, recs: Seq<RecordModel>, b: int) -> bool
    decreases old.len(),
{
    if old.len() == 0 {
        new.len() == 0
    } else {
        let last = old.last();
        if !(last.opcode is Stackmap) && has_target(recs, b, last.id) {
            &&& new.len() >= 2
            &&& new.last() == last
            &&& is_marker_for(new[new.len() - 2], last.id, target_values(recs, b, last.id))
            &&& marked(old.drop_last(), new.drop_last().drop_last(), recs, b)
        } else {
            &&& new.len() >= 1
            &&& new.last() == last
            &&& marked(old.drop_last(), new.drop_last(), recs, b)
        }
    }
}

/// Inserting markers leaves the program instructions as they were.
pub proof fn lemma_marked_strip(old: Seq<InstModel>, new: Seq<InstModel>, recs: Seq<RecordModel>, b: int)
    requires
        marked(old, new, recs, b),
    ensures
        strip(new) == strip(old),
    decreases old.len(),
{
    if old.len() > 0 {
        let last = old.last();
        if !(last.opcode is Stackmap) && has_target(recs, b, last.id) {
            lemma_marked_strip(old.drop_last(), new.drop_last().drop_last(), recs, b);
            assert(new.drop_last().last() == new[new.len() - 2]);
            assert(strip(new.drop_last()) == strip(new.drop_last().drop_last()));
            assert(strip(new) == strip(new.drop_last()).push(last));
            assert(strip(old) == strip(old.drop_last()).push(last));
        } else {
            lemma_marked_strip(old.drop_last(), new.drop_last(), recs, b);
            assert(new.last() == last);
        }
    }
}

/// Whether the instruction that record `r` is about is in the function.
pub open spec fn target_exists(m: FuncModel, r: RecordModel) -> bool {
    &&& 0 <= r.block < m.blocks.len()
    &&& exists|j: int| 0 <= j < m.blocks[r.block].insts.len() && (#[trigger] m.blocks[r.block].insts[j]).id == r.inst
}

/// The models of a list of instructions.
pub open spec fn inst_models(s: Seq<Inst>) -> Seq<InstModel> {
    s.map_values(|i: Inst| i@)
}

/// Whether block `b` of `f` holds a program instruction with identifier `id`.
fn holds_inst(f: &Function, b: usize, id: u32) -> (r: bool)
    requires
        b < f@.blocks.len(),
    ensures
        r == exists|j: int| 0 <= j < f@.blocks[b as int].insts.len() && (#[trigger] f@.blocks[b as int].insts[j]).id == id,
{
    let block = &f.blocks[b];
    assert(f@.blocks[b as int] == block@);
    let ghost raw = raw_insts(*block);
    let mut i: usize = 0;
    while i < block.insts.len()
        invariant
            block == &f.blocks@[b as int],
            f@.blocks[b as int] == block@,
            raw == raw_insts(*block),
            i <= block.insts@.len(),
            forall|j: int| 0 <= j < strip(raw.take(i as int)).len() ==> (#[trigger] strip(raw.take(i as int))[j]).id != id,
        decreases block.insts@.len() - i,
    {
        let inst = &block.insts[i];
        proof {
            lemma_strip_take(raw, i as int);
        }
        if inst.opcode != Opcode::Stackmap {
            proof {
                lemma_strip_point(raw, i as int);
            }
            if inst.id == id {
                assert(f@.blocks[b as int].insts[strip(raw.take(i as int)).len() as int].id == id);
                return true;
            }
        }
        i += 1;
    }
    proof {
        lemma_strip_all(raw);
    }
    false
}

/// The first record of `recs` about instruction `id` of block `b`, if any.
fn find_record(recs: &Vec<SafepointRecord>, b: usize, id: u32) -> (r: Option<usize>)
    ensures
        r is Some <==> has_target(record_models(recs@), b as int, id),
        r matches Some(k) ==> is_first_target(record_models(recs@), b as int, id, k as int),
{
    let ghost rm = record_models(recs@);
    let mut k: usize = 0;
    while k < recs.len()
        invariant
            rm == record_models(recs@),
            k <= recs@.len(),
            forall|q: int| 0 <= q < k ==> !targets(#[trigger] rm[q], b as int, id),
        decreases recs@.len() - k,
    {
        if recs[k].block == b && recs[k].inst == id {
            assert(is_first_target(rm, b as int, id, k as int));
            return Some(k);
        }
        k += 1;
    }
    None
}

/// A copy of `v`.
fn copy_values(v: &Vec<u32>) -> (r: Vec<u32>)
    ensures
        r@ == v@,
{
    let mut r: Vec<u32> = Vec::new();
    let mut i: usize = 0;
    while i < v.len()
        invariant
            i <= v@.len(),
            r@ == v@.take(i as int),
        decreases v@.len() - i,
    {
        r.push(v[i]);
        i += 1;
        assert(r@ =~= v@.take(i as int));
    }
    assert(v@.take(i as int) =~= v@);
    r
}

/// The instructions `insts` of block `b` with the markers of `recs` put in.
fn insert_markers(insts: Vec<Inst>, recs: &Vec<SafepointRecord>, b: usize) -> (r: Vec<Inst>)
    ensures
        marked(inst_models(insts@), inst_models(r@), record_models(recs@), b as int),
{
    let ghost orig = insts@;
    let ghost rm = record_models(recs@);
    let mut rest = insts;
    let mut out: Vec<Inst> = Vec::new();
    while rest.len() > 0
        invariant
            rm == record_models(recs@),
            rest@.len() <= orig.len(),
            rest@ == orig.skip(orig.len() - rest@.len()),
            marked(inst_models(orig.take(orig.len() - rest@.len())), inst_models(out@), rm, b as int),
        decreases rest@.len(),
    {
        let ghost i = orig.len() - rest@.len();
        let ghost before = out@;
        let inst = rest.remove(0);
        assert(inst == orig[i]);
        let ghost old_take = inst_models(orig.take(i + 1));
        assert(old_take.drop_last() =~= inst_models(orig.take(i)));
        assert(old_take.last() == inst@);
        if inst.opcode != Opcode::Stackmap {
            match find_record(recs, b, inst.id) {
                Some(k) => {
                    let values = copy_values(&recs[k].values);
                    let marker = Inst {
                        id: inst.id,
                        opcode: Opcode::Stackmap,
                        args: values,
                        results: Vec::new(),
                        dests: Vec::new(),
                    };
                    proof {
                        let c = choose|c: int| is_first_target(rm, b as int, inst.id, c);
                        assert(c == k as int) by {
                            if c < k as int {
                                assert(!targets(rm[c], b as int, inst.id));
                            }
                            if (k as int) < c {
                                assert(!targets(rm[k as int], b as int, inst.id));
                            }
                        }
                        assert(rm[k as int] == recs@[k as int]@);
                    }
                    out.push(marker);
                    out.push(inst);
                    assert(inst_models(out@).drop_last().drop_last() =~= inst_models(before));
                }
                None => {
                    out.push(inst);
                    assert(inst_models(out@).drop_last() =~= inst_models(before));
                }
            }
        } else {
            out.push(inst);
            assert(inst_models(out@).drop_last() =~= inst_models(before));
        }
        assert(rest@ =~= orig.skip(orig.len() - rest@.len()));
    }
    assert(orig.take(orig.len() as int) =~= orig);
    out
}

/// Inserts a stackmap marker, carrying a record's values, right before the
/// instruction that each record is about; when several records are about one
/// instruction, the first of them is used.
///
/// Every record is checked first: if one is about an instruction that its
/// block does not hold, the function is left unchanged and the error names
/// that record's block and instruction. The program itself does not change:
/// the model of the function stays the same.
pub fn apply_stackmaps(f: &mut Function, recs: &Vec<SafepointRecord>) -> (r: Result<(), StackmapError>)
    ensures
        r is Ok <==> forall|i: int| 0 <= i < recs@.len() ==> target_exists(old(f)@, #[trigger] recs@[i]@),
        r matches Err(e) ==> e matches StackmapError::InvalidInsertionPosition { block, inst }
            && *final(f) == *old(f)
            && exists|i: int| 0 <= i < recs@.len() && (#[trigger] recs@[i]).block == block && recs@[i].inst == inst
            && !target_exists(old(f)@, recs@[i]@),
        r is Ok ==> final(f)@ == old(f)@,
        r is Ok ==> final(f).value_types@ == old(f).value_types@,
        r is Ok ==> final(f).blocks@.len() == old(f).blocks@.len(),
        r is Ok ==> forall|b: int| 0 <= b < old(f).blocks@.len() ==> (#[trigger] final(f).blocks@[b]).params@ == old(f).blocks@[b].params@
            && marked(raw_insts(old(f).blocks@[b]), raw_insts(final(f).blocks@[b]), record_models(recs@), b),
{
    let mut i: usize = 0;
    while i < recs.len()
        invariant
            i <= recs@.len(),
            forall|q: int| 0 <= q < i ==> target_exists(f@, #[trigger] recs@[q]@),
        decreases recs@.len() - i,
    {
        let r = &recs[i];
        if r.block >= f.blocks.len() || !holds_inst(f, r.block, r.inst) {
            assert(!target_exists(f@, recs@[i as int]@));
            return Err(StackmapError::InvalidInsertionPosition { block: r.block, inst: r.inst });
        }
        i += 1;
    }
    let ghost old_f = *f;
    let mut rest: Vec<BlockData> = Vec::new();
    std::mem::swap(&mut f.blocks, &mut rest);
    let ghost orig = rest@;
    let mut done: Vec<BlockData> = Vec::new();
    while rest.len() > 0
        invariant
            orig == old_f.blocks@,
            rest@.len() <= orig.len(),
            rest@ == orig.skip(done@.len() as int),
            done@.len() + rest@.len() == orig.len(),
            forall|b: int| 0 <= b < done@.len() ==> (#[trigger] done@[b]).params@ == orig[b].params@
                && marked(raw_insts(orig[b]), raw_insts(done@[b]), record_models(recs@), b),
        decreases rest@.len(),
    {
        let ghost b = done@.len() as int;
        let mut block = rest.remove(0);
        assert(block == orig[b]);
        let mut insts: Vec<Inst> = Vec::new();
        std::mem::swap(&mut block.insts, &mut insts);
        let marked_insts = insert_markers(insts, recs, done.len());
        block.insts = marked_insts;
        done.push(block);
        assert(rest@ =~= orig.skip(done@.len() as int));
    }
    f.blocks = done;
    assert forall|b: int| 0 <= b < orig.len() implies #[trigger] f.blocks@[b]@ == orig[b]@ by {
        lemma_marked_strip(raw_insts(orig[b]), raw_insts(f.blocks@[b]), record_models(recs@), b);
    }
    assert(f@.blocks =~= old_f@.blocks);
    Ok(())
}

} // verus!
