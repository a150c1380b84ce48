//! Live ranges of values, as computed by a liveness analysis.
//!
//! Within a block, program point `j` is the entry of the `j`-th program
//! instruction (markers are not counted). A value defined by the instruction
//! at point `j` starts being live at point `j + 1`; block parameters and values
//! that are live on entry start at point 0. A value stays live up to and
//! including the point of its last use.
use vstd::prelude::*;
use crate::error::StackmapError;
use crate::ir::{has_value, Function, FuncModel, InstModel, strip, raw_insts, lemma_strip_take, lemma_strip_all};

verus! {

/// The points `begin..=end` of one block.
#[derive(Clone, Copy, Debug, PartialEq, Eq, Structural)]
pub struct Span {
    pub begin: usize,
    pub end: usize,
}

/// The live range of one value: for each block, the span over which the
/// value is live there, if any.
#[derive(Clone, Debug)]
pub struct LiveRange {
    pub spans: Vec<Option<Span>>,
}

/// The live range of each value, indexed by value number.
#[derive(Clone, Debug)]
pub struct Liveness {
    pub ranges: Vec<LiveRange>,
}

pub open spec fn span_of(l: Liveness, v: int, b: int) -> Option<Span> {
    l.ranges@[v].spans@[b]
}

/// Whether value `v` is live at point `j` of block `b`.
pub open spec fn covers(l: Liveness, v: int, b: int, j: int) -> bool {
    match span_of(l, v, b) {
        Some(s) => s.begin <= j <= s.end,
        None => false,
    }
}

/// Whether the span of `v` in block `b` begins at point `p` and is not empty.
pub open spec fn starts_at(l: Liveness, v: int, b: int, p: int) -> bool {
    match span_of(l, v, b) {
        Some(s) => s.begin == p && s.end >= p,
        None => false,
    }
}

/// Whether the span of `v` in block `b` ends at point `p`.
pub open spec fn ends_at(l: Liveness, v: int, b: int, p: int) -> bool {
    match span_of(l, v, b) {
        Some(s) => s.end == p,
        None => false,
    }
}

/// Whether value `v` has a range entry with one span slot per block.
pub open spec fn has_range(m: FuncModel, l: Liveness, v: int) -> bool {
    0 <= v < l.ranges@.len() && l.ranges@[v].spans@.len() == m.blocks.len()
}

pub open spec fn inst_mentions(i: InstModel, v: int) -> bool {
    has_value(i.args, v) || has_value(i.results, v)
}

/// Whether `v` occurs in the function, as a parameter, operand or result.
pub open spec fn mentioned(m: FuncModel, v: int) -> bool {
    ||| exists|b: int| 0 <= b < m.blocks.len() && has_value(#[trigger] m.blocks[b].params, v)
    ||| exists|b: int, k: int|
        0 <= b < m.blocks.len() && 0 <= k < m.blocks[b].insts.len() && inst_mentions(
            #[trigger] m.blocks[b].insts[k],
            v,
        )
}

pub open spec fn values_below(s: Seq<u32>, n: int) -> bool {
    forall|k: int| 0 <= k < s.len() ==> s[k] < n
}

pub open spec fn inst_values_below(i: InstModel, n: int) -> bool {
    values_below(i.args, n) && values_below(i.results, n)
}

pub open spec fn block_values_below(m: FuncModel, b: int) -> bool {
    &&& values_below(m.blocks[b].params, m.types.len() as int)
    &&& forall|k: int|
        0 <= k < m.blocks[b].insts.len() ==> inst_values_below(
            #[trigger] m.blocks[b].insts[k],
            m.types.len() as int,
        )
}

/// Every value of the function has a type and a live range.
pub open spec fn liveness_complete(m: FuncModel, l: Liveness) -> bool {
    &&& forall|v: int| 0 <= v < m.types.len() ==> #[trigger] has_range(m, l, v)
    &&& forall|b: int| 0 <= b < m.blocks.len() ==> #[trigger] block_values_below(m, b)
}

/// `v` is a value whose live range is missing.
pub open spec fn lacks_range(m: FuncModel, l: Liveness, v: int) -> bool {
    ||| (0 <= v < m.types.len() && !has_range(m, l, v))
    ||| (v >= m.types.len() && mentioned(m, v))
}

impl Liveness {
    /// Whether value `v` is live at point `point` of block `b`.
    pub fn is_live_at(&self, v: u32, b: usize, point: usize) -> (r: bool)
        requires
            v < self.ranges@.len(),
            b < self.ranges@[v as int].spans@.len(),
        ensures
            r == covers(*self, v as int, b as int, point as int),
    {
        match self.ranges[v as usize].spans[b] {
            Some(s) => s.begin <= point && point <= s.end,
            None => false,
        }
    }

    /// Whether point `point` of block `b` is the last at which `v` is live.
    pub fn is_last_use(&self, v: u32, b: usize, point: usize) -> (r: bool)
        requires
            v < self.ranges@.len(),
            b < self.ranges@[v as int].spans@.len(),
        ensures
            r == ends_at(*self, v as int, b as int, point as int),
    {
        match self.ranges[v as usize].spans[b] {
            Some(s) => s.end == point,
            None => false,
        }
    }
}

/// The first element of `s` that is not below `n`, if any.
fn first_not_below(s: &Vec<u32>, n: usize) -> (r: Option<u32>)
    ensures
        r is None <==> values_below(s@, n as int),
        r matches Some(v) ==> s@.contains(v) && v >= n,
{
    let mut i: usize = 0;
    while i < s.len()
        invariant
            i <= s@.len(),
            values_below(s@.take(i as int), n as int),
        decreases s@.len() - i,
    {
        if s[i] as usize >= n {
            return Some(s[i]);
        }
        i += 1;
        assert(forall|k: int| 0 <= k < i ==> s@.take(i as int)[k] == s@.take(i as int - 1)[k] || k == i - 1);
    }
    assert(s@.take(i as int) =~= s@);
    None
}

/// Checks that every value of `f` has a type and a live range in `l`.
pub fn check_liveness(f: &Function, l: &Liveness) -> (r: Result<(), StackmapError>)
    ensures
        r is Ok <==> liveness_complete(f@, *l),
        r matches Err(e) ==> e matches StackmapError::MissingLivenessInfo { value } && lacks_range(
            f@,
            *l,
            value as int,
        ),
{
    let nv = f.value_types.len();
    let nb = f.blocks.len();
    let mut v: usize = 0;
    while v < nv
        invariant
            nv == f@.types.len(),
            nb == f@.blocks.len(),
            v <= nv,
            forall|w: int| 0 <= w < v ==> #[trigger] has_range(f@, *l, w),
        decreases nv - v,
    {
        if v >= l.ranges.len() || l.ranges[v].spans.len() != nb {
            assert(!has_range(f@, *l, v as int));
            return Err(StackmapError::MissingLivenessInfo { value: v });
        }
        v += 1;
    }
    let mut b: usize = 0;
    while b < nb
        invariant
            nv == f@.types.len(),
            nb == f@.blocks.len(),
            nb == f.blocks@.len(),
            b <= nb,
            forall|w: int| 0 <= w < nv ==> #[trigger] has_range(f@, *l, w),
            forall|c: int| 0 <= c < b ==> #[trigger] block_values_below(f@, c),
        decreases nb - b,
    {
        let block = &f.blocks[b];
        assert(f@.blocks[b as int] == block@);
        match first_not_below(&block.params, nv) {
            Some(w) => {
                assert(f@.blocks[b as int].params.contains(w));
                assert(has_value(f@.blocks[b as int].params, w as int));
                assert(mentioned(f@, w as int));
                assert(!block_values_below(f@, b as int));
                return Err(StackmapError::MissingLivenessInfo { value: w as usize });
            }
            None => {}
        }
        let ghost raw = raw_insts(*block);
        let mut i: usize = 0;
        while i < block.insts.len()
            invariant
                nv == f@.types.len(),
                nb == f@.blocks.len(),
                b < nb,
                block == &f.blocks@[b as int],
                f@.blocks[b as int] == block@,
                raw == raw_insts(*block),
                i <= block.insts@.len(),
                forall|k: int|
                    0 <= k < strip(raw.take(i as int)).len() ==> inst_values_below(
                        #[trigger] strip(raw.take(i as int))[k],
                        nv as int,
                    ),
            decreases block.insts@.len() - i,
        {
            let inst = &block.insts[i];
            proof {
                lemma_strip_take(raw, i as int);
            }
            if inst.opcode != crate::ir::Opcode::Stackmap {
                proof {
                    crate::ir::lemma_strip_point(raw, i as int);
                }
                let ghost k = strip(raw.take(i as int)).len() as int;
                match first_not_below(&inst.args, nv) {
                    Some(w) => {
                        assert(inst_mentions(f@.blocks[b as int].insts[k], w as int));
                        assert(!inst_values_below(f@.blocks[b as int].insts[k], nv as int));
                        assert(!block_values_below(f@, b as int));
                        return Err(StackmapError::MissingLivenessInfo { value: w as usize });
                    }
                    None => {}
                }
                match first_not_below(&inst.results, nv) {
                    Some(w) => {
                        assert(inst_mentions(f@.blocks[b as int].insts[k], w as int));
                        assert(!inst_values_below(f@.blocks[b as int].insts[k], nv as int));
                        assert(!block_values_below(f@, b as int));
                        return Err(StackmapError::MissingLivenessInfo { value: w as usize });
                    }
                    None => {}
                }
            }
            i += 1;
        }
        proof {
            lemma_strip_all(raw);
        }
        assert(block_values_below(f@, b as int));
        b += 1;
    }
    Ok(())
}

} // verus!
