//! The intermediate representation the pass works on: functions made of
//! blocks, blocks made of instructions, and a table of value types.
use vstd::prelude::*;

verus! {

/// The type of an SSA value. `R32` and `R64` are references that a garbage
/// collector must be able to find.
#[derive(Clone, Copy, Debug, PartialEq, Eq, Structural)]
pub enum Type {
    I8,
    I16,
    I32,
    I64,
    R32,
    R64,
}

/// Whether a value of type `t` must be tracked by the collector.
pub open spec fn is_reference(t: Type) -> bool {
    t is R32 || t is R64
}

impl Type {
    pub fn is_ref(&self) -> (r: bool)
        ensures
            r == is_reference(*self),
    {
        match self {
            Type::R32 | Type::R64 => true,
            _ => false,
        }
    }
}

/// The classes of instruction the pass distinguishes.
#[derive(Clone, Copy, Debug, PartialEq, Eq, Structural)]
pub enum Opcode {
    /// Any instruction that neither branches, calls nor returns.
    Compute,
    /// A call: collection may happen inside the callee.
    Call,
    /// A branch to one or more destination blocks.
    Branch,
    Return,
    /// A point that the frontend tagged as a safepoint.
    Safepoint,
    /// A stackmap marker inserted by this pass; its arguments are the live
    /// references at the instruction that follows it. Markers are not part of
    /// the program: liveness, safepoint selection and the model of a function
    /// all skip them.
    Stackmap,
}

/// One instruction. `id` identifies it within its function.
#[derive(Clone, Debug)]
pub struct Inst {
    pub id: u32,
    pub opcode: Opcode,
    pub args: Vec<u32>,
    pub results: Vec<u32>,
    pub dests: Vec<usize>,
}

/// The mathematical model of an instruction.
pub ghost struct InstModel {
    pub id: u32,
    pub opcode: Opcode,
    pub args: Seq<u32>,
    pub results: Seq<u32>,
    pub dests: Seq<usize>,
}

impl View for Inst {
    type V = InstModel;

    open spec fn view(&self) -> InstModel {
        InstModel {
            id: self.id,
            opcode: self.opcode,
            args: self.args@,
            results: self.results@,
            dests: self.dests@,
        }
    }
}

/// A block: its entry parameters and its instructions in order.
#[derive(Clone, Debug)]
pub struct BlockData {
    pub params: Vec<u32>,
    pub insts: Vec<Inst>,
}

/// The model of a block: its parameters and its program instructions, that is
/// its instructions without stackmap markers.
pub ghost struct BlockModel {
    pub params: Seq<u32>,
    pub insts: Seq<InstModel>,
}

/// The instructions of `s` that are not stackmap markers, in order.
pub open spec fn strip(s: Seq<InstModel>) -> Seq<InstModel>
    decreases s.len(),
{
    if s.len() == 0 {
        Seq::empty()
    } else if s.last().opcode is Stackmap {
        strip(s.drop_last())
    } else {
        strip(s.drop_last()).push(s.last())
    }
}

/// Whether value number `v` occurs in `s`.
pub open spec fn has_value(s: Seq<u32>, v: int) -> bool {
    exists|k: int| 0 <= k < s.len() && s[k] as int == v
}

/// The models of the instructions of a block, markers included.
pub open spec fn raw_insts(b: BlockData) -> Seq<InstModel> {
    b.insts@.map_values(|i: Inst| i@)
}

impl View for BlockData {
    type V = BlockModel;

    open spec fn view(&self) -> BlockModel {
        BlockModel { params: self.params@, insts: strip(raw_insts(*self)) }
    }
}

/// A function: its blocks, indexed from 0, and the type of each value, the
/// values being numbered from 0.
#[derive(Clone, Debug)]
pub struct Function {
    pub blocks: Vec<BlockData>,
    pub value_types: Vec<Type>,
}

/// The model of a function; two functions that differ only in their markers
/// have the same model.
pub ghost struct FuncModel {
    pub blocks: Seq<BlockModel>,
    pub types: Seq<Type>,
}

impl View for Function {
    type V = FuncModel;

    open spec fn view(&self) -> FuncModel {
        FuncModel { blocks: self.blocks@.map_values(|b: BlockData| b@), types: self.value_types@ }
    }
}

/// Taking one more instruction adds it to the stripped prefix unless it is a
/// marker.
pub proof fn lemma_strip_take(s: Seq<InstModel>, i: int)
    requires
        0 <= i < s.len(),
    ensures
        strip(s.take(i + 1)) == (if s[i].opcode is Stackmap {
            strip(s.take(i))
        } else {
            strip(s.take(i)).push(s[i])
        }),
{
    assert(s.take(i + 1).drop_last() =~= s.take(i));
}

/// The stripped form of a prefix is a prefix of the stripped form.
pub proof fn lemma_strip_prefix(s: Seq<InstModel>, i: int)
    requires
        0 <= i <= s.len(),
    ensures
        strip(s.take(i)).len() <= strip(s).len(),
        forall|k: int| 0 <= k < strip(s.take(i)).len() ==> strip(s.take(i))[k] == strip(s)[k],
    decreases s.len() - i,
{
    if i == s.len() {
        assert(s.take(i) =~= s);
    } else {
        lemma_strip_prefix(s, i + 1);
        lemma_strip_take(s, i);
    }
}

/// Walking the raw instructions of a block: when the instruction at raw index
/// `i` is not a marker, it is the program instruction at the point given by the
/// number of program instructions before it.
pub proof fn lemma_strip_point(s: Seq<InstModel>, i: int)
    requires
        0 <= i < s.len(),
        !(s[i].opcode is Stackmap),
    ensures
        strip(s.take(i)).len() < strip(s).len(),
        strip(s)[strip(s.take(i)).len() as int] == s[i],
{
    lemma_strip_take(s, i);
    lemma_strip_prefix(s, i + 1);
}

/// Stripping never lengthens a sequence.
pub proof fn lemma_strip_len(s: Seq<InstModel>)
    ensures
        strip(s).len() <= s.len(),
    decreases s.len(),
{
    if s.len() > 0 {
        lemma_strip_len(s.drop_last());
    }
}

/// The whole sequence is its own longest prefix.
pub proof fn lemma_strip_all(s: Seq<InstModel>)
    ensures
        strip(s.take(s.len() as int)) == strip(s),
{
    assert(s.take(s.len() as int) =~= s);
}

} // verus!
