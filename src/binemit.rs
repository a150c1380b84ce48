//! The stackmap table: after register allocation and encoding, each marker
//! becomes an entry that gives its code offset and where each of its values
//! is stored.
use vstd::prelude::*;
use crate::ir::{Function, Inst, Opcode, Type};

verus! {

/// Where a value is stored.
#[derive(Clone, Copy, Debug, PartialEq, Eq, Structural)]
pub enum Location {
    Reg(u16),
    Stack(u32),
}

/// A move of `value` to `to`, made by an instruction and in force after it
/// until the end of its block.
#[derive(Clone, Copy, Debug, PartialEq, Eq, Structural)]
pub struct Diversion {
    pub value: u32,
    pub to: Location,
}

/// What encoding and register allocation decided for a function: the code
/// offset of each instruction (markers included), the diversions each
/// instruction makes, both indexed by block and then by instruction, and the
/// location assigned to each value.
#[derive(Clone, Debug)]
pub struct Encoding {
    pub offsets: Vec<Vec<u32>>,
    pub diversions: Vec<Vec<Vec<Diversion>>>,
    pub locations: Vec<Location>,
}

/// One live reference: where it is and its type.
#[derive(Clone, Copy, Debug, PartialEq, Eq, Structural)]
pub struct LiveSlot {
    pub location: Location,
    pub ty: Type,
}

/// One entry of the table: a code offset and the live references there.
#[derive(Clone, Debug)]
pub struct StackmapEntry {
    pub offset: u32,
    pub slots: Vec<LiveSlot>,
}

pub ghost struct EntryModel {
    pub offset: u32,
    pub slots: Seq<LiveSlot>,
}

impl View for StackmapEntry {
    type V = EntryModel;

    open spec fn view(&self) -> EntryModel {
        EntryModel { offset: self.offset, slots: self.slots@ }
    }
}

pub open spec fn entry_models(s: Seq<StackmapEntry>) -> Seq<EntryModel> {
    s.map_values(|e: StackmapEntry| e@)
}

/// Every marker argument is a value of the function.
pub open spec fn markers_well_formed(f: Function) -> bool {
    forall|b: int, i: int|
        0 <= b < f.blocks@.len() && 0 <= i < f.blocks@[b].insts@.len() && (#[trigger] f.blocks@[b].insts@[i]).opcode is Stackmap
            ==> forall|k: int| 0 <= k < f.blocks@[b].insts@[i].args@.len() ==> (#[trigger] f.blocks@[b].insts@[i].args@[k]) < f.value_types@.len()
}

impl Encoding {
    /// The encoding covers `f`: one offset and one list of diversions per
    /// instruction, one location per value, and diversions only of values.
    pub open spec fn wf(self, f: Function) -> bool {
        &&& self.offsets@.len() == f.blocks@.len()
        &&& self.diversions@.len() == f.blocks@.len()
        &&& self.locations@.len() == f.value_types@.len()
        &&& forall|b: int| 0 <= b < f.blocks@.len() ==> (#[trigger] self.offsets@[b])@.len() == f.blocks@[b].insts@.len()
        &&& forall|b: int| 0 <= b < f.blocks@.len() ==> (#[trigger] self.diversions@[b])@.len() == f.blocks@[b].insts@.len()
        &&& forall|b: int, i: int, k: int|
            0 <= b < f.blocks@.len() && 0 <= i < f.blocks@[b].insts@.len() && 0 <= k < self.diversions@[b]@[i]@.len()
                ==> (#[trigger] self.diversions@[b]@[i]@[k]).value < f.value_types@.len()
    }
}

/// The location that the last diversion of `v` in `ds` moves it to, if any.
pub open spec fn last_diversion(ds: Seq<Diversion>, v: int) -> Option<Location>
    decreases ds.len(),
{
    if ds.len() == 0 {
        None
    } else if ds.last().value as int == v {
        Some(ds.last().to)
    } else {
        last_diversion(ds.drop_last(), v)
    }
}

/// Where value `v` is on entry to instruction `i` of block `b`: where the
/// last diversion of the block before `i` put it, else its assigned location.
pub open spec fn location_at(enc: Encoding, b: int, i: int, v: int) -> Location
    decreases i,
{
    if i <= 0 {
        enc.locations@[v]
    } else {
        match last_diversion(enc.diversions@[b]@[i - 1]@, v) {
            Some(l) => l,
            None => location_at(enc, b, i - 1, v),
        }
    }
}

/// The entry for the marker at instruction `i` of block `b`.
pub open spec fn entry_at(f: Function, enc: Encoding, b: int, i: int) -> EntryModel {
    let args = f.blocks@[b].insts@[i].args@;
    EntryModel {
        offset: enc.offsets@[b]@[i],
        slots: Seq::new(
            args.len(),
            |k: int| LiveSlot { location: location_at(enc, b, i, args[k] as int), ty: f.value_types@[args[k] as int] },
        ),
    }
}

/// The entries for the markers among the first `i` instructions of block `b`.
pub open spec fn block_entries(f: Function, enc: Encoding, b: int, i: int) -> Seq<EntryModel>
    decreases i,
{
    if i <= 0 {
        Seq::empty()
    } else if f.blocks@[b].insts@[i - 1].opcode is Stackmap {
        block_entries(f, enc, b, i - 1).push(entry_at(f, enc, b, i - 1))
    } else {
        block_entries(f, enc, b, i - 1)
    }
}

/// The entries for the markers of the first `b` blocks.
pub open spec fn table_upto(f: Function, enc: Encoding, b: int) -> Seq<EntryModel>
    decreases b,
{
    if b <= 0 {
        Seq::empty()
    } else {
        table_upto(f, enc, b - 1) + block_entries(f, enc, b - 1, f.blocks@[b - 1].insts@.len() as int)
    }
}

/// The table of a function: one entry per marker, in layout order.
pub open spec fn stackmap_table(f: Function, enc: Encoding) -> Seq<EntryModel> {
    table_upto(f, enc, f.blocks@.len() as int)
}

/// Where each value is at present, given the diversions in force.
fn where_is(enc: &Encoding, diverted: &Vec<Option<Location>>, v: u32) -> (r: Location)
    requires
        v < diverted@.len(),
        v < enc.locations@.len(),
    ensures
        r == match diverted@[v as int] {
            Some(l) => l,
            None => enc.locations@[v as int],
        },
{
    match diverted[v as usize] {
        Some(l) => l,
        None => enc.locations[v as usize],
    }
}

/// The entry for `marker`, the instruction `i` of block `b`.
fn make_entry(f: &Function, enc: &Encoding, diverted: &Vec<Option<Location>>, b: usize, i: usize, marker: &Inst) -> (r: StackmapEntry)
    requires
        enc.wf(*f),
        markers_well_formed(*f),
        b < f.blocks@.len(),
        i < f.blocks@[b as int].insts@.len(),
        marker == &f.blocks@[b as int].insts@[i as int],
        marker.opcode is Stackmap,
        diverted@.len() == f.value_types@.len(),
        forall|v: int| 0 <= v < f.value_types@.len() ==> location_at(*enc, b as int, i as int, v) == match #[trigger] diverted@[v] {
            Some(l) => l,
            None => enc.locations@[v],
        },
    ensures
        r@ == entry_at(*f, *enc, b as int, i as int),
{
    let mut slots: Vec<LiveSlot> = Vec::new();
    let mut k: usize = 0;
    while k < marker.args.len()
        invariant
            enc.wf(*f),
            markers_well_formed(*f),
            b < f.blocks@.len(),
            i < f.blocks@[b as int].insts@.len(),
            marker == &f.blocks@[b as int].insts@[i as int],
            marker.opcode is Stackmap,
            diverted@.len() == f.value_types@.len(),
            forall|v: int| 0 <= v < f.value_types@.len() ==> location_at(*enc, b as int, i as int, v) == match #[trigger] diverted@[v] {
                Some(l) => l,
                None => enc.locations@[v],
            },
            k <= marker.args@.len(),
            slots@ =~= entry_at(*f, *enc, b as int, i as int).slots.take(k as int),
        decreases marker.args@.len() - k,
    {
        let v = marker.args[k];
        assert(f.blocks@[b as int].insts@[i as int].args@[k as int] == v);
        let location = where_is(enc, diverted, v);
        slots.push(LiveSlot { location, ty: f.value_types[v as usize] });
        k += 1;
    }
    assert(slots@ =~= entry_at(*f, *enc, b as int, i as int).slots);
    StackmapEntry { offset: enc.offsets[b][i], slots }
}

/// Puts in force the diversions `ds`, in order.
fn divert(diverted: &mut Vec<Option<Location>>, ds: &Vec<Diversion>)
    requires
        forall|k: int| 0 <= k < ds@.len() ==> (#[trigger] ds@[k]).value < old(diverted)@.len(),
    ensures
        final(diverted)@.len() == old(diverted)@.len(),
        forall|v: int| 0 <= v < old(diverted)@.len() ==> #[trigger] final(diverted)@[v] == match last_diversion(ds@, v) {
            Some(l) => Some(l),
            None => old(diverted)@[v],
        },
{
    let mut k: usize = 0;
    while k < ds.len()
        invariant
            forall|q: int| 0 <= q < ds@.len() ==> (#[trigger] ds@[q]).value < old(diverted)@.len(),
            diverted@.len() == old(diverted)@.len(),
            k <= ds@.len(),
            forall|v: int| 0 <= v < old(diverted)@.len() ==> #[trigger] diverted@[v] == match last_diversion(ds@.take(k as int), v) {
                Some(l) => Some(l),
                None => old(diverted)@[v],
            },
        decreases ds@.len() - k,
    {
        let d = ds[k];
        diverted.set(d.value as usize, Some(d.to));
        assert(ds@.take(k as int + 1).drop_last() =~= ds@.take(k as int));
        k += 1;
    }
    assert(ds@.take(k as int) =~= ds@);
}

/// Builds the stackmap table of the encoded function `f`: walking the blocks
/// in layout order and following the diversions within each block, one entry
/// per marker, giving the marker's code offset and the location and type of
/// each value it carries.
pub fn emit_stackmaps(f: &Function, enc: &Encoding) -> (r: Vec<StackmapEntry>)
    requires
        enc.wf(*f),
        markers_well_formed(*f),
    ensures
        entry_models(r@) == stackmap_table(*f, *enc),
{
    let nv = f.value_types.len();
    let mut table: Vec<StackmapEntry> = Vec::new();
    let mut b: usize = 0;
    while b < f.blocks.len()
        invariant
            enc.wf(*f),
            markers_well_formed(*f),
            nv == f.value_types@.len(),
            b <= f.blocks@.len(),
            entry_models(table@) == table_upto(*f, *enc, b as int),
        decreases f.blocks@.len() - b,
    {
        let block = &f.blocks[b];
        let mut diverted: Vec<Option<Location>> = Vec::new();
        while diverted.len() < nv
            invariant
                diverted@.len() <= nv,
                forall|v: int| 0 <= v < diverted@.len() ==> (#[trigger] diverted@[v]) is None,
            decreases nv - diverted@.len(),
        {
            diverted.push(None);
        }
        let ghost start = entry_models(table@);
        let mut i: usize = 0;
        while i < block.insts.len()
            invariant
                enc.wf(*f),
                markers_well_formed(*f),
                nv == f.value_types@.len(),
                b < f.blocks@.len(),
                block == &f.blocks@[b as int],
                start == table_upto(*f, *enc, b as int),
                i <= block.insts@.len(),
                diverted@.len() == nv,
                forall|v: int| 0 <= v < nv ==> location_at(*enc, b as int, i as int, v) == match #[trigger] diverted@[v] {
                    Some(l) => l,
                    None => enc.locations@[v],
                },
                entry_models(table@) == start + block_entries(*f, *enc, b as int, i as int),
            decreases block.insts@.len() - i,
        {
            let inst = &block.insts[i];
            let ghost prev = entry_models(table@);
            if inst.opcode == Opcode::Stackmap {
                let entry = make_entry(f, enc, &diverted, b, i, inst);
                table.push(entry);
                assert(entry_models(table@) =~= prev.push(entry_at(*f, *enc, b as int, i as int)));
            }
            let ghost before = diverted@;
            assert(enc.diversions@[b as int]@.len() == block.insts@.len());
            divert(&mut diverted, &enc.diversions[b][i]);
            assert forall|v: int| 0 <= v < nv implies location_at(*enc, b as int, i as int + 1, v) == match #[trigger] diverted@[v] {
                Some(l) => l,
                None => enc.locations@[v],
            } by {
                assert(before[v] == diverted@[v] || last_diversion(enc.diversions@[b as int]@[i as int]@, v) is Some);
            }
            i += 1;
        }
        assert(entry_models(table@) =~= table_upto(*f, *enc, b as int + 1));
        b += 1;
    }
    table
}

} // verus!
