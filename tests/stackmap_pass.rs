use stackmaps::domtree::{available_values, defined_values, DomTree};
use stackmaps::error::StackmapError;
use stackmaps::ir::{BlockData, Function, Inst, Opcode, Type};
use stackmaps::liveness::{check_liveness, LiveRange, Liveness, Span};
use stackmaps::safepoint::{is_safepoint_inst, loop_headers, SafepointPolicy};
use stackmaps::markers::apply_stackmaps;
use stackmaps::stackmap::{compute_stackmaps, SafepointRecord};
use stackmaps::tracker::LiveValueTracker;

fn inst(id: u32, opcode: Opcode, args: &[u32], results: &[u32], dests: &[usize]) -> Inst {
    Inst {
        id,
        opcode,
        args: args.to_vec(),
        results: results.to_vec(),
        dests: dests.to_vec(),
    }
}

fn block(params: &[u32], insts: Vec<Inst>) -> BlockData {
    BlockData { params: params.to_vec(), insts }
}

/// Live ranges for `nv` values over `nb` blocks; each tuple is
/// (value, block, begin, end).
fn liveness(nv: usize, nb: usize, spans: &[(u32, usize, usize, usize)]) -> Liveness {
    let mut ranges: Vec<LiveRange> = (0..nv).map(|_| LiveRange { spans: vec![None; nb] }).collect();
    for &(v, b, begin, end) in spans {
        ranges[v as usize].spans[b] = Some(Span { begin, end });
    }
    Liveness { ranges }
}

fn tree(idom: &[Option<usize>], depth: &[usize], preorder: &[usize]) -> DomTree {
    DomTree {
        entry: 0,
        idom: idom.to_vec(),
        depth: depth.to_vec(),
        preorder: preorder.to_vec(),
    }
}

fn summary(recs: &[SafepointRecord]) -> Vec<(usize, usize, u32, Vec<u32>)> {
    recs.iter().map(|r| (r.block, r.point, r.inst, r.values.clone())).collect()
}

fn single_block_tree() -> DomTree {
    tree(&[None], &[0], &[0])
}

/// v0 = const_ref; v1 = call f(v0); return v1
fn call_chain() -> (Function, Liveness) {
    let f = Function {
        blocks: vec![block(
            &[],
            vec![
                inst(10, Opcode::Compute, &[], &[0], &[]),
                inst(11, Opcode::Call, &[0], &[1], &[]),
                inst(12, Opcode::Return, &[1], &[], &[]),
            ],
        )],
        value_types: vec![Type::R32, Type::R32],
    };
    let l = liveness(2, 1, &[(0, 0, 1, 1), (1, 0, 2, 2)]);
    (f, l)
}

#[test]
fn call_records_only_its_live_argument() {
    let (f, l) = call_chain();
    let recs = compute_stackmaps(&f, &l, &single_block_tree(), SafepointPolicy::CallSites).unwrap();
    assert_eq!(summary(&recs), vec![(0, 1, 11, vec![0])]);
}

/// Block 0 defines a and b and branches to 1 and 2; block 1 uses only a,
/// block 2 only b.
fn branch_split() -> (Function, Liveness, DomTree) {
    let f = Function {
        blocks: vec![
            block(
                &[],
                vec![
                    inst(0, Opcode::Compute, &[], &[0], &[]),
                    inst(1, Opcode::Compute, &[], &[1], &[]),
                    inst(2, Opcode::Branch, &[], &[], &[1, 2]),
                ],
            ),
            block(&[], vec![inst(3, Opcode::Call, &[0], &[], &[]), inst(4, Opcode::Return, &[], &[], &[])]),
            block(&[], vec![inst(5, Opcode::Call, &[1], &[], &[]), inst(6, Opcode::Return, &[], &[], &[])]),
        ],
        value_types: vec![Type::R64, Type::R64],
    };
    let l = liveness(2, 3, &[(0, 0, 1, 2), (1, 0, 2, 2), (0, 1, 0, 0), (1, 2, 0, 0)]);
    let t = tree(&[None, Some(0), Some(0)], &[0, 1, 1], &[0, 1, 2]);
    (f, l, t)
}

#[test]
fn branch_successors_see_only_their_own_values() {
    let (f, l, t) = branch_split();
    let recs = compute_stackmaps(&f, &l, &t, SafepointPolicy::CallSites).unwrap();
    assert_eq!(summary(&recs), vec![(1, 0, 3, vec![0]), (2, 0, 5, vec![1])]);
}

#[test]
fn tracker_seeds_each_successor_from_its_live_ins() {
    let (f, l, t) = branch_split();
    let mut tracker = LiveValueTracker::new(2);
    tracker.enter_block(&f, &l, &t, 1);
    assert_eq!(tracker.snapshot(), vec![0]);
    tracker.enter_block(&f, &l, &t, 2);
    assert_eq!(tracker.snapshot(), vec![1]);
}

#[test]
fn tracker_retires_and_processes() {
    let (f, l) = call_chain();
    let t = single_block_tree();
    let mut tracker = LiveValueTracker::new(2);
    tracker.enter_block(&f, &l, &t, 0);
    assert_eq!(tracker.snapshot(), Vec::<u32>::new());
    tracker.retire(&l, 0, 0);
    tracker.process(&l, 0, 0, &vec![0]);
    assert_eq!(tracker.snapshot(), vec![0]);
    tracker.retire(&l, 0, 1);
    tracker.process(&l, 0, 1, &vec![1]);
    assert_eq!(tracker.snapshot(), vec![1]);
    tracker.retire(&l, 0, 2);
    assert_eq!(tracker.snapshot(), Vec::<u32>::new());
}

/// Block 0 defines v0 and enters a loop at block 1 with two calls and a back
/// edge; block 2 returns.
fn simple_loop() -> (Function, Liveness, DomTree) {
    let f = Function {
        blocks: vec![
            block(&[], vec![inst(0, Opcode::Compute, &[], &[0], &[]), inst(1, Opcode::Branch, &[], &[], &[1])]),
            block(
                &[],
                vec![
                    inst(2, Opcode::Call, &[0], &[], &[]),
                    inst(3, Opcode::Call, &[0], &[], &[]),
                    inst(4, Opcode::Branch, &[0], &[], &[1, 2]),
                ],
            ),
            block(&[], vec![inst(5, Opcode::Return, &[], &[], &[])]),
        ],
        value_types: vec![Type::R32],
    };
    let l = liveness(1, 3, &[(0, 0, 1, 1), (0, 1, 0, 2)]);
    let t = tree(&[None, Some(0), Some(1)], &[0, 1, 2], &[0, 1, 2]);
    (f, l, t)
}

#[test]
fn loop_header_policy_gives_one_record_per_back_edge_target() {
    let (f, l, t) = simple_loop();
    let recs = compute_stackmaps(&f, &l, &t, SafepointPolicy::LoopHeaders).unwrap();
    assert_eq!(summary(&recs), vec![(1, 0, 2, vec![0])]);
    let calls = compute_stackmaps(&f, &l, &t, SafepointPolicy::CallSites).unwrap();
    assert_eq!(summary(&calls), vec![(1, 0, 2, vec![0]), (1, 1, 3, vec![0])]);
}

#[test]
fn loop_headers_are_back_edge_targets() {
    let (f, _, t) = simple_loop();
    assert_eq!(loop_headers(&f, &t).unwrap(), vec![false, true, false]);
}

/// A diamond: 0 branches to 1 and 2, both jump to 3; v0 is defined in 0 and
/// used by a call in 3, whose immediate dominator is 0 but which is not a
/// successor of 0.
fn diamond() -> (Function, Liveness, DomTree) {
    let f = Function {
        blocks: vec![
            block(&[], vec![inst(0, Opcode::Compute, &[], &[0], &[]), inst(1, Opcode::Branch, &[], &[], &[1, 2])]),
            block(&[], vec![inst(2, Opcode::Branch, &[], &[], &[3])]),
            block(&[], vec![inst(3, Opcode::Branch, &[], &[], &[3])]),
            block(&[], vec![inst(4, Opcode::Call, &[0], &[], &[]), inst(5, Opcode::Return, &[], &[], &[])]),
        ],
        value_types: vec![Type::R32],
    };
    let l = liveness(1, 4, &[(0, 0, 1, 1), (0, 1, 0, 0), (0, 2, 0, 0), (0, 3, 0, 0)]);
    let t = tree(&[None, Some(0), Some(0), Some(0)], &[0, 1, 1, 1], &[0, 1, 2, 3]);
    (f, l, t)
}

#[test]
fn value_from_dominator_reaches_join_block() {
    let (f, l, t) = diamond();
    let recs = compute_stackmaps(&f, &l, &t, SafepointPolicy::CallSites).unwrap();
    assert_eq!(summary(&recs), vec![(3, 0, 4, vec![0])]);
    let avail = available_values(&f, &t, 3);
    assert_eq!(avail, vec![true]);
}

#[test]
fn defined_values_lists_params_and_results() {
    let f = Function {
        blocks: vec![block(&[1], vec![inst(0, Opcode::Compute, &[1], &[2], &[])])],
        value_types: vec![Type::I32, Type::I32, Type::I32],
    };
    assert_eq!(defined_values(&f, 0), vec![false, true, true]);
}

#[test]
fn dead_and_integer_values_are_not_recorded() {
    // v0 dies at inst 1, v1 is an integer live across the call, v2 is a
    // reference live across it, v3 is a reference result that is never used.
    let f = Function {
        blocks: vec![block(
            &[],
            vec![
                inst(0, Opcode::Compute, &[], &[0, 1, 2], &[]),
                inst(1, Opcode::Compute, &[0], &[3], &[]),
                inst(2, Opcode::Call, &[], &[], &[]),
                inst(3, Opcode::Return, &[1, 2], &[], &[]),
            ],
        )],
        value_types: vec![Type::R32, Type::I64, Type::R64, Type::R32],
    };
    let l = liveness(4, 1, &[(0, 0, 1, 1), (1, 0, 1, 3), (2, 0, 1, 3)]);
    let recs = compute_stackmaps(&f, &l, &single_block_tree(), SafepointPolicy::CallSites).unwrap();
    assert_eq!(summary(&recs), vec![(0, 2, 2, vec![2])]);
}

#[test]
fn recorded_values_are_live_and_nothing_dead_is_recorded() {
    for (f, l, t) in [branch_split(), simple_loop(), diamond()] {
        let recs = compute_stackmaps(&f, &l, &t, SafepointPolicy::CallSites).unwrap();
        for r in &recs {
            for &v in &r.values {
                assert!(l.is_live_at(v, r.block, r.point));
                assert!(f.value_types[v as usize].is_ref());
            }
            for v in 0..f.value_types.len() as u32 {
                if !l.is_live_at(v, r.block, r.point) {
                    assert!(!r.values.contains(&v));
                }
            }
            assert!(r.values.windows(2).all(|w| w[0] < w[1]));
        }
    }
}

#[test]
fn two_runs_give_identical_records() {
    let (f, l, t) = diamond();
    let a = compute_stackmaps(&f, &l, &t, SafepointPolicy::CallSites).unwrap();
    let b = compute_stackmaps(&f, &l, &t, SafepointPolicy::CallSites).unwrap();
    assert_eq!(summary(&a), summary(&b));
}

#[test]
fn explicit_markers_policy_selects_tagged_instructions() {
    let f = Function {
        blocks: vec![block(
            &[0],
            vec![
                inst(0, Opcode::Call, &[0], &[], &[]),
                inst(1, Opcode::Safepoint, &[], &[], &[]),
                inst(2, Opcode::Return, &[0], &[], &[]),
            ],
        )],
        value_types: vec![Type::R32],
    };
    let l = liveness(1, 1, &[(0, 0, 0, 2)]);
    let recs = compute_stackmaps(&f, &l, &single_block_tree(), SafepointPolicy::ExplicitMarkers).unwrap();
    assert_eq!(summary(&recs), vec![(0, 1, 1, vec![0])]);
}

#[test]
fn default_policy_is_call_sites() {
    assert_eq!(SafepointPolicy::default(), SafepointPolicy::CallSites);
    let call = inst(0, Opcode::Call, &[], &[], &[]);
    assert!(is_safepoint_inst(SafepointPolicy::default(), &call, 3, false));
    let marker = inst(0, Opcode::Stackmap, &[], &[], &[]);
    assert!(!is_safepoint_inst(SafepointPolicy::CallSites, &marker, 0, true));
    assert!(!is_safepoint_inst(SafepointPolicy::ExplicitMarkers, &marker, 0, true));
}

/// Two calls in one block, both with live references.
fn two_calls() -> (Function, Liveness) {
    let f = Function {
        blocks: vec![block(
            &[0],
            vec![
                inst(0, Opcode::Call, &[0], &[1], &[]),
                inst(1, Opcode::Compute, &[1], &[2], &[]),
                inst(2, Opcode::Call, &[0, 2], &[], &[]),
                inst(3, Opcode::Return, &[], &[], &[]),
            ],
        )],
        value_types: vec![Type::R32, Type::R32, Type::R32],
    };
    let l = liveness(3, 1, &[(0, 0, 0, 2), (1, 0, 1, 1), (2, 0, 2, 2)]);
    (f, l)
}

#[test]
fn applier_puts_one_marker_before_each_safepoint() {
    let (mut f, l) = two_calls();
    let t = single_block_tree();
    let recs = compute_stackmaps(&f, &l, &t, SafepointPolicy::CallSites).unwrap();
    assert_eq!(summary(&recs), vec![(0, 0, 0, vec![0]), (0, 2, 2, vec![0, 2])]);
    let before: Vec<(u32, Opcode)> = f.blocks[0].insts.iter().map(|i| (i.id, i.opcode)).collect();
    apply_stackmaps(&mut f, &recs).unwrap();
    let insts = &f.blocks[0].insts;
    assert_eq!(insts.len(), before.len() + recs.len());
    let shape: Vec<(u32, Opcode)> = insts.iter().map(|i| (i.id, i.opcode)).collect();
    assert_eq!(
        shape,
        vec![
            (0, Opcode::Stackmap),
            (0, Opcode::Call),
            (1, Opcode::Compute),
            (2, Opcode::Stackmap),
            (2, Opcode::Call),
            (3, Opcode::Return),
        ]
    );
    assert_eq!(insts[0].args, vec![0]);
    assert_eq!(insts[3].args, vec![0, 2]);
    let program: Vec<(u32, Opcode)> =
        insts.iter().filter(|i| i.opcode != Opcode::Stackmap).map(|i| (i.id, i.opcode)).collect();
    assert_eq!(program, before);
}

#[test]
fn records_are_unchanged_after_markers_are_applied() {
    let (mut f, l) = two_calls();
    let t = single_block_tree();
    let recs = compute_stackmaps(&f, &l, &t, SafepointPolicy::CallSites).unwrap();
    apply_stackmaps(&mut f, &recs).unwrap();
    let again = compute_stackmaps(&f, &l, &t, SafepointPolicy::CallSites).unwrap();
    assert_eq!(summary(&again), summary(&recs));
}

#[test]
fn missing_live_range_is_reported() {
    let (f, _) = call_chain();
    let l = liveness(1, 1, &[(0, 0, 1, 1)]);
    assert_eq!(check_liveness(&f, &l), Err(StackmapError::MissingLivenessInfo { value: 1 }));
    let r = compute_stackmaps(&f, &l, &single_block_tree(), SafepointPolicy::CallSites);
    assert_eq!(r.unwrap_err(), StackmapError::MissingLivenessInfo { value: 1 });
}

#[test]
fn value_without_type_is_reported() {
    let (mut f, l) = call_chain();
    f.blocks[0].insts[2].args.push(7);
    let r = compute_stackmaps(&f, &l, &single_block_tree(), SafepointPolicy::CallSites);
    assert_eq!(r.unwrap_err(), StackmapError::MissingLivenessInfo { value: 7 });
}

#[test]
fn complete_liveness_is_accepted() {
    let (f, l) = call_chain();
    assert_eq!(check_liveness(&f, &l), Ok(()));
    assert!(l.is_live_at(0, 0, 1));
    assert!(!l.is_live_at(0, 0, 2));
    assert!(l.is_last_use(1, 0, 2));
    assert!(!l.is_last_use(1, 0, 1));
}

#[test]
fn branch_to_unreachable_block_is_reported() {
    let f = Function {
        blocks: vec![
            block(&[], vec![inst(0, Opcode::Branch, &[], &[], &[1])]),
            block(&[], vec![inst(1, Opcode::Return, &[], &[], &[])]),
        ],
        value_types: vec![],
    };
    let l = liveness(0, 2, &[]);
    let t = tree(&[None, None], &[0, 0], &[0]);
    let r = compute_stackmaps(&f, &l, &t, SafepointPolicy::LoopHeaders);
    assert_eq!(r.unwrap_err(), StackmapError::UnreachableBlockQueried { block: 1 });
    // The other policies query no dominance.
    assert!(compute_stackmaps(&f, &l, &t, SafepointPolicy::CallSites).unwrap().is_empty());
}

#[test]
fn dominance_queries() {
    let (_, _, t) = diamond();
    assert_eq!(t.dominates_block(0, 3), Ok(true));
    assert_eq!(t.dominates_block(1, 3), Ok(false));
    assert_eq!(t.dominates_block(3, 3), Ok(true));
    let u = tree(&[None, None], &[0, 0], &[0]);
    assert_eq!(u.dominates_block(1, 0), Err(StackmapError::UnreachableBlockQueried { block: 1 }));
}

#[test]
fn record_for_missing_instruction_is_rejected() {
    let (mut f, l) = two_calls();
    let t = single_block_tree();
    let mut recs = compute_stackmaps(&f, &l, &t, SafepointPolicy::CallSites).unwrap();
    recs.push(SafepointRecord { block: 0, point: 9, inst: 42, values: vec![] });
    let before = f.blocks[0].insts.len();
    assert_eq!(
        apply_stackmaps(&mut f, &recs),
        Err(StackmapError::InvalidInsertionPosition { block: 0, inst: 42 })
    );
    assert_eq!(f.blocks[0].insts.len(), before);
    recs.pop();
    recs.push(SafepointRecord { block: 5, point: 0, inst: 0, values: vec![] });
    assert_eq!(
        apply_stackmaps(&mut f, &recs),
        Err(StackmapError::InvalidInsertionPosition { block: 5, inst: 0 })
    );
}

#[test]
fn reference_types() {
    assert!(Type::R32.is_ref());
    assert!(Type::R64.is_ref());
    assert!(!Type::I32.is_ref());
    assert!(!Type::I8.is_ref());
}

#[test]
fn pass_inserts_markers_and_returns_records() {
    let (mut f, l) = two_calls();
    let t = single_block_tree();
    let recs = stackmaps::stackmap::emit_stackmaps(&mut f, &l, &t, SafepointPolicy::CallSites).unwrap();
    assert_eq!(summary(&recs), vec![(0, 0, 0, vec![0]), (0, 2, 2, vec![0, 2])]);
    let ops: Vec<Opcode> = f.blocks[0].insts.iter().map(|i| i.opcode).collect();
    assert_eq!(
        ops,
        vec![Opcode::Stackmap, Opcode::Call, Opcode::Compute, Opcode::Stackmap, Opcode::Call, Opcode::Return]
    );
}

#[test]
fn pass_leaves_function_unchanged_on_error() {
    let (mut f, _) = two_calls();
    let l = liveness(2, 1, &[(0, 0, 0, 2), (1, 0, 1, 1)]);
    let r = stackmaps::stackmap::emit_stackmaps(&mut f, &l, &single_block_tree(), SafepointPolicy::CallSites);
    assert_eq!(r.unwrap_err(), StackmapError::MissingLivenessInfo { value: 2 });
    assert_eq!(f.blocks[0].insts.len(), 4);
}

use stackmaps::binemit::{emit_stackmaps as emit_table, Diversion, Encoding, LiveSlot, Location};

#[test]
fn table_gives_offsets_and_diverted_locations() {
    let (mut f, l) = two_calls();
    let t = single_block_tree();
    stackmaps::stackmap::emit_stackmaps(&mut f, &l, &t, SafepointPolicy::CallSites).unwrap();
    let enc = Encoding {
        offsets: vec![vec![0, 0, 4, 8, 8, 12]],
        diversions: vec![vec![
            vec![],
            vec![],
            vec![Diversion { value: 0, to: Location::Reg(3) }, Diversion { value: 0, to: Location::Reg(5) }],
            vec![],
            vec![],
            vec![],
        ]],
        locations: vec![Location::Stack(16), Location::Reg(1), Location::Reg(2)],
    };
    let table = emit_table(&f, &enc);
    assert_eq!(table.len(), 2);
    assert_eq!(table[0].offset, 0);
    assert_eq!(table[0].slots, vec![LiveSlot { location: Location::Stack(16), ty: Type::R32 }]);
    assert_eq!(table[1].offset, 8);
    assert_eq!(
        table[1].slots,
        vec![
            LiveSlot { location: Location::Reg(5), ty: Type::R32 },
            LiveSlot { location: Location::Reg(2), ty: Type::R32 },
        ]
    );
}

#[test]
fn diversions_end_with_their_block() {
    let f = Function {
        blocks: vec![
            block(
                &[],
                vec![
                    inst(0, Opcode::Compute, &[], &[0], &[]),
                    inst(1, Opcode::Branch, &[], &[], &[1]),
                ],
            ),
            block(
                &[],
                vec![inst(2, Opcode::Stackmap, &[0], &[], &[]), inst(2, Opcode::Call, &[0], &[], &[])],
            ),
        ],
        value_types: vec![Type::R64],
    };
    let enc = Encoding {
        offsets: vec![vec![0, 4], vec![8, 8]],
        diversions: vec![vec![vec![Diversion { value: 0, to: Location::Reg(7) }], vec![]], vec![vec![], vec![]]],
        locations: vec![Location::Reg(1)],
    };
    let table = emit_table(&f, &enc);
    assert_eq!(table.len(), 1);
    assert_eq!(table[0].offset, 8);
    assert_eq!(table[0].slots, vec![LiveSlot { location: Location::Reg(1), ty: Type::R64 }]);
}
