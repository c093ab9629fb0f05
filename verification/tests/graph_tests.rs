use riscv_compiler::def_sites::collect_defs;
use riscv_compiler::dominators::immediate_dominators;
use riscv_compiler::frontier::{dominance_frontier, dominator_tree};
use riscv_compiler::function::{IrFunction, IrModule};
use riscv_compiler::ir::{IrError, IrInstruction, Literal};
use riscv_compiler::rename::{create_new_name, current_name, Counters, Stacks};
use riscv_compiler::walk::rename_pass;
use riscv_compiler::names::StrMap;
use riscv_compiler::ssa::SSAFormation;
use riscv_compiler::wiring::wire_block_edges;

fn s(text: &str) -> String {
    text.to_string()
}

fn assign(lhs: &str, rhs: &str) -> IrInstruction {
    IrInstruction::Assign { lhs: s(lhs), rhs: s(rhs) }
}

fn jmp(label: &str) -> IrInstruction {
    IrInstruction::Jmp { label: s(label) }
}

fn br(cond: &str, then_lbl: &str, else_lbl: &str) -> IrInstruction {
    IrInstruction::Br { cond: s(cond), then_lbl: s(then_lbl), else_lbl: s(else_lbl) }
}

/// entry -> A -> (B | C) -> D -> Exit, with terminators but without edges.
fn unwired_diamond() -> IrFunction {
    let mut f = IrFunction::new("diamond");
    for label in ["entry", "A", "B", "C", "D", "Exit"] {
        f.add_block(label);
    }
    f.append_instr(0, &jmp("A"));
    f.append_instr(1, &br("c", "B", "C"));
    f.append_instr(2, &assign("x", "5"));
    f.append_instr(2, &jmp("D"));
    f.append_instr(3, &assign("x", "10"));
    f.append_instr(3, &jmp("D"));
    f.append_instr(4, &IrInstruction::Print { values: vec![s("x")] });
    f.append_instr(5, &IrInstruction::Ret { args: vec![s("x")] });
    f
}

fn wired_diamond() -> IrFunction {
    let mut f = unwired_diamond();
    wire_block_edges(&mut f).unwrap();
    f
}

#[test]
fn add_block_returns_the_index_and_enters_the_label() {
    let mut f = IrFunction::new("f");
    assert_eq!(f.add_block("entry"), 0);
    assert_eq!(f.add_block("next"), 1);
    assert_eq!(f.block_index(&s("entry")), Some(0));
    assert_eq!(f.block_index(&s("next")), Some(1));
    assert_eq!(f.block_index(&s("nowhere")), None);
    assert_eq!(f.blocks[1].label, "next");
    assert!(f.blocks[1].instrs.is_empty());
}

#[test]
fn add_edge_enters_the_edge_on_both_sides() {
    let mut f = IrFunction::new("f");
    f.add_block("a");
    f.add_block("b");
    f.add_edge(0, 1);
    assert_eq!(f.blocks[0].succs, vec![1]);
    assert_eq!(f.blocks[1].preds, vec![0]);
    assert!(f.blocks[0].preds.is_empty());
    assert!(f.blocks[1].succs.is_empty());
}

#[test]
fn defs_and_uses_follow_the_instruction_kind() {
    let add = IrInstruction::Add { dest: s("d"), lhs: s("a"), rhs: s("b") };
    assert_eq!(add.defs(), vec![s("d")]);
    assert_eq!(add.uses(), vec![s("a"), s("b")]);

    let copy = assign("x", "y");
    assert_eq!(copy.defs(), vec![s("x")]);
    assert_eq!(copy.uses(), vec![s("y")]);

    let call = IrInstruction::Call { target_func: s("f"), args: vec![s("p"), s("q")], dest: None };
    assert!(call.defs().is_empty());
    assert_eq!(call.uses(), vec![s("p"), s("q")]);

    let call_with_dest =
        IrInstruction::Call { target_func: s("f"), args: vec![], dest: Some(s("r")) };
    assert_eq!(call_with_dest.defs(), vec![s("r")]);

    let phi = IrInstruction::Phi { dest: s("x"), sources: vec![Some(s("x$1")), None, Some(s("x$2"))] };
    assert_eq!(phi.defs(), vec![s("x")]);
    assert_eq!(phi.uses(), vec![s("x$1"), s("x$2")]);

    let constant = IrInstruction::Const { dest: s("k"), value: Literal::Int(3) };
    assert_eq!(constant.defs(), vec![s("k")]);
    assert!(constant.uses().is_empty());

    assert!(jmp("l").defs().is_empty());
    assert!(jmp("l").uses().is_empty());
    assert_eq!(br("c", "t", "e").uses(), vec![s("c")]);
    let ret = IrInstruction::Ret { args: vec![s("v")] };
    assert!(ret.defs().is_empty());
    assert_eq!(ret.uses(), vec![s("v")]);
}

#[test]
fn wiring_adds_the_edges_of_every_terminator() {
    let f = wired_diamond();
    let succs: Vec<Vec<usize>> = f.blocks.iter().map(|b| b.succs.clone()).collect();
    let preds: Vec<Vec<usize>> = f.blocks.iter().map(|b| b.preds.clone()).collect();
    assert_eq!(succs, vec![vec![1], vec![2, 3], vec![4], vec![4], vec![5], vec![]]);
    assert_eq!(preds, vec![vec![], vec![0], vec![1], vec![1], vec![2, 3], vec![4]]);
}

#[test]
fn wiring_keeps_successors_and_predecessors_in_step() {
    let f = wired_diamond();
    let n = f.blocks.len();
    for a in 0..n {
        for b in 0..n {
            assert_eq!(f.blocks[a].succs.contains(&b), f.blocks[b].preds.contains(&a));
        }
    }
}

#[test]
fn a_block_without_terminator_falls_through() {
    let mut f = IrFunction::new("f");
    f.add_block("a");
    f.add_block("b");
    f.add_block("c");
    f.append_instr(0, &assign("x", "1"));
    f.append_instr(2, &assign("y", "2"));
    wire_block_edges(&mut f).unwrap();
    assert_eq!(f.blocks[0].succs, vec![1]);
    assert_eq!(f.blocks[1].succs, vec![2]);
    assert!(f.blocks[2].succs.is_empty());
    assert_eq!(f.blocks[2].preds, vec![1]);
}

#[test]
fn wiring_rejects_an_unknown_label_and_changes_nothing() {
    let mut f = IrFunction::new("f");
    f.add_block("a");
    f.add_block("b");
    f.append_instr(0, &jmp("b"));
    f.append_instr(1, &jmp("nowhere"));
    assert_eq!(wire_block_edges(&mut f), Err(IrError::UnknownLabel));
    assert!(f.blocks[0].succs.is_empty());
    assert!(f.blocks[1].preds.is_empty());
}

#[test]
fn the_immediate_dominators_of_the_diamond() {
    let f = wired_diamond();
    let idom = immediate_dominators(&f).unwrap();
    assert_eq!(idom, vec![0, 0, 1, 1, 1, 4]);
    let df = dominance_frontier(&f, &idom);
    assert_eq!(df, vec![vec![], vec![], vec![4], vec![4], vec![], vec![]]);
    let tree = dominator_tree(&idom);
    assert_eq!(tree, vec![vec![1], vec![2, 3, 4], vec![], vec![], vec![5], vec![]]);
}

#[test]
fn a_loop_has_its_header_in_its_own_frontier() {
    // 0 -> 1 -> 2 -> 1, 1 -> 3
    let mut f = IrFunction::new("looping");
    for label in ["entry", "head", "body", "exit"] {
        f.add_block(label);
    }
    f.append_instr(0, &jmp("head"));
    f.append_instr(1, &br("c", "body", "exit"));
    f.append_instr(2, &jmp("head"));
    f.append_instr(3, &IrInstruction::Ret { args: vec![] });
    wire_block_edges(&mut f).unwrap();
    let idom = immediate_dominators(&f).unwrap();
    assert_eq!(idom, vec![0, 0, 1, 1]);
    let df = dominance_frontier(&f, &idom);
    assert_eq!(df, vec![vec![], vec![1], vec![1], vec![]]);
}

#[test]
fn a_block_that_cannot_be_reached_makes_the_graph_malformed() {
    let mut f = IrFunction::new("f");
    f.add_block("entry");
    f.add_block("island");
    f.append_instr(0, &IrInstruction::Ret { args: vec![] });
    f.append_instr(1, &IrInstruction::Ret { args: vec![] });
    wire_block_edges(&mut f).unwrap();
    assert_eq!(immediate_dominators(&f), Err(IrError::MalformedCfg));
    let mut funcs = vec![f];
    assert!(matches!(SSAFormation::new(&mut funcs), Err(IrError::MalformedCfg)));
    assert!(funcs[0].blocks[0].instrs.len() == 1);
}

#[test]
fn blocks_numbered_against_the_flow_have_dominators() {
    // 0 -> 2 -> 1: block 1 comes after block 2 in the flow.
    let mut f = IrFunction::new("f");
    f.add_block("entry");
    f.add_block("last");
    f.add_block("middle");
    f.append_instr(0, &assign("x", "1"));
    f.append_instr(0, &jmp("middle"));
    f.append_instr(1, &IrInstruction::Ret { args: vec![s("x")] });
    f.append_instr(2, &assign("x", "2"));
    f.append_instr(2, &jmp("last"));
    wire_block_edges(&mut f).unwrap();
    let idom = immediate_dominators(&f).unwrap();
    assert_eq!(idom, vec![0, 2, 0]);
    assert_eq!(dominance_frontier(&f, &idom), vec![vec![], vec![], vec![]]);
    assert_eq!(dominator_tree(&idom), vec![vec![2], vec![], vec![1]]);

    let mut funcs = vec![f];
    let ssa = SSAFormation::new(&mut funcs).unwrap();
    assert_eq!(ssa.idom[&1], 2);
    assert_eq!(ssa.idom[&2], 0);
    assert_eq!(ssa.dom_tree[&2], vec![1]);
    let f = &funcs[0];
    assert_eq!(f.blocks[0].instrs[0], assign("x$1", "1"));
    assert_eq!(f.blocks[2].instrs[0], assign("x$2", "2"));
    assert_eq!(f.blocks[1].instrs[0], IrInstruction::Ret { args: vec![s("x$2")] });
}

/// 0 -> 2, 1 -> 2, 2 -> 1, 2 -> 3: a loop whose test stands below its body.
fn bottom_tested_loop() -> IrFunction {
    let mut f = IrFunction::new("repeat");
    for label in ["entry", "body", "test", "exit"] {
        f.add_block(label);
    }
    f.append_instr(0, &IrInstruction::Const { dest: s("i"), value: Literal::Int(0) });
    f.append_instr(0, &jmp("test"));
    f.append_instr(1, &IrInstruction::Add { dest: s("i"), lhs: s("i"), rhs: s("k") });
    f.append_instr(1, &jmp("test"));
    f.append_instr(2, &br("c", "body", "exit"));
    f.append_instr(3, &IrInstruction::Ret { args: vec![s("i")] });
    wire_block_edges(&mut f).unwrap();
    f
}

#[test]
fn a_loop_tested_at_the_bottom_has_dominators() {
    let f = bottom_tested_loop();
    assert_eq!(f.blocks[2].preds, vec![0, 1]);
    let idom = immediate_dominators(&f).unwrap();
    assert_eq!(idom, vec![0, 2, 0, 2]);
    assert_eq!(dominance_frontier(&f, &idom), vec![vec![], vec![2], vec![2], vec![]]);
    assert_eq!(dominator_tree(&idom), vec![vec![2], vec![], vec![1, 3], vec![]]);
}

#[test]
fn a_loop_tested_at_the_bottom_is_renamed_along_the_tree() {
    let mut funcs = vec![bottom_tested_loop()];
    SSAFormation::new(&mut funcs).unwrap();
    let f = &funcs[0];
    assert_eq!(f.blocks[0].instrs[0], IrInstruction::Const { dest: s("i$1"), value: Literal::Int(0) });
    assert_eq!(
        f.blocks[2].instrs[0],
        IrInstruction::Phi { dest: s("i$2"), sources: vec![Some(s("i$1")), Some(s("i$3"))] }
    );
    assert_eq!(
        f.blocks[1].instrs[0],
        IrInstruction::Add { dest: s("i$3"), lhs: s("i$2"), rhs: s("k") }
    );
    assert_eq!(f.blocks[3].instrs[0], IrInstruction::Ret { args: vec![s("i$2")] });
}

#[test]
fn the_closest_of_several_dominators_is_entered() {
    // 0 -> 1 -> 2 -> 3, 1 -> 3: blocks 0 and 1 dominate block 3, block 2 does not.
    let mut f = IrFunction::new("skip");
    for label in ["entry", "a", "b", "c"] {
        f.add_block(label);
    }
    f.append_instr(0, &jmp("a"));
    f.append_instr(1, &br("t", "b", "c"));
    f.append_instr(2, &jmp("c"));
    f.append_instr(3, &IrInstruction::Ret { args: vec![] });
    wire_block_edges(&mut f).unwrap();
    assert_eq!(immediate_dominators(&f).unwrap(), vec![0, 0, 1, 1]);
}

#[test]
fn an_island_behind_reachable_blocks_is_malformed() {
    // 0 -> 1, and 2 <-> 3 on their own.
    let mut f = IrFunction::new("f");
    for label in ["entry", "a", "b", "c"] {
        f.add_block(label);
    }
    f.append_instr(0, &jmp("a"));
    f.append_instr(1, &IrInstruction::Ret { args: vec![] });
    f.append_instr(2, &jmp("c"));
    f.append_instr(3, &jmp("b"));
    wire_block_edges(&mut f).unwrap();
    assert_eq!(immediate_dominators(&f), Err(IrError::MalformedCfg));
}

#[test]
fn definition_sites_are_listed_in_order_of_first_definition() {
    let f = wired_diamond();
    let sites = collect_defs(&f);
    assert_eq!(sites.len(), 1);
    assert_eq!(sites.keys, vec![s("x")]);
    assert_eq!(sites.get(&s("x")), Some(&vec![2, 3]));
    assert_eq!(sites.get(&s("y")), None);
}

#[test]
fn a_phi_is_placed_where_two_definitions_meet() {
    let mut f = wired_diamond();
    let mut ssa = SSAFormation::default();
    ssa.compute_idom(&f).unwrap();
    ssa.compute_df(&f).unwrap();
    let sites = collect_defs(&f);
    ssa.phi_insert(&mut f, &sites);
    assert_eq!(
        f.blocks[4].instrs[0],
        IrInstruction::Phi { dest: s("x"), sources: vec![None, None] }
    );
    assert_eq!(f.blocks[4].instrs.len(), 2);
    for b in [0usize, 1, 2, 3, 5] {
        assert!(!f.blocks[b].instrs.iter().any(|i| matches!(i, IrInstruction::Phi { .. })));
    }
    // The block with the phi lies in the frontier of a block that defines the name.
    assert!(ssa.dom_frontier[&2].contains(&4));
    assert_eq!(ssa.dom_frontier.keys().copied().collect::<Vec<usize>>(), vec![2, 3]);
    assert!(f.blocks[2].instrs.iter().any(|i| i.defs() == vec![s("x")]));
}

#[test]
fn renaming_gives_every_definition_its_own_name() {
    let mut funcs = vec![wired_diamond()];
    let ssa = SSAFormation::new(&mut funcs).unwrap();
    let f = &funcs[0];
    let mut idom: Vec<(usize, usize)> = ssa.idom.iter().map(|(&b, &d)| (b, d)).collect();
    idom.sort();
    assert_eq!(idom, vec![(0, 0), (1, 0), (2, 1), (3, 1), (4, 1), (5, 4)]);
    assert_eq!(f.blocks[2].instrs[0], assign("x$1", "5"));
    assert_eq!(f.blocks[3].instrs[0], assign("x$2", "10"));
    assert_eq!(
        f.blocks[4].instrs[0],
        IrInstruction::Phi { dest: s("x$3"), sources: vec![Some(s("x$1")), Some(s("x$2"))] }
    );
    assert_eq!(f.blocks[4].instrs[1], IrInstruction::Print { values: vec![s("x$3")] });
    assert_eq!(f.blocks[5].instrs[0], IrInstruction::Ret { args: vec![s("x$3")] });
    assert_eq!(f.blocks[1].instrs[0], br("c", "B", "C"));

    let mut seen: Vec<String> = Vec::new();
    for block in &f.blocks {
        for instr in &block.instrs {
            for name in instr.defs() {
                assert!(!seen.contains(&name), "{} is defined twice", name);
                seen.push(name);
            }
        }
    }
    assert_eq!(seen.len(), 3);
}

#[test]
fn renaming_numbers_redefinitions_within_a_block() {
    let mut f = IrFunction::new("straight");
    f.add_block("entry");
    f.append_instr(0, &IrInstruction::Const { dest: s("a"), value: Literal::Int(1) });
    f.append_instr(0, &IrInstruction::Add { dest: s("a"), lhs: s("a"), rhs: s("b") });
    f.append_instr(0, &IrInstruction::Ret { args: vec![s("a")] });
    wire_block_edges(&mut f).unwrap();
    let mut funcs = vec![f];
    SSAFormation::new(&mut funcs).unwrap();
    let f = &funcs[0];
    assert_eq!(f.blocks[0].instrs[0], IrInstruction::Const { dest: s("a$1"), value: Literal::Int(1) });
    assert_eq!(
        f.blocks[0].instrs[1],
        IrInstruction::Add { dest: s("a$2"), lhs: s("a$1"), rhs: s("b") }
    );
    assert_eq!(f.blocks[0].instrs[2], IrInstruction::Ret { args: vec![s("a$2")] });
}

#[test]
fn issued_names_count_up_per_name() {
    let mut counter: Counters = StrMap::new();
    let mut stacks: Stacks = StrMap::new();
    assert_eq!(current_name(&s("v"), &stacks), "v");
    assert_eq!(create_new_name(&s("v"), &mut counter, &mut stacks), "v$1");
    assert_eq!(create_new_name(&s("w"), &mut counter, &mut stacks), "w$1");
    assert_eq!(create_new_name(&s("v"), &mut counter, &mut stacks), "v$2");
    assert_eq!(current_name(&s("v"), &stacks), "v$2");
    assert_eq!(current_name(&s("w"), &stacks), "w$1");
    assert_eq!(counter.get(&s("v")), Some(&2));
    assert_eq!(stacks.get(&s("v")), Some(&vec![s("v$1"), s("v$2")]));
}

#[test]
fn renaming_leaves_the_stacks_empty_and_counts_the_definitions() {
    let mut f = bottom_tested_loop();
    let mut ssa = SSAFormation::default();
    ssa.compute_idom(&f).unwrap();
    ssa.compute_df(&f).unwrap();
    ssa.build_dom_tree().unwrap();
    let sites = collect_defs(&f);
    ssa.phi_insert(&mut f, &sites);
    let mut counter: Counters = StrMap::new();
    let mut stacks: Stacks = StrMap::new();
    counter.insert(s("i"), 0);
    stacks.insert(s("i"), vec![]);
    rename_pass(0, &ssa.dom_tree, &mut f, &mut counter, &mut stacks);
    // One definition in the entry, one in the body, one φ at the test.
    assert_eq!(counter.get(&s("i")), Some(&3));
    assert_eq!(stacks.get(&s("i")), Some(&vec![]));
    assert_eq!(stacks.len(), 1);
}

#[test]
fn a_use_names_the_latest_definition_before_it() {
    let mut f = IrFunction::new("straight");
    f.add_block("entry");
    f.append_instr(0, &IrInstruction::Const { dest: s("a"), value: Literal::Int(1) });
    f.append_instr(0, &IrInstruction::Const { dest: s("b"), value: Literal::Int(2) });
    f.append_instr(0, &IrInstruction::Const { dest: s("a"), value: Literal::Int(3) });
    f.append_instr(0, &IrInstruction::Add { dest: s("c"), lhs: s("a"), rhs: s("b") });
    f.append_instr(0, &IrInstruction::Ret { args: vec![s("c"), s("a"), s("z")] });
    wire_block_edges(&mut f).unwrap();
    let mut funcs = vec![f];
    SSAFormation::new(&mut funcs).unwrap();
    let f = &funcs[0];
    assert_eq!(
        f.blocks[0].instrs[3],
        IrInstruction::Add { dest: s("c$1"), lhs: s("a$2"), rhs: s("b$1") }
    );
    assert_eq!(f.blocks[0].instrs[4], IrInstruction::Ret { args: vec![s("c$1"), s("a$2"), s("z")] });
}

#[test]
fn a_module_is_converted_function_by_function() {
    let mut module = IrModule { functions: vec![wired_diamond(), wired_diamond()] };
    let ssa = SSAFormation::try_from(&mut module).unwrap();
    assert_eq!(ssa.dom_tree[&1], vec![2, 3, 4]);
    assert_eq!(ssa.dom_tree.len(), 3);
    for f in &module.functions {
        assert!(matches!(f.blocks[4].instrs[0], IrInstruction::Phi { .. }));
    }
}

#[test]
fn an_empty_list_of_functions_leaves_the_tables_empty() {
    let mut funcs: Vec<IrFunction> = Vec::new();
    let ssa = SSAFormation::new(&mut funcs).unwrap();
    assert!(ssa.idom.is_empty());
    assert!(ssa.dom_tree.is_empty());
    assert!(ssa.dom_frontier.is_empty());
}

/// Whether `target` can be reached from the entry without passing through `without`.
fn reachable_without(f: &IrFunction, without: usize, target: usize) -> bool {
    if without == 0 {
        return false;
    }
    let mut seen = vec![false; f.blocks.len()];
    let mut work = vec![0usize];
    seen[0] = true;
    while let Some(b) = work.pop() {
        if b == target {
            return true;
        }
        for &succ in &f.blocks[b].succs {
            if succ != without && !seen[succ] {
                seen[succ] = true;
                work.push(succ);
            }
        }
    }
    false
}

#[test]
fn every_block_is_cut_off_without_its_immediate_dominator() {
    let f = wired_diamond();
    let idom = immediate_dominators(&f).unwrap();
    assert_eq!(idom[0], 0);
    for b in 1..f.blocks.len() {
        assert_ne!(idom[b], b);
        assert!(!reachable_without(&f, idom[b], b), "block {} is reached around {}", b, idom[b]);
    }
}
