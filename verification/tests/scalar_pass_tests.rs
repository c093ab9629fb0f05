use riscv_compiler::constant_folding::ConstantFoldPass;
use riscv_compiler::constant_propagate::ConstantPropagationPass;
use riscv_compiler::deadcode_removal::{eliminate_deadcode, DeadCodeRemovalPass};
use riscv_compiler::function::{IrFunction, IrModule};
use riscv_compiler::ir::{IrInstruction, Literal};
use riscv_compiler::liveness::{compute_block_def_use, compute_liveness};
use riscv_compiler::names::NameSet;
use riscv_compiler::pass_manager::{FunctionPass, PassManager};
use riscv_compiler::scalar_passes::ScalarPass;
use riscv_compiler::wiring::wire_block_edges;

fn t(text: &str) -> String {
    text.to_string()
}

fn add(dest: &str, lhs: &str, rhs: &str) -> IrInstruction {
    IrInstruction::Add { dest: t(dest), lhs: t(lhs), rhs: t(rhs) }
}

fn constant(dest: &str, value: i64) -> IrInstruction {
    IrInstruction::Const { dest: t(dest), value: Literal::Int(value) }
}

fn one_block(instrs: Vec<IrInstruction>) -> IrFunction {
    let mut f = IrFunction::new("f");
    f.add_block("entry");
    for instr in &instrs {
        f.append_instr(0, instr);
    }
    f
}

fn sorted(set: &NameSet) -> Vec<String> {
    let mut names = set.items.clone();
    names.sort();
    names
}

#[test]
fn folding_replaces_an_addition_of_literals() {
    let mut f = one_block(vec![add("d", "2", "3")]);
    assert!(ConstantFoldPass {}.run_on_function(&mut f));
    assert_eq!(f.blocks[0].instrs, vec![constant("d", 5)]);
}

#[test]
fn folding_covers_the_four_arithmetic_operations() {
    let mut f = one_block(vec![
        IrInstruction::Sub { dest: t("a"), lhs: t("2"), rhs: t("5") },
        IrInstruction::Mul { dest: t("b"), lhs: t("-4"), rhs: t("6") },
        IrInstruction::Div { dest: t("c"), lhs: t("-7"), rhs: t("2") },
        IrInstruction::Div { dest: t("e"), lhs: t("7"), rhs: t("-2") },
        IrInstruction::Add { dest: t("g"), lhs: t("+10"), rhs: t("007") },
    ]);
    ConstantFoldPass {}.run_on_function(&mut f);
    assert_eq!(
        f.blocks[0].instrs,
        vec![
            constant("a", -3),
            constant("b", -24),
            constant("c", -3),
            constant("e", -3),
            constant("g", 17),
        ]
    );
}

#[test]
fn folding_leaves_what_it_cannot_compute() {
    let untouched = vec![
        IrInstruction::Div { dest: t("a"), lhs: t("1"), rhs: t("0") },
        add("b", "x", "3"),
        add("c", "9223372036854775807", "1"),
        IrInstruction::Mul { dest: t("d"), lhs: t("9223372036854775807"), rhs: t("2") },
        IrInstruction::Div { dest: t("e"), lhs: t("-9223372036854775808"), rhs: t("-1") },
        add("f", "", "1"),
        add("g", "-", "1"),
        add("h", "1 ", "1"),
        IrInstruction::Lt { dest: t("i"), lhs: t("1"), rhs: t("2") },
        add("j", "9223372036854775808", "0"),
    ];
    let mut f = one_block(untouched.clone());
    assert!(ConstantFoldPass {}.run_on_function(&mut f));
    assert_eq!(f.blocks[0].instrs, untouched);
}

#[test]
fn folding_reaches_the_smallest_integer() {
    let mut f = one_block(vec![add("m", "-9223372036854775808", "0")]);
    ConstantFoldPass {}.run_on_function(&mut f);
    assert_eq!(f.blocks[0].instrs, vec![constant("m", i64::MIN)]);
}

#[test]
fn propagation_writes_a_known_integer_into_arithmetic() {
    let mut f = one_block(vec![constant("a", 7), add("r", "a", "b")]);
    assert!(ConstantPropagationPass {}.run_on_function(&mut f));
    assert_eq!(f.blocks[0].instrs, vec![constant("a", 7), add("r", "7", "b")]);
}

#[test]
fn propagation_puts_integers_and_truth_values_in_their_places() {
    let mut f = one_block(vec![
        constant("n", -12),
        IrInstruction::Const { dest: t("yes"), value: Literal::Bool(true) },
        IrInstruction::Assign { lhs: t("x"), rhs: t("n") },
        IrInstruction::Assign { lhs: t("y"), rhs: t("yes") },
        IrInstruction::Le { dest: t("c"), lhs: t("yes"), rhs: t("n") },
        IrInstruction::And { dest: t("d"), lhs: t("yes"), rhs: t("yes") },
        IrInstruction::Print { values: vec![t("n")] },
        IrInstruction::Call { target_func: t("g"), args: vec![t("n")], dest: None },
        IrInstruction::Ret { args: vec![t("n"), t("yes"), t("z")] },
    ]);
    ConstantPropagationPass {}.run_on_function(&mut f);
    assert_eq!(
        f.blocks[0].instrs,
        vec![
            constant("n", -12),
            IrInstruction::Const { dest: t("yes"), value: Literal::Bool(true) },
            IrInstruction::Assign { lhs: t("x"), rhs: t("-12") },
            IrInstruction::Assign { lhs: t("y"), rhs: t("yes") },
            IrInstruction::Le { dest: t("c"), lhs: t("true"), rhs: t("n") },
            IrInstruction::And { dest: t("d"), lhs: t("yes"), rhs: t("yes") },
            IrInstruction::Print { values: vec![t("n")] },
            IrInstruction::Call { target_func: t("g"), args: vec![t("n")], dest: None },
            IrInstruction::Ret { args: vec![t("-12"), t("yes"), t("z")] },
        ]
    );
}

#[test]
fn propagation_writes_a_truth_value_into_a_branch() {
    let mut f = IrFunction::new("f");
    f.add_block("entry");
    f.add_block("next");
    f.append_instr(0, &IrInstruction::Const { dest: t("c"), value: Literal::Bool(false) });
    f.append_instr(
        0,
        &IrInstruction::Br { cond: t("c"), then_lbl: t("next"), else_lbl: t("next") },
    );
    f.append_instr(1, &IrInstruction::Ret { args: vec![t("c")] });
    ConstantPropagationPass {}.run_on_function(&mut f);
    assert_eq!(
        f.blocks[0].instrs[1],
        IrInstruction::Br { cond: t("false"), then_lbl: t("next"), else_lbl: t("next") }
    );
    // What one block knows, the next does not.
    assert_eq!(f.blocks[1].instrs[0], IrInstruction::Ret { args: vec![t("c")] });
}

#[test]
fn propagation_then_folding_computes_the_sum() {
    let mut f = one_block(vec![constant("a", 7), constant("b", 35), add("r", "a", "b")]);
    ConstantPropagationPass {}.run_on_function(&mut f);
    ConstantFoldPass {}.run_on_function(&mut f);
    assert_eq!(f.blocks[0].instrs[2], constant("r", 42));
}

#[test]
fn a_block_reads_what_it_uses_before_defining() {
    let f = one_block(vec![
        add("a", "a", "b"),
        add("c", "a", "d"),
        IrInstruction::Ret { args: vec![t("c"), t("e")] },
    ]);
    let (defs, uses) = compute_block_def_use(&f.blocks[0]);
    assert_eq!(sorted(&defs), vec![t("a"), t("c")]);
    assert_eq!(sorted(&uses), vec![t("a"), t("b"), t("d"), t("e")]);
}

/// entry: i = 0; head: c = i < n, br c body exit; body: i = i + one, jmp head; exit: ret i
fn counting_loop() -> IrFunction {
    let mut f = IrFunction::new("count");
    for label in ["entry", "head", "body", "exit"] {
        f.add_block(label);
    }
    f.append_instr(0, &constant("i", 0));
    f.append_instr(0, &IrInstruction::Jmp { label: t("head") });
    f.append_instr(1, &IrInstruction::Lt { dest: t("c"), lhs: t("i"), rhs: t("n") });
    f.append_instr(
        1,
        &IrInstruction::Br { cond: t("c"), then_lbl: t("body"), else_lbl: t("exit") },
    );
    f.append_instr(2, &add("i", "i", "one"));
    f.append_instr(2, &IrInstruction::Jmp { label: t("head") });
    f.append_instr(3, &IrInstruction::Ret { args: vec![t("i")] });
    wire_block_edges(&mut f).unwrap();
    f
}

#[test]
fn liveness_of_a_loop() {
    let f = counting_loop();
    let (live_out, live_in) = compute_liveness(&f);
    let outs: Vec<Vec<String>> = live_out.iter().map(sorted).collect();
    let ins: Vec<Vec<String>> = live_in.iter().map(sorted).collect();
    assert_eq!(
        outs,
        vec![
            vec![t("i"), t("n"), t("one")],
            vec![t("i"), t("n"), t("one")],
            vec![t("i"), t("n"), t("one")],
            vec![],
        ]
    );
    assert_eq!(
        ins,
        vec![
            vec![t("n"), t("one")],
            vec![t("i"), t("n"), t("one")],
            vec![t("i"), t("n"), t("one")],
            vec![t("i")],
        ]
    );
}

#[test]
fn liveness_solves_its_equations() {
    let f = counting_loop();
    let (live_out, live_in) = compute_liveness(&f);
    for (b, block) in f.blocks.iter().enumerate() {
        let mut out: Vec<String> = Vec::new();
        for &succ in &block.succs {
            for name in &live_in[succ].items {
                if !out.contains(name) {
                    out.push(name.clone());
                }
            }
        }
        out.sort();
        assert_eq!(sorted(&live_out[b]), out);

        let (defs, uses) = compute_block_def_use(block);
        let mut into: Vec<String> = uses.items.clone();
        for name in &live_out[b].items {
            if !defs.items.contains(name) && !into.contains(name) {
                into.push(name.clone());
            }
        }
        into.sort();
        assert_eq!(sorted(&live_in[b]), into);
    }
}

#[test]
fn dead_code_elimination_drops_an_unused_constant() {
    let mut f = one_block(vec![
        constant("d", 1),
        constant("k", 2),
        IrInstruction::Ret { args: vec![t("k")] },
    ]);
    eliminate_deadcode(&mut f);
    assert_eq!(f.blocks[0].instrs, vec![constant("k", 2), IrInstruction::Ret { args: vec![t("k")] }]);
}

#[test]
fn dead_code_elimination_follows_chains_and_keeps_effects() {
    let mut f = one_block(vec![
        constant("a", 1),
        add("b", "a", "a"),
        add("c", "b", "b"),
        IrInstruction::Call { target_func: t("g"), args: vec![t("a")], dest: Some(t("unused")) },
        IrInstruction::Print { values: vec![t("a")] },
        IrInstruction::Ret { args: vec![] },
    ]);
    assert!(DeadCodeRemovalPass {}.run_on_function(&mut f));
    assert_eq!(
        f.blocks[0].instrs,
        vec![
            constant("a", 1),
            IrInstruction::Call { target_func: t("g"), args: vec![t("a")], dest: Some(t("unused")) },
            IrInstruction::Print { values: vec![t("a")] },
            IrInstruction::Ret { args: vec![] },
        ]
    );
}

#[test]
fn dead_code_elimination_keeps_what_a_later_block_reads() {
    let mut f = counting_loop();
    let before: Vec<Vec<IrInstruction>> = f.blocks.iter().map(|b| b.instrs.clone()).collect();
    eliminate_deadcode(&mut f);
    let after: Vec<Vec<IrInstruction>> = f.blocks.iter().map(|b| b.instrs.clone()).collect();
    assert_eq!(before, after);
}

/// A pass that counts its runs and stops the chain.
struct Stop {
    runs: usize,
}

impl FunctionPass for Stop {
    fn name(&self) -> &str {
        "Stop"
    }

    fn run_on_function(&mut self, _function: &mut IrFunction) -> bool {
        self.runs += 1;
        false
    }
}

#[test]
fn the_pass_manager_runs_its_passes_in_order() {
    let mut pm = PassManager::new();
    pm.add_pass(ConstantPropagationPass {});
    pm.add_pass(ConstantPropagationPass {});
    let mut module = IrModule {
        functions: vec![
            one_block(vec![constant("a", 7), add("r", "a", "b")]),
            one_block(vec![constant("b", 8), add("r", "a", "b")]),
        ],
    };
    pm.run(&mut module);
    assert_eq!(module.functions[0].blocks[0].instrs[1], add("r", "7", "b"));
    assert_eq!(module.functions[1].blocks[0].instrs[1], add("r", "a", "8"));
}

#[test]
fn a_pass_that_returns_false_ends_the_chain_for_that_function() {
    let mut pm = PassManager::new();
    pm.add_pass(Stop { runs: 0 });
    pm.add_pass(Stop { runs: 0 });
    let mut module = IrModule { functions: vec![one_block(vec![]), one_block(vec![])] };
    pm.run(&mut module);
    assert_eq!(pm.passes[0].runs, 2);
    assert_eq!(pm.passes[1].runs, 0);
}

#[test]
fn the_passes_are_known_by_their_names() {
    assert_eq!(ConstantFoldPass {}.name(), "ConstantFoldPass");
    assert_eq!(ConstantPropagationPass {}.name(), "ConstantPropagationPass");
    assert_eq!(DeadCodeRemovalPass {}.name(), "DeadCodeRemovalPass");
}

#[test]
fn one_manager_runs_the_three_scalar_passes() {
    let mut pm = PassManager::new();
    pm.add_pass(ScalarPass::ConstantPropagation(ConstantPropagationPass {}));
    pm.add_pass(ScalarPass::ConstantFold(ConstantFoldPass {}));
    pm.add_pass(ScalarPass::DeadCodeRemoval(DeadCodeRemovalPass {}));
    let mut module = IrModule {
        functions: vec![one_block(vec![
            constant("a", 7),
            constant("b", 35),
            add("r", "a", "b"),
            IrInstruction::Ret { args: vec![t("r")] },
        ])],
    };
    pm.run(&mut module);
    assert_eq!(
        module.functions[0].blocks[0].instrs,
        vec![constant("r", 42), IrInstruction::Ret { args: vec![t("r")] }]
    );
    assert_eq!(pm.passes[1].name(), "ConstantFoldPass");
}
