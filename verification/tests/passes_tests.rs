use riscv_compiler::function::{IrBasicBlock, IrFunction};
use riscv_compiler::ir::IrInstruction;
use riscv_compiler::liveness::compute_liveness;
use riscv_compiler::names::StrMap;
use riscv_compiler::ssa::SSAFormation;

fn diamond_for_passes() -> IrFunction {
    let block_labels = ["entry", "A", "B", "C", "D", "Exit"];

    let preds = vec![
        Vec::new(), // 0: entry
        vec![0],    // 1: A
        vec![1],    // 2: B
        vec![1],    // 3: C
        vec![2, 3], // 4: D
        vec![4],    // 5: exit
    ];

    let mut blocks = Vec::new();
    for (i, &label) in block_labels.iter().enumerate() {
        blocks.push(IrBasicBlock {
            label: label.to_string(),
            instrs: Vec::new(),
            preds: preds[i].clone(),
            succs: Vec::new(),
        });
    }

    let mut label_to_idx = StrMap::new();
    for (i, &label) in block_labels.iter().enumerate() {
        label_to_idx.insert(label.to_string(), i);
    }

    IrFunction {
        name: "diamond".to_string(),
        args: Vec::new(),
        blocks,
        label_to_idx,
    }
}

fn add_two_defs(func: &mut IrFunction) {
    let def_x_b = IrInstruction::Assign {
        lhs: "x".to_string(),
        rhs: "5".to_string(),
    };

    let def_x_c = IrInstruction::Assign {
        lhs: "x".to_string(),
        rhs: "10".to_string(),
    };

    func.blocks[2].instrs.push(def_x_b.clone());
    func.blocks[3].instrs.push(def_x_c.clone());
}

#[test]
fn simple_test_liveness() {
    let mut func = diamond_for_passes();
    add_two_defs(&mut func);
    let mut temp_funcs = vec![func];
    let _ = SSAFormation::new(&mut temp_funcs).unwrap();
    let (live_out, live_in) = compute_liveness(&temp_funcs[0]);
    println!("{:#?}", live_out);
    println!("{:#?}", live_in);

    assert_eq!(4, 4);
}
