use riscv_compiler::def_sites::collect_defs;
use riscv_compiler::function::{IrBasicBlock, IrFunction};
use riscv_compiler::ir::IrInstruction;
use riscv_compiler::names::StrMap;
use riscv_compiler::ssa::SSAFormation;

/// The six-block diamond:
///
/// ```text
///      0
///      |
///      1
///     / \
///    2   3
///     \ /
///      4
///      |
///      5
/// ```
fn diamond_cfg() -> IrFunction {
    let block_labels = ["entry", "A", "B", "C", "D", "Exit"];

    let preds = vec![
        Vec::new(), // 0: entry
        vec![0],    // 1: A
        vec![1],    // 2: B
        vec![1],    // 3: C
        vec![2, 3], // 4: D
        vec![4],    // 5: exit
    ];

    let mut blocks = Vec::new();
    for (i, &label) in block_labels.iter().enumerate() {
        blocks.push(IrBasicBlock {
            label: label.to_string(),
            instrs: Vec::new(),
            preds: preds[i].clone(),
            succs: Vec::new(),
        });
    }

    let mut label_to_idx = StrMap::new();
    for (i, &label) in block_labels.iter().enumerate() {
        label_to_idx.insert(label.to_string(), i);
    }

    IrFunction {
        name: "diamond".to_string(),
        args: Vec::new(),
        blocks,
        label_to_idx,
    }
}

/// Blocks B and C both define `x`.
fn create_def_sites(func: &mut IrFunction) {
    let def_x_b = IrInstruction::Assign {
        lhs: "x".to_string(),
        rhs: "5".to_string(),
    };

    let def_x_c = IrInstruction::Assign {
        lhs: "x".to_string(),
        rhs: "10".to_string(),
    };

    func.blocks[2].instrs.push(def_x_b.clone());
    func.blocks[3].instrs.push(def_x_c.clone());
}

#[test]
fn test_idom_df_and_domtree_on_diamond() {
    let func = diamond_cfg();

    let mut temp_funcs = vec![func];
    let mut ssa = SSAFormation::new(&mut temp_funcs).unwrap();

    ssa.compute_idom(&temp_funcs[0]).unwrap();
    println!("Test Function: {}", "test_idom_df_and_domtree_on_diamond");
    println!("  Idom: {:?}", &ssa.idom);
    assert_eq!(ssa.idom[&0], 0);
    assert_eq!(ssa.idom[&1], 0);
    assert_eq!(ssa.idom[&2], 1);
    assert_eq!(ssa.idom[&3], 1);
    assert_eq!(ssa.idom[&4], 1);
    assert_eq!(ssa.idom[&5], 4);

    ssa.compute_df(&temp_funcs[0]).unwrap();
    let df = &ssa.dom_frontier;
    println!("  DomFrontier: {:?}", &df);
    assert_eq!(df.get(&2).unwrap().clone(), vec![4]);
    assert_eq!(df.get(&3).unwrap().clone(), vec![4]);

    ssa.build_dom_tree().unwrap();

    let dt = &ssa.dom_tree;
    println!("  DomTree: {:?}", dt);
    assert_eq!(dt.get(&4).unwrap().clone(), vec![5]);
    let mut kids = dt.get(&1).unwrap().clone();
    kids.sort();

    assert_eq!(kids, vec![2, 3, 4]);
}

#[test]
fn test_collect_defs_of_two_different_defs() {
    let mut func = diamond_cfg();
    create_def_sites(&mut func);
    let defs_map = collect_defs(&func);

    println!("Test Function: {}", "test_collect_defs_of_two_different_defs");
    let x_defintion_sites = defs_map.get(&"x".to_string()).unwrap();
    println!("  DefintionMap: {:?}", defs_map);
    assert_eq!(x_defintion_sites.len(), 2);
    assert!(x_defintion_sites.contains(&2));
    assert!(x_defintion_sites.contains(&3));
    assert_eq!(defs_map.len(), 1);
}

#[test]
fn test_simple_phi_testing() {
    let mut func = diamond_cfg();
    create_def_sites(&mut func);
    let defs_map = collect_defs(&func);
    let mut temp_funcs = vec![func];
    let _ssa = SSAFormation::new(&mut temp_funcs).unwrap();

    println!("Test Function: {}", "test_simple_phi_testing");
    println!("  DefintionMap: {:?}", defs_map);

    for block in &temp_funcs[0].blocks {
        for instr in block.instrs.clone() {
            println!("    {:?}", instr);
        }
    }
}
