//! The scalar passes of the library as one type, so that a single pass
//! manager can run them in any order.

use crate::constant_folding::ConstantFoldPass;
use crate::constant_propagate::ConstantPropagationPass;
use crate::deadcode_removal::DeadCodeRemovalPass;
use crate::function::{FuncView, IrFunction};
use crate::pass_manager::FunctionPass;
use vstd::prelude::*;

verus! {

/// One of the scalar passes.
#[derive(Debug, Clone, Copy)]
pub enum ScalarPass {
    ConstantFold(ConstantFoldPass),
    ConstantPropagation(ConstantPropagationPass),
    DeadCodeRemoval(DeadCodeRemovalPass),
}

impl FunctionPass for ScalarPass {
    open spec fn output(&self, f: FuncView) -> FuncView {
        match self {
            ScalarPass::ConstantFold(p) => p.output(f),
            ScalarPass::ConstantPropagation(p) => p.output(f),
            ScalarPass::DeadCodeRemoval(p) => p.output(f),
        }
    }

    open spec fn goes_on(&self, f: FuncView) -> bool {
        match self {
            ScalarPass::ConstantFold(p) => p.goes_on(f),
            ScalarPass::ConstantPropagation(p) => p.goes_on(f),
            ScalarPass::DeadCodeRemoval(p) => p.goes_on(f),
        }
    }

    fn name(&self) -> (r: &str)
        ensures
            r@ == match self {
                ScalarPass::ConstantFold(_) => "ConstantFoldPass"@,
                ScalarPass::ConstantPropagation(_) => "ConstantPropagationPass"@,
                ScalarPass::DeadCodeRemoval(_) => "DeadCodeRemovalPass"@,
            },
    {
        match self {
            ScalarPass::ConstantFold(p) => p.name(),
            ScalarPass::ConstantPropagation(p) => p.name(),
            ScalarPass::DeadCodeRemoval(p) => p.name(),
        }
    }

    fn run_on_function(&mut self, function: &mut IrFunction) -> (changed: bool) {
        match self {
            ScalarPass::ConstantFold(p) => p.run_on_function(function),
            ScalarPass::ConstantPropagation(p) => p.run_on_function(function),
            ScalarPass::DeadCodeRemoval(p) => p.run_on_function(function),
        }
    }
}

} // verus!
