//! The pass framework: a list of function-level passes that is run over every
//! function of a module.

use crate::function::{FuncView, IrFunction, IrModule};
use crate::liveness::succs_in_range;
use vstd::prelude::*;

verus! {

/// A transformation of one function.
///
/// What a run of a pass does is a function of the function it is given:
/// `output` is the function afterwards and `goes_on` the flag that the run
/// returns.  Both stay what they are from run to run, whatever else the pass
/// may keep account of.  A pass is handed functions whose successor edges
/// stay inside the function, and hands them back so.
pub trait FunctionPass: Sized {
    /// The function after the pass has run on `f`.  A pass that says nothing
    /// else leaves the function as it is.
    open spec fn output(&self, f: FuncView) -> FuncView {
        f
    }

    /// The flag that a run on `f` returns.  A `false` ends the chain of
    /// passes for that function.
    open spec fn goes_on(&self, f: FuncView) -> bool {
        true
    }

    fn name(&self) -> &str;

    fn run_on_function(&mut self, function: &mut IrFunction) -> (changed: bool)
        requires
            succs_in_range(old(function)@.blocks),
        ensures
            final(function)@ == old(self).output(old(function)@),
            changed == old(self).goes_on(old(function)@),
            forall|f: FuncView|
                #![trigger final(self).output(f)]
                final(self).output(f) == old(self).output(f),
            forall|f: FuncView|
                #![trigger final(self).goes_on(f)]
                final(self).goes_on(f) == old(self).goes_on(f),
            succs_in_range(final(function)@.blocks),
    ;
}

/// The function after the passes from number `from` on have run on `f`, each
/// in its turn, up to and including the first that returns `false`.
pub open spec fn run_chain<P: FunctionPass>(passes: Seq<P>, f: FuncView, from: int) -> FuncView
    decreases passes.len() - from,
{
    if from < 0 || from >= passes.len() {
        f
    } else if passes[from].goes_on(f) {
        run_chain(passes, passes[from].output(f), from + 1)
    } else {
        passes[from].output(f)
    }
}

/// Two lists of passes that do the same, pass by pass.
pub open spec fn same_passes<P: FunctionPass>(a: Seq<P>, b: Seq<P>) -> bool {
    &&& a.len() == b.len()
    &&& forall|k: int, f: FuncView|
        #![trigger a[k].output(f)]
        #![trigger b[k].output(f)]
        0 <= k < a.len() ==> a[k].output(f) == b[k].output(f)
    &&& forall|k: int, f: FuncView|
        #![trigger a[k].goes_on(f)]
        #![trigger b[k].goes_on(f)]
        0 <= k < a.len() ==> a[k].goes_on(f) == b[k].goes_on(f)
}

/// An ordered list of passes.
pub struct PassManager<P: FunctionPass> {
    pub passes: Vec<P>,
}

impl<P: FunctionPass> PassManager<P> {
    /// A manager without passes.
    pub fn new() -> (r: PassManager<P>)
        ensures
            r.passes@ == Seq::<P>::empty(),
    {
        PassManager { passes: Vec::new() }
    }

    /// Runs the passes, in the order in which they were added, on every
    /// function of the module.  For each function the chain ends with the
    /// first pass that returns `false`.
    pub fn run(&mut self, module: &mut IrModule)
        requires
            forall|i: int|
                0 <= i < old(module).functions.len() ==> succs_in_range(
                    (#[trigger] old(module).functions[i])@.blocks,
                ),
        ensures
            same_passes(old(self).passes@, final(self).passes@),
            final(module).functions.len() == old(module).functions.len(),
            forall|i: int|
                0 <= i < old(module).functions.len() ==> (#[trigger] final(module).functions[i])@
                    == run_chain(old(self).passes@, old(module).functions[i]@, 0),
    {
        let n = module.functions.len();
        let ghost passes0 = self.passes@;
        let mut i: usize = 0;
        while i < n
            invariant
                i <= n,
                n == module.functions.len(),
                n == old(module).functions.len(),
                passes0 == old(self).passes@,
                same_passes(passes0, self.passes@),
                forall|j: int|
                    0 <= j < n ==> succs_in_range((#[trigger] old(module).functions[j])@.blocks),
                forall|j: int|
                    i <= j < n ==> (#[trigger] module.functions[j])@ == old(module).functions[j]@,
                forall|j: int|
                    0 <= j < i ==> (#[trigger] module.functions[j])@ == run_chain(
                        passes0,
                        old(module).functions[j]@,
                        0,
                    ),
            decreases n - i,
        {
            let ghost f0 = module.functions[i as int]@;
            let ghost funcs1 = module.functions@;
            let npasses = self.passes.len();
            let mut k: usize = 0;
            let mut going = true;
            assert(f0 == old(module).functions[i as int]@);
            while going && k < npasses
                invariant
                    k <= npasses,
                    i < n,
                    n == module.functions.len(),
                    npasses == self.passes.len(),
                    npasses == passes0.len(),
                    same_passes(passes0, self.passes@),
                    succs_in_range(module.functions[i as int]@.blocks),
                    forall|j: int|
                        0 <= j < n && j != i ==> (#[trigger] module.functions[j])@ == funcs1[j]@,
                    going ==> run_chain(passes0, module.functions[i as int]@, k as int) == run_chain(
                        passes0,
                        f0,
                        0,
                    ),
                    !going ==> module.functions[i as int]@ == run_chain(passes0, f0, 0),
                decreases npasses - k,
            {
                let ghost before = self.passes@;
                let ghost fk = module.functions[i as int]@;
                assert(before[k as int].output(fk) == passes0[k as int].output(fk)
                    && before[k as int].goes_on(fk) == passes0[k as int].goes_on(fk));
                let changed = self.passes[k].run_on_function(&mut module.functions[i]);
                proof {
                    assert(self.passes@ =~= before.update(k as int, self.passes[k as int]));
                }
                if !changed {
                    going = false;
                }
                k += 1;
            }
            i += 1;
        }
    }

    /// Appends a pass.
    pub fn add_pass(&mut self, pass: P)
        ensures
            final(self).passes@ == old(self).passes@.push(pass),
    {
        self.passes.push(pass);
    }
}

} // verus!
