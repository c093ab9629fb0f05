//! Basic blocks, functions, and the edges between blocks.

use crate::ir::{InstrView, IrInstruction};
use crate::names::{clone_names, names_view, AssocView, StrMap};
use vstd::prelude::*;

verus! {

/// A basic block: a label, instructions, and the blocks before and after it
/// in the flow of control.
#[derive(Debug, PartialEq, Eq)]
pub struct IrBasicBlock {
    pub label: String,
    pub instrs: Vec<IrInstruction>,
    pub preds: Vec<usize>,
    pub succs: Vec<usize>,
}

/// A block as contracts see it.
pub struct BlockView {
    pub label: Seq<char>,
    pub instrs: Seq<InstrView>,
    pub preds: Seq<usize>,
    pub succs: Seq<usize>,
}

/// The instructions of a list as contracts see them.
pub open spec fn instrs_view(v: Seq<IrInstruction>) -> Seq<InstrView> {
    Seq::new(v.len(), |i: int| v[i]@)
}

impl View for IrBasicBlock {
    type V = BlockView;

    open spec fn view(&self) -> BlockView {
        BlockView {
            label: self.label@,
            instrs: instrs_view(self.instrs@),
            preds: self.preds@,
            succs: self.succs@,
        }
    }
}

/// The blocks of a list as contracts see them.
pub open spec fn blocks_view(v: Seq<IrBasicBlock>) -> Seq<BlockView> {
    Seq::new(v.len(), |i: int| v[i]@)
}

/// A function: its blocks in source order, block 0 being the entry, and the
/// table that finds a block by its label.
#[derive(Debug)]
pub struct IrFunction {
    pub name: String,
    pub args: Vec<String>,
    pub blocks: Vec<IrBasicBlock>,
    pub label_to_idx: StrMap<usize>,
}

/// A function as contracts see it.
pub struct FuncView {
    pub name: Seq<char>,
    pub args: Seq<Seq<char>>,
    pub blocks: Seq<BlockView>,
    pub labels: AssocView<usize>,
}

impl View for IrFunction {
    type V = FuncView;

    open spec fn view(&self) -> FuncView {
        FuncView {
            name: self.name@,
            args: names_view(self.args@),
            blocks: blocks_view(self.blocks@),
            labels: self.label_to_idx.assoc(),
        }
    }
}

/// A module: functions in source order.
#[derive(Debug)]
pub struct IrModule {
    pub functions: Vec<IrFunction>,
}

/// The functions of a module as contracts see them.
pub open spec fn functions_view(v: Seq<IrFunction>) -> Seq<FuncView> {
    Seq::new(v.len(), |i: int| v[i]@)
}

/// Every edge ends at a block of the graph.
pub open spec fn edges_in_range(g: Seq<BlockView>) -> bool {
    &&& forall|b: int, k: int|
        0 <= b < g.len() && 0 <= k < g[b].preds.len() ==> #[trigger] g[b].preds[k] < g.len()
    &&& forall|b: int, k: int|
        0 <= b < g.len() && 0 <= k < g[b].succs.len() ==> #[trigger] g[b].succs[k] < g.len()
}

/// `b` is a successor of `a` exactly when `a` is a predecessor of `b`.
pub open spec fn edges_symmetric(g: Seq<BlockView>) -> bool {
    forall|a: usize, b: usize|
        a < g.len() && b < g.len() ==> (#[trigger] g[a as int].succs.contains(b)
            <==> #[trigger] g[b as int].preds.contains(a))
}

/// The graph with the edge `from → to` added at the end of both lists.
pub open spec fn add_edge_spec(g: Seq<BlockView>, from: usize, to: usize) -> Seq<BlockView> {
    Seq::new(
        g.len(),
        |i: int|
            BlockView {
                label: g[i].label,
                instrs: g[i].instrs,
                preds: if i == to {
                    g[i].preds.push(from)
                } else {
                    g[i].preds
                },
                succs: if i == from {
                    g[i].succs.push(to)
                } else {
                    g[i].succs
                },
            },
    )
}

/// A list with one more element holds what it held, and that element.
pub proof fn lemma_push_contains(s: Seq<usize>, x: usize, y: usize)
    ensures
        s.push(x).contains(y) <==> (s.contains(y) || y == x),
{
    if s.contains(y) {
        let k = choose|k: int| 0 <= k < s.len() && s[k] == y;
        assert(s.push(x)[k] == y);
    }
    if y == x {
        assert(s.push(x)[s.len() as int] == y);
    }
    if s.push(x).contains(y) {
        let k = choose|k: int| 0 <= k < s.push(x).len() && s.push(x)[k] == y;
        if k < s.len() {
            assert(s[k] == y);
        }
    }
}

/// Adding an edge keeps the two edge lists in step.
pub proof fn lemma_add_edge_symmetric(g: Seq<BlockView>, from: usize, to: usize)
    requires
        edges_symmetric(g),
        from < g.len(),
        to < g.len(),
    ensures
        edges_symmetric(add_edge_spec(g, from, to)),
{
    let h = add_edge_spec(g, from, to);
    assert forall|a: usize, b: usize| a < h.len() && b < h.len() implies (
    #[trigger] h[a as int].succs.contains(b) <==> #[trigger] h[b as int].preds.contains(a)) by {
        assert(g[a as int].succs.contains(b) <==> g[b as int].preds.contains(a));
        lemma_push_contains(g[a as int].succs, to, b);
        lemma_push_contains(g[b as int].preds, from, a);
    }
}

/// Adding an edge between blocks of the graph keeps every edge inside it.
pub proof fn lemma_add_edge_in_range(g: Seq<BlockView>, from: usize, to: usize)
    requires
        edges_in_range(g),
        from < g.len(),
        to < g.len(),
    ensures
        edges_in_range(add_edge_spec(g, from, to)),
{
    let h = add_edge_spec(g, from, to);
    assert forall|b: int, k: int| 0 <= b < h.len() && 0 <= k < h[b].preds.len() implies
        #[trigger] h[b].preds[k] < h.len() by {
        if k < g[b].preds.len() {
            assert(g[b].preds[k] < g.len());
        }
    }
    assert forall|b: int, k: int| 0 <= b < h.len() && 0 <= k < h[b].succs.len() implies
        #[trigger] h[b].succs[k] < h.len() by {
        if k < g[b].succs.len() {
            assert(g[b].succs[k] < g.len());
        }
    }
}

fn clone_instrs(v: &Vec<IrInstruction>) -> (r: Vec<IrInstruction>)
    ensures
        instrs_view(r@) == instrs_view(v@),
{
    let mut r: Vec<IrInstruction> = Vec::new();
    let mut i: usize = 0;
    while i < v.len()
        invariant
            i <= v.len(),
            r.len() == i,
            forall|j: int| 0 <= j < i ==> r[j]@ == v[j]@,
        decreases v.len() - i,
    {
        r.push(v[i].clone());
        i += 1;
    }
    assert(instrs_view(r@) =~= instrs_view(v@));
    r
}

/// A copy of a list of block indices.
pub fn clone_indices(v: &Vec<usize>) -> (r: Vec<usize>)
    ensures
        r@ == v@,
{
    let mut r: Vec<usize> = Vec::new();
    let mut i: usize = 0;
    while i < v.len()
        invariant
            i <= v.len(),
            r@ == v@.take(i as int),
        decreases v.len() - i,
    {
        r.push(v[i]);
        assert(v@.take(i + 1) =~= v@.take(i as int).push(v[i as int]));
        i += 1;
    }
    assert(v@.take(v.len() as int) =~= v@);
    r
}

impl Clone for IrBasicBlock {
    fn clone(&self) -> (r: Self)
        ensures
            r@ == self@,
    {
        IrBasicBlock {
            label: self.label.clone(),
            instrs: clone_instrs(&self.instrs),
            preds: clone_indices(&self.preds),
            succs: clone_indices(&self.succs),
        }
    }
}

/// A copy of a label table.
pub fn clone_labels(m: &StrMap<usize>) -> (r: StrMap<usize>)
    ensures
        r.key_seq() == m.key_seq(),
        r.vals@ == m.vals@,
        r.assoc() == m.assoc(),
        r.wf() == m.wf(),
{
    let r = StrMap { keys: clone_names(&m.keys), vals: clone_indices(&m.vals) };
    assert(r.key_seq().len() == r.keys.len());
    assert(m.key_seq().len() == m.keys.len());
    r
}

impl Clone for IrFunction {
    fn clone(&self) -> (r: Self)
        ensures
            r@ == self@,
    {
        let mut blocks: Vec<IrBasicBlock> = Vec::new();
        let mut i: usize = 0;
        while i < self.blocks.len()
            invariant
                i <= self.blocks.len(),
                blocks.len() == i,
                forall|j: int| 0 <= j < i ==> blocks[j]@ == self.blocks[j]@,
            decreases self.blocks.len() - i,
        {
            blocks.push(self.blocks[i].clone());
            i += 1;
        }
        assert(blocks_view(blocks@) =~= blocks_view(self.blocks@));
        IrFunction {
            name: self.name.clone(),
            args: clone_names(&self.args),
            blocks,
            label_to_idx: clone_labels(&self.label_to_idx),
        }
    }
}

/// The labels of the blocks, in order.
pub open spec fn labels_of(g: Seq<BlockView>) -> Seq<Seq<char>> {
    Seq::new(g.len(), |i: int| g[i].label)
}

impl IrFunction {
    /// The blocks as contracts see them.
    pub open spec fn graph(&self) -> Seq<BlockView> {
        blocks_view(self.blocks@)
    }

    /// The label table holds the label of every block, in order and each
    /// once, and finds every block at its index; every edge stays inside the
    /// function and is entered on both sides.
    pub open spec fn wf(&self) -> bool {
        &&& self.label_to_idx.wf()
        &&& self.label_to_idx.key_seq() == labels_of(self.graph())
        &&& forall|i: int| 0 <= i < self.label_to_idx.vals.len() ==> self.label_to_idx.vals[i] == i
        &&& edges_in_range(self.graph())
        &&& edges_symmetric(self.graph())
    }

    /// A function without blocks.
    pub fn new(func_name: &str) -> (f: Self)
        ensures
            f.name@ == func_name@,
            f.args.len() == 0,
            f.blocks.len() == 0,
            f.label_to_idx.keys.len() == 0,
            f.wf(),
    {
        let f = IrFunction {
            name: String::from_str(func_name),
            args: Vec::new(),
            blocks: Vec::new(),
            label_to_idx: StrMap::new(),
        };
        assert(f.label_to_idx.key_seq() =~= labels_of(f.graph()));
        f
    }

    /// Appends an empty block and enters its label in the table; the result
    /// is the block's index.
    pub fn add_block(&mut self, label: &str) -> (idx: usize)
        requires
            old(self).label_to_idx.wf(),
        ensures
            idx == old(self).blocks.len(),
            final(self).graph() == old(self).graph().push(
                BlockView {
                    label: label@,
                    instrs: Seq::empty(),
                    preds: Seq::empty(),
                    succs: Seq::empty(),
                },
            ),
            final(self).name == old(self).name,
            final(self).args == old(self).args,
            final(self).label_to_idx.wf(),
            old(self).label_to_idx.contains_key(label@) ==> {
                &&& final(self).label_to_idx.key_seq() == old(self).label_to_idx.key_seq()
                &&& final(self).label_to_idx.vals@ == old(self).label_to_idx.vals@.update(
                    old(self).label_to_idx.position(label@),
                    idx,
                )
            },
            !old(self).label_to_idx.contains_key(label@) ==> {
                &&& final(self).label_to_idx.key_seq() == old(self).label_to_idx.key_seq().push(
                    label@,
                )
                &&& final(self).label_to_idx.vals@ == old(self).label_to_idx.vals@.push(idx)
            },
            old(self).wf() && !old(self).label_to_idx.contains_key(label@) ==> final(self).wf(),
    {
        let idx = self.blocks.len();
        self.blocks.push(
            IrBasicBlock {
                label: String::from_str(label),
                instrs: Vec::new(),
                preds: Vec::new(),
                succs: Vec::new(),
            },
        );
        self.label_to_idx.insert(String::from_str(label), idx);
        assert(self.graph() =~= old(self).graph().push(
            BlockView {
                label: label@,
                instrs: Seq::empty(),
                preds: Seq::empty(),
                succs: Seq::empty(),
            },
        )) by {
            assert(instrs_view(Seq::<IrInstruction>::empty()) =~= Seq::<InstrView>::empty());
        }
        proof {
            if old(self).wf() && !old(self).label_to_idx.contains_key(label@) {
                let g0 = old(self).graph();
                let g1 = self.graph();
                assert(labels_of(g1) =~= labels_of(g0).push(label@));
                assert forall|b: int, k: int| 0 <= b < g1.len() && 0 <= k < g1[b].preds.len() implies
                    #[trigger] g1[b].preds[k] < g1.len() by {
                    if b < g0.len() {
                        assert(g0[b].preds[k] < g0.len());
                    }
                }
                assert forall|b: int, k: int| 0 <= b < g1.len() && 0 <= k < g1[b].succs.len() implies
                    #[trigger] g1[b].succs[k] < g1.len() by {
                    if b < g0.len() {
                        assert(g0[b].succs[k] < g0.len());
                    }
                }
                assert forall|a: usize, b: usize| a < g1.len() && b < g1.len() implies (
                #[trigger] g1[a as int].succs.contains(b) <==> #[trigger] g1[b as int].preds.contains(
                    a,
                )) by {
                    if a < g0.len() && b < g0.len() {
                        assert(g0[a as int].succs.contains(b) <==> g0[b as int].preds.contains(a));
                    } else if a < g0.len() {
                        // No edge of an old block leads to the new one.
                        if g0[a as int].succs.contains(b) {
                            let k = choose|k: int|
                                0 <= k < g0[a as int].succs.len() && g0[a as int].succs[k] == b;
                            assert(g0[a as int].succs[k] < g0.len());
                        }
                    } else if b < g0.len() {
                        if g0[b as int].preds.contains(a) {
                            let k = choose|k: int|
                                0 <= k < g0[b as int].preds.len() && g0[b as int].preds[k] == a;
                            assert(g0[b as int].preds[k] < g0.len());
                        }
                    }
                }
            }
        }
        idx
    }

    /// Records the edge `from → to` in both blocks.
    pub fn add_edge(&mut self, from: usize, to: usize)
        requires
            from < old(self).blocks.len(),
            to < old(self).blocks.len(),
        ensures
            final(self).blocks.len() == old(self).blocks.len(),
            final(self).graph() == add_edge_spec(old(self).graph(), from, to),
            final(self).name == old(self).name,
            final(self).args == old(self).args,
            final(self).label_to_idx == old(self).label_to_idx,
            old(self).wf() ==> final(self).wf(),
    {
        self.blocks[from].succs.push(to);
        self.blocks[to].preds.push(from);
        assert(self.graph() =~= add_edge_spec(old(self).graph(), from, to));
        proof {
            if old(self).wf() {
                lemma_add_edge_symmetric(old(self).graph(), from, to);
                lemma_add_edge_in_range(old(self).graph(), from, to);
                assert(labels_of(self.graph()) =~= labels_of(old(self).graph()));
            }
        }
    }

    /// Appends a copy of `instr` to block `idx`.
    pub fn append_instr(&mut self, idx: usize, instr: &IrInstruction)
        requires
            idx < old(self).blocks.len(),
        ensures
            final(self).blocks.len() == old(self).blocks.len(),
            final(self).graph() == old(self).graph().update(
                idx as int,
                BlockView {
                    label: old(self).graph()[idx as int].label,
                    instrs: old(self).graph()[idx as int].instrs.push(instr@),
                    preds: old(self).graph()[idx as int].preds,
                    succs: old(self).graph()[idx as int].succs,
                },
            ),
            final(self).name == old(self).name,
            final(self).args == old(self).args,
            final(self).label_to_idx == old(self).label_to_idx,
            old(self).wf() ==> final(self).wf(),
    {
        self.blocks[idx].instrs.push(instr.clone());
        assert(instrs_view(self.blocks[idx as int].instrs@) =~= instrs_view(
            old(self).blocks[idx as int].instrs@,
        ).push(instr@));
        assert(self.graph() =~= old(self).graph().update(
            idx as int,
            BlockView {
                label: old(self).graph()[idx as int].label,
                instrs: old(self).graph()[idx as int].instrs.push(instr@),
                preds: old(self).graph()[idx as int].preds,
                succs: old(self).graph()[idx as int].succs,
            },
        ));
        proof {
            if old(self).wf() {
                let g0 = old(self).graph();
                let g1 = self.graph();
                assert(labels_of(g1) =~= labels_of(g0));
                assert forall|b: int, k: int| 0 <= b < g1.len() && 0 <= k < g1[b].preds.len() implies
                    #[trigger] g1[b].preds[k] < g1.len() by {
                    assert(g0[b].preds[k] < g0.len());
                }
                assert forall|b: int, k: int| 0 <= b < g1.len() && 0 <= k < g1[b].succs.len() implies
                    #[trigger] g1[b].succs[k] < g1.len() by {
                    assert(g0[b].succs[k] < g0.len());
                }
                assert forall|a: usize, b: usize| a < g1.len() && b < g1.len() implies (
                #[trigger] g1[a as int].succs.contains(b) <==> #[trigger] g1[b as int].preds.contains(
                    a,
                )) by {
                    assert(g0[a as int].succs.contains(b) <==> g0[b as int].preds.contains(a));
                }
            }
        }
    }

    /// The index entered for `label`, if the table holds it.
    pub fn block_index(&self, label: &String) -> (r: Option<usize>)
        requires
            self.label_to_idx.wf(),
        ensures
            r == if self.label_to_idx.contains_key(label@) {
                Some(self.label_to_idx.value(label@))
            } else {
                None
            },
    {
        match self.label_to_idx.get(label) {
            Some(i) => Some(*i),
            None => None,
        }
    }
}

} // verus!
