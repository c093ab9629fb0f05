//! Live intervals: for every register of a machine function, the span of
//! instruction positions over which it is in use.

use crate::machine_ir::{MachineBlockView, MachineFunc, MachineInstrView, VReg};
use vstd::prelude::*;

verus! {

/// The span of positions over which a register is in use, and what the
/// allocator decided for it.
#[derive(Debug, Clone, Copy, PartialEq, Eq, Structural)]
pub struct Interval {
    pub start: usize,
    pub end: usize,
    pub phy_reg: Option<VReg>,
    pub mark_spilled: bool,
}

/// A finite map keyed by register as contracts see it: `keys[i]` maps to
/// `vals[i]`.
pub struct RegAssoc<V> {
    pub keys: Seq<VReg>,
    pub vals: Seq<V>,
}

impl<V> RegAssoc<V> {
    /// The lists are equally long and no register is held twice.
    pub open spec fn wf(self) -> bool {
        self.keys.len() == self.vals.len() && self.keys.no_duplicates()
    }

    /// `k` is a key.
    pub open spec fn contains(self, k: VReg) -> bool {
        self.keys.contains(k)
    }

    /// Where `k` is held.
    pub open spec fn position(self, k: VReg) -> int {
        choose|i: int| 0 <= i < self.keys.len() && self.keys[i] == k
    }

    /// What `k` maps to.
    pub open spec fn get(self, k: VReg) -> V {
        self.vals[self.position(k)]
    }

    /// The map with `k` bound to `v`: in place where `k` is a key already,
    /// at the end otherwise.
    pub open spec fn put(self, k: VReg, v: V) -> Self {
        if self.contains(k) {
            RegAssoc { keys: self.keys, vals: self.vals.update(self.position(k), v) }
        } else {
            RegAssoc { keys: self.keys.push(k), vals: self.vals.push(v) }
        }
    }
}

/// A finite map keyed by register, held as two parallel lists in the order
/// in which the keys were entered.
#[derive(Debug)]
pub struct RegMap<V> {
    pub keys: Vec<VReg>,
    pub vals: Vec<V>,
}

impl<V> View for RegMap<V> {
    type V = RegAssoc<V>;

    open spec fn view(&self) -> RegAssoc<V> {
        RegAssoc { keys: self.keys@, vals: self.vals@ }
    }
}

impl<V> RegMap<V> {
    /// The empty map.
    pub fn new() -> (r: Self)
        ensures
            r@.wf(),
            r@.keys == Seq::<VReg>::empty(),
            r@.vals == Seq::<V>::empty(),
    {
        RegMap { keys: Vec::new(), vals: Vec::new() }
    }

    /// The number of keys.
    pub fn len(&self) -> (n: usize)
        ensures
            n == self.keys.len(),
    {
        self.keys.len()
    }

    /// The position of `k`, if it is a key.
    pub fn find(&self, k: VReg) -> (r: Option<usize>)
        ensures
            r is Some == self@.contains(k),
            match r {
                Some(i) => i < self.keys.len() && self.keys[i as int] == k && (self@.wf() ==> i
                    == self@.position(k)),
                None => true,
            },
    {
        let mut i: usize = 0;
        while i < self.keys.len()
            invariant
                i <= self.keys.len(),
                forall|j: int| 0 <= j < i ==> self.keys[j] != k,
            decreases self.keys.len() - i,
        {
            if self.keys[i] == k {
                proof {
                    if self@.wf() {
                        let p = self@.position(k);
                        assert(self.keys@[p] == k);
                    }
                }
                return Some(i);
            }
            i += 1;
        }
        None
    }

    /// What `k` maps to, if it is a key.
    pub fn get(&self, k: VReg) -> (r: Option<&V>)
        requires
            self@.wf(),
        ensures
            r is Some == self@.contains(k),
            r is Some ==> *r->0 == self@.get(k),
    {
        match self.find(k) {
            Some(i) => Some(&self.vals[i]),
            None => None,
        }
    }
}

/// What one mention of a register at position `pos` does to the table: a
/// register that is new gets the interval that starts and ends there; a
/// definition moves the start down to `pos` where it is later; a use moves
/// the end up to `pos` where it is earlier.
pub open spec fn mention(table: RegAssoc<Interval>, reg: VReg, pos: usize, is_def: bool) -> RegAssoc<
    Interval,
> {
    let before = if table.contains(reg) {
        table.get(reg)
    } else {
        Interval { start: pos, end: pos, phy_reg: None, mark_spilled: false }
    };
    let after = if is_def {
        Interval {
            start: if pos < before.start {
                pos
            } else {
                before.start
            },
            end: before.end,
            phy_reg: before.phy_reg,
            mark_spilled: before.mark_spilled,
        }
    } else {
        Interval {
            start: before.start,
            end: if pos > before.end {
                pos
            } else {
                before.end
            },
            phy_reg: before.phy_reg,
            mark_spilled: before.mark_spilled,
        }
    };
    table.put(reg, after)
}

/// The table after the registers have been mentioned in order at `pos`.
pub open spec fn mention_all(table: RegAssoc<Interval>, regs: Seq<VReg>, pos: usize, is_def: bool) -> RegAssoc<
    Interval,
>
    decreases regs.len(),
{
    if regs.len() == 0 {
        table
    } else {
        mention(mention_all(table, regs.drop_last(), pos, is_def), regs.last(), pos, is_def)
    }
}

/// The table after an instruction at `pos`: first what it writes, then what
/// it reads.
pub open spec fn after_instr(table: RegAssoc<Interval>, instr: MachineInstrView, pos: usize) -> RegAssoc<
    Interval,
> {
    mention_all(mention_all(table, instr.defs(), pos, true), instr.uses(), pos, false)
}

/// The table after the first `upto` instructions of a block whose first
/// instruction has position `base`.
pub open spec fn after_instrs(
    table: RegAssoc<Interval>,
    instrs: Seq<MachineInstrView>,
    base: int,
    upto: int,
) -> RegAssoc<Interval>
    decreases upto,
{
    if upto <= 0 {
        table
    } else {
        after_instr(
            after_instrs(table, instrs, base, upto - 1),
            instrs[upto - 1],
            (base + upto - 1) as usize,
        )
    }
}

/// The number of instructions in the first `upto` blocks.
pub open spec fn instr_count(blocks: Seq<MachineBlockView>, upto: int) -> int
    decreases upto,
{
    if upto <= 0 {
        0
    } else {
        instr_count(blocks, upto - 1) + blocks[upto - 1].instrs.len()
    }
}

/// The table after the first `upto` blocks.  Positions count instructions
/// through the function, block after block.
pub open spec fn after_blocks(blocks: Seq<MachineBlockView>, upto: int) -> RegAssoc<Interval>
    decreases upto,
{
    if upto <= 0 {
        RegAssoc { keys: Seq::empty(), vals: Seq::empty() }
    } else {
        after_instrs(
            after_blocks(blocks, upto - 1),
            blocks[upto - 1].instrs,
            instr_count(blocks, upto - 1),
            blocks[upto - 1].instrs.len() as int,
        )
    }
}

/// The live intervals of a machine function.
pub open spec fn intervals_of(blocks: Seq<MachineBlockView>) -> RegAssoc<Interval> {
    after_blocks(blocks, blocks.len() as int)
}

proof fn lemma_instr_count_mono(blocks: Seq<MachineBlockView>, i: int, j: int)
    requires
        0 <= i <= j,
    ensures
        instr_count(blocks, i) <= instr_count(blocks, j),
    decreases j - i,
{
    if i < j {
        lemma_instr_count_mono(blocks, i, j - 1);
    }
}

proof fn lemma_put_wf(table: RegAssoc<Interval>, k: VReg, v: Interval)
    requires
        table.wf(),
    ensures
        table.put(k, v).wf(),
{
    if !table.contains(k) {
        let r = table.put(k, v);
        assert forall|i: int, j: int| 0 <= i < j < r.keys.len() implies r.keys[i] != r.keys[j] by {
            if j == table.keys.len() {
                assert(table.keys[i] != k);
            }
        }
    }
}

/// Enters one mention in the table.
fn record(table: &mut RegMap<Interval>, reg: VReg, pos: usize, is_def: bool)
    requires
        old(table)@.wf(),
    ensures
        final(table)@.wf(),
        final(table)@ == mention(old(table)@, reg, pos, is_def),
{
    proof {
        let before = if table@.contains(reg) {
            table@.get(reg)
        } else {
            Interval { start: pos, end: pos, phy_reg: None, mark_spilled: false }
        };
        lemma_put_wf(table@, reg, before);
    }
    match table.find(reg) {
        Some(i) => {
            let before = table.vals[i];
            let after = if is_def {
                Interval {
                    start: if pos < before.start {
                        pos
                    } else {
                        before.start
                    },
                    end: before.end,
                    phy_reg: before.phy_reg,
                    mark_spilled: before.mark_spilled,
                }
            } else {
                Interval {
                    start: before.start,
                    end: if pos > before.end {
                        pos
                    } else {
                        before.end
                    },
                    phy_reg: before.phy_reg,
                    mark_spilled: before.mark_spilled,
                }
            };
            proof {
                lemma_put_wf(table@, reg, after);
            }
            table.vals.set(i, after);
        },
        None => {
            let fresh = Interval { start: pos, end: pos, phy_reg: None, mark_spilled: false };
            proof {
                lemma_put_wf(table@, reg, fresh);
            }
            table.keys.push(reg);
            table.vals.push(fresh);
        },
    }
}

fn record_all(table: &mut RegMap<Interval>, regs: &Vec<VReg>, pos: usize, is_def: bool)
    requires
        old(table)@.wf(),
    ensures
        final(table)@.wf(),
        final(table)@ == mention_all(old(table)@, regs@, pos, is_def),
{
    let mut k: usize = 0;
    assert(regs@.take(0) =~= Seq::<VReg>::empty());
    while k < regs.len()
        invariant
            k <= regs.len(),
            table@.wf(),
            table@ == mention_all(old(table)@, regs@.take(k as int), pos, is_def),
        decreases regs.len() - k,
    {
        assert(regs@.take(k + 1).drop_last() =~= regs@.take(k as int));
        record(table, regs[k], pos, is_def);
        k += 1;
    }
    assert(regs@.take(regs.len() as int) =~= regs@);
}

/// Builds the live intervals of a machine function.
///
/// Instructions are numbered through the function in block order.  An
/// interval starts no later than any definition of its register and ends no
/// earlier than any use of it.
pub fn live_intervals(mf: &MachineFunc) -> (table: RegMap<Interval>)
    requires
        instr_count(mf@.blocks, mf@.blocks.len() as int) <= usize::MAX,
    ensures
        table@.wf(),
        table@ == intervals_of(mf@.blocks),
{
    let mut table: RegMap<Interval> = RegMap::new();
    let ghost blocks = mf@.blocks;
    let mut pos: usize = 0;
    let mut b: usize = 0;
    while b < mf.blocks.len()
        invariant
            b <= mf.blocks.len(),
            blocks == mf@.blocks,
            instr_count(blocks, blocks.len() as int) <= usize::MAX,
            pos == instr_count(blocks, b as int),
            table@.wf(),
            table@ == after_blocks(blocks, b as int),
        decreases mf.blocks.len() - b,
    {
        let block = &mf.blocks[b];
        let ghost instrs = blocks[b as int].instrs;
        assert(blocks[b as int] == block@);
        let ghost base = pos;
        let ghost start_table = table@;
        proof {
            lemma_instr_count_mono(blocks, b + 1, blocks.len() as int);
        }
        let mut i: usize = 0;
        while i < block.instrs.len()
            invariant
                i <= block.instrs.len(),
                instrs == block@.instrs,
                base + block.instrs.len() <= usize::MAX,
                pos == base + i,
                table@.wf(),
                table@ == after_instrs(start_table, instrs, base as int, i as int),
            decreases block.instrs.len() - i,
        {
            let instr = &block.instrs[i];
            assert(instrs[i as int] == instr@);
            let defs = instr.defs();
            let uses = instr.uses();
            record_all(&mut table, &defs, pos, true);
            record_all(&mut table, &uses, pos, false);
            pos += 1;
            i += 1;
        }
        b += 1;
    }
    table
}

} // verus!
