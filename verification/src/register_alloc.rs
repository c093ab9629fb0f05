//! Register allocation by linear scan: intervals are visited in the order in
//! which they start; each gets a free register where there is one, and where
//! there is none the interval that ends last goes to the stack.

use crate::intervals::{instr_count, intervals_of, live_intervals, Interval, RegAssoc, RegMap};
use crate::machine_ir::{MachineFunc, VReg};
use crate::names::{AssocView, StrMap};
use vstd::prelude::*;

verus! {

/// A live interval together with its register.
#[derive(Debug, Clone, Copy, PartialEq, Eq, Structural)]
pub struct LiveIntervals {
    pub vreg: VReg,
    pub start: usize,
    pub end: usize,
    pub phy_reg: Option<VReg>,
    pub mark_spilled: bool,
}

/// The registers that may be handed out, in the order in which the free
/// list holds them at the start.  The last one is handed out first.
pub open spec fn register_pool() -> Seq<VReg> {
    seq![
        VReg::T0,
        VReg::T1,
        VReg::T2,
        VReg::T3,
        VReg::T4,
        VReg::T5,
        VReg::T6,
        VReg::A0,
        VReg::A1,
        VReg::A2,
        VReg::A3,
        VReg::A4,
        VReg::A5,
        VReg::A6,
        VReg::A7,
        VReg::S1,
        VReg::S2,
        VReg::S3,
        VReg::S4,
        VReg::S5,
        VReg::S6,
        VReg::S7,
        VReg::S8,
        VReg::S9,
        VReg::S10,
        VReg::S11,
    ]
}

/// The intervals of a table as the scan takes them up: none has a register
/// yet.
pub open spec fn unassigned(table: RegAssoc<Interval>) -> Seq<LiveIntervals> {
    Seq::new(
        table.keys.len(),
        |i: int|
            LiveIntervals {
                vreg: table.keys[i],
                start: table.vals[i].start,
                end: table.vals[i].end,
                phy_reg: None,
                mark_spilled: false,
            },
    )
}

/// `sorted` with `x` put behind every interval that starts no later.
pub open spec fn insert_by_start(sorted: Seq<LiveIntervals>, x: LiveIntervals) -> Seq<LiveIntervals>
    decreases sorted.len(),
{
    if sorted.len() == 0 {
        seq![x]
    } else if sorted.last().start <= x.start {
        sorted.push(x)
    } else {
        insert_by_start(sorted.drop_last(), x).push(sorted.last())
    }
}

/// The intervals in the order of their starts; intervals that start together
/// keep their order.
pub open spec fn sort_by_start(s: Seq<LiveIntervals>) -> Seq<LiveIntervals>
    decreases s.len(),
{
    if s.len() == 0 {
        Seq::empty()
    } else {
        insert_by_start(sort_by_start(s.drop_last()), s.last())
    }
}

/// The intervals stand in the order of their starts.
pub open spec fn starts_ordered(s: Seq<LiveIntervals>) -> bool {
    forall|i: int, j: int| 0 <= i <= j < s.len() ==> s[i].start <= s[j].start
}

/// The state of the scan: every interval with what has been decided so far,
/// the intervals that hold a register at the moment, by position and in the
/// order of their ends, and the registers that are free.
pub struct ScanState {
    pub out: Seq<LiveIntervals>,
    pub active: Seq<usize>,
    pub free: Seq<VReg>,
}

/// The active intervals that do not end before `start`.
pub open spec fn kept(out: Seq<LiveIntervals>, active: Seq<usize>, start: usize) -> Seq<usize>
    decreases active.len(),
{
    if active.len() == 0 {
        Seq::empty()
    } else {
        let rest = kept(out, active.drop_last(), start);
        if out[active.last() as int].end < start {
            rest
        } else {
            rest.push(active.last())
        }
    }
}

/// The free list after the registers of the active intervals that end before
/// `start` have come back, in the order of those intervals.
pub open spec fn released(
    out: Seq<LiveIntervals>,
    active: Seq<usize>,
    free: Seq<VReg>,
    start: usize,
) -> Seq<VReg>
    decreases active.len(),
{
    if active.len() == 0 {
        free
    } else {
        let rest = released(out, active.drop_last(), free, start);
        if out[active.last() as int].end < start {
            match out[active.last() as int].phy_reg {
                Some(r) => rest.push(r),
                None => rest,
            }
        } else {
            rest
        }
    }
}

/// The active list with interval `i` put behind every interval that ends no
/// later.
pub open spec fn insert_by_end(out: Seq<LiveIntervals>, active: Seq<usize>, i: usize) -> Seq<usize>
    decreases active.len(),
{
    if active.len() == 0 {
        seq![i]
    } else if out[active.last() as int].end <= out[i as int].end {
        active.push(i)
    } else {
        insert_by_end(out, active.drop_last(), i).push(active.last())
    }
}

/// The interval with the given decision.
pub open spec fn with_reg(iv: LiveIntervals, reg: Option<VReg>, spilled: bool) -> LiveIntervals {
    LiveIntervals { vreg: iv.vreg, start: iv.start, end: iv.end, phy_reg: reg, mark_spilled: spilled }
}

/// The state after interval `i` has been visited.
///
/// First the intervals that ended before this one starts give their
/// registers back.  Then this interval takes the last free register, if
/// there is one.  If there is none, the active interval that ends last is
/// looked at: where it ends after this one, it goes to the stack and this one
/// takes its register; otherwise this one goes to the stack.
pub open spec fn scan_step(st: ScanState, i: usize) -> ScanState {
    let cur = st.out[i as int];
    let active = kept(st.out, st.active, cur.start);
    let free = released(st.out, st.active, st.free, cur.start);
    if free.len() > 0 {
        let out = st.out.update(i as int, with_reg(cur, Some(free.last()), false));
        ScanState { out, active: insert_by_end(out, active, i), free: free.drop_last() }
    } else if active.len() > 0 {
        let w = active.last();
        let worst = st.out[w as int];
        if worst.end > cur.end {
            let out = st.out.update(i as int, with_reg(cur, worst.phy_reg, false)).update(
                w as int,
                with_reg(worst, None, true),
            );
            ScanState { out, active: insert_by_end(out, active.drop_last(), i), free }
        } else {
            ScanState { out: st.out.update(i as int, with_reg(cur, None, true)), active, free }
        }
    } else {
        ScanState { out: st.out.update(i as int, with_reg(cur, None, true)), active, free }
    }
}

/// The state after the first `upto` intervals have been visited.
pub open spec fn scan(sorted: Seq<LiveIntervals>, upto: int) -> ScanState
    decreases upto,
{
    if upto <= 0 {
        ScanState { out: sorted, active: Seq::empty(), free: register_pool() }
    } else {
        scan_step(scan(sorted, upto - 1), (upto - 1) as usize)
    }
}

/// What the scan decides for the intervals of a table.
pub open spec fn allocation(table: RegAssoc<Interval>) -> Seq<LiveIntervals> {
    let sorted = sort_by_start(unassigned(table));
    scan(sorted, sorted.len() as int).out
}

/// Two intervals that have no position in common.
pub open spec fn apart(a: LiveIntervals, b: LiveIntervals) -> bool {
    a.end < b.start || b.end < a.start
}

/// No two intervals that share a register have a position in common.
pub open spec fn registers_apart(out: Seq<LiveIntervals>) -> bool {
    forall|j: int, k: int|
        0 <= j < out.len() && 0 <= k < out.len() && j != k && (#[trigger] out[j]).phy_reg is Some
            && out[j].phy_reg == (#[trigger] out[k]).phy_reg ==> apart(out[j], out[k])
}

proof fn lemma_push_holds<T>(s: Seq<T>, x: T, y: T)
    ensures
        s.push(x).contains(y) <==> (s.contains(y) || y == x),
{
    if s.contains(y) {
        let k = choose|k: int| 0 <= k < s.len() && s[k] == y;
        assert(s.push(x)[k] == y);
    }
    if y == x {
        assert(s.push(x)[s.len() as int] == y);
    }
    if s.push(x).contains(y) {
        let k = choose|k: int| 0 <= k < s.push(x).len() && s.push(x)[k] == y;
        if k < s.len() {
            assert(s[k] == y);
        }
    }
}

proof fn lemma_push_distinct<T>(s: Seq<T>, x: T)
    requires
        s.no_duplicates(),
        !s.contains(x),
    ensures
        s.push(x).no_duplicates(),
{
    assert forall|i: int, j: int| 0 <= i < j < s.push(x).len() implies s.push(x)[i] != s.push(x)[j] by {
        if j == s.len() {
            assert(s[i] != x);
        }
    }
}

proof fn lemma_drop_last_holds<T>(s: Seq<T>, y: T)
    requires
        s.len() > 0,
        s.no_duplicates(),
    ensures
        s.drop_last().no_duplicates(),
        s.drop_last().contains(y) <==> (s.contains(y) && y != s.last()),
{
    let d = s.drop_last();
    if d.contains(y) {
        let k = choose|k: int| 0 <= k < d.len() && d[k] == y;
        assert(s[k] == y);
        assert(s[k] != s[s.len() - 1]);
    }
    if s.contains(y) && y != s.last() {
        let k = choose|k: int| 0 <= k < s.len() && s[k] == y;
        assert(d[k] == y);
    }
}

/// What holds of the active list and the free list between two steps of the
/// scan, with the intervals below `i` visited.
pub open spec fn lists_sound(out: Seq<LiveIntervals>, active: Seq<usize>, free: Seq<VReg>, i: int) -> bool {
    &&& active.no_duplicates()
    &&& free.no_duplicates()
    &&& forall|x: usize| active.contains(x) ==> x < i && x < out.len() && (#[trigger] out[x as int]).phy_reg is Some
    &&& forall|x: usize, y: usize|
        active.contains(x) && active.contains(y) && x != y ==> (#[trigger] out[x as int]).phy_reg != (
        #[trigger] out[y as int]).phy_reg
    &&& forall|x: usize, r: VReg|
        active.contains(x) && #[trigger] free.contains(r) ==> (#[trigger] out[x as int]).phy_reg != Some(r)
}

/// Interval `j` ends before any interval from number `i` on starts.
pub open spec fn gone(out: Seq<LiveIntervals>, j: int, i: int) -> bool {
    forall|k: int| i <= k < out.len() ==> out[j].end < (#[trigger] out[k]).start
}

/// What holds between two steps of the scan, with the intervals below `i`
/// visited: intervals that hold a register and are not active have ended, and
/// no two visited intervals that share a register have a position in common.
pub open spec fn scan_inv(st: ScanState, i: int) -> bool {
    &&& 0 <= i <= st.out.len()
    &&& starts_ordered(st.out)
    &&& forall|j: int| i <= j < st.out.len() ==> (#[trigger] st.out[j]).phy_reg is None
    &&& lists_sound(st.out, st.active, st.free, i)
    &&& forall|j: int|
        0 <= j < i && (#[trigger] st.out[j]).phy_reg is Some && !st.active.contains(j as usize)
            ==> gone(st.out, j, i)
    &&& forall|j: int, k: int|
        0 <= j < i && 0 <= k < i && j != k && (#[trigger] st.out[j]).phy_reg is Some
            && st.out[j].phy_reg == (#[trigger] st.out[k]).phy_reg ==> apart(st.out[j], st.out[k])
}

proof fn lemma_kept(out: Seq<LiveIntervals>, active: Seq<usize>, free: Seq<VReg>, start: usize, i: int)
    requires
        lists_sound(out, active, free, i),
    ensures
        forall|x: usize|
            kept(out, active, start).contains(x) <==> (active.contains(x) && !(out[x as int].end
                < start)),
        forall|r: VReg|
            released(out, active, free, start).contains(r) <==> (free.contains(r) || exists|
                x: usize,
            |
                active.contains(x) && out[x as int].end < start && (#[trigger] out[x as int]).phy_reg
                    == Some(r)),
        lists_sound(out, kept(out, active, start), released(out, active, free, start), i),
    decreases active.len(),
{
    let k = kept(out, active, start);
    let rel = released(out, active, free, start);
    if active.len() == 0 {
        assert forall|r: VReg| rel.contains(r) <==> (free.contains(r) || exists|x: usize|
            active.contains(x) && out[x as int].end < start && (#[trigger] out[x as int]).phy_reg
                == Some(r)) by {}
    } else {
        let a0 = active.drop_last();
        let last = active.last();
        let k0 = kept(out, a0, start);
        let r0 = released(out, a0, free, start);
        assert(active.contains(last)) by {
            assert(active[active.len() - 1] == last);
        }
        assert forall|x: usize| a0.contains(x) <==> (active.contains(x) && x != last) by {
            lemma_drop_last_holds(active, x);
        }
        lemma_drop_last_holds(active, last);
        assert(lists_sound(out, a0, free, i));
        lemma_kept(out, a0, free, start, i);
        let expired = out[last as int].end < start;
        assert forall|x: usize| k.contains(x) <==> (active.contains(x) && !(out[x as int].end
            < start)) by {
            if !expired {
                lemma_push_holds(k0, last, x);
            }
        }
        assert(out[last as int].phy_reg is Some);
        let reg = out[last as int].phy_reg->0;
        assert(out[last as int].phy_reg == Some(reg));
        assert(expired ==> rel == r0.push(reg));
        assert(!expired ==> rel == r0);
        assert forall|r: VReg| rel.contains(r) <==> (free.contains(r) || exists|x: usize|
            active.contains(x) && out[x as int].end < start && (#[trigger] out[x as int]).phy_reg
                == Some(r)) by {
            lemma_push_holds(r0, reg, r);
            let rhs0 = free.contains(r) || exists|x: usize|
                a0.contains(x) && out[x as int].end < start && (#[trigger] out[x as int]).phy_reg
                    == Some(r);
            assert(r0.contains(r) <==> rhs0);
            if rel.contains(r) && !free.contains(r) {
                if r0.contains(r) {
                    let x = choose|x: usize|
                        a0.contains(x) && out[x as int].end < start && (
                        #[trigger] out[x as int]).phy_reg == Some(r);
                    assert(active.contains(x) && out[x as int].end < start && out[x as int].phy_reg
                        == Some(r));
                } else {
                    assert(expired && r == reg);
                    assert(active.contains(last) && out[last as int].end < start
                        && out[last as int].phy_reg == Some(r));
                }
            }
            if exists|x: usize|
                active.contains(x) && out[x as int].end < start && (#[trigger] out[x as int]).phy_reg
                    == Some(r) {
                let x = choose|x: usize|
                    active.contains(x) && out[x as int].end < start && (
                    #[trigger] out[x as int]).phy_reg == Some(r);
                if x != last {
                    assert(a0.contains(x) && out[x as int].end < start && out[x as int].phy_reg
                        == Some(r));
                    assert(r0.contains(r));
                } else {
                    assert(r == reg);
                }
            }
        }
        // The two lists stay sound.
        if expired {
            assert(!r0.contains(reg)) by {
                if r0.contains(reg) {
                    if free.contains(reg) {
                        assert(out[last as int].phy_reg != Some(reg));
                    } else {
                        let x = choose|x: usize|
                            a0.contains(x) && out[x as int].end < start && (
                            #[trigger] out[x as int]).phy_reg == Some(reg);
                        assert(out[x as int].phy_reg != out[last as int].phy_reg);
                    }
                }
            }
            lemma_push_distinct(r0, reg);
        } else {
            assert(!k0.contains(last));
            lemma_push_distinct(k0, last);
        }
        assert forall|x: usize, r: VReg| k.contains(x) && #[trigger] rel.contains(r) implies (
        #[trigger] out[x as int]).phy_reg != Some(r) by {
            if free.contains(r) {
            } else {
                let y = choose|y: usize|
                    active.contains(y) && out[y as int].end < start && (
                    #[trigger] out[y as int]).phy_reg == Some(r);
                assert(x != y);
                assert(out[x as int].phy_reg != out[y as int].phy_reg);
            }
        }
    }
}

proof fn lemma_insert_by_end(out: Seq<LiveIntervals>, active: Seq<usize>, i: usize)
    requires
        active.no_duplicates(),
        !active.contains(i),
    ensures
        insert_by_end(out, active, i).no_duplicates(),
        forall|x: usize| insert_by_end(out, active, i).contains(x) <==> (active.contains(x) || x == i),
    decreases active.len(),
{
    let r = insert_by_end(out, active, i);
    if active.len() == 0 {
        assert forall|x: usize| r.contains(x) <==> (active.contains(x) || x == i) by {
            lemma_push_holds(Seq::<usize>::empty(), i, x);
            assert(seq![i] =~= Seq::<usize>::empty().push(i));
        }
        assert(seq![i] =~= Seq::<usize>::empty().push(i));
        lemma_push_distinct(Seq::<usize>::empty(), i);
    } else if out[active.last() as int].end <= out[i as int].end {
        lemma_push_distinct(active, i);
        assert forall|x: usize| r.contains(x) <==> (active.contains(x) || x == i) by {
            lemma_push_holds(active, i, x);
        }
    } else {
        let a0 = active.drop_last();
        let last = active.last();
        lemma_drop_last_holds(active, i);
        lemma_drop_last_holds(active, last);
        lemma_insert_by_end(out, a0, i);
        let r0 = insert_by_end(out, a0, i);
        assert(active[active.len() - 1] == last);
        assert(!r0.contains(last));
        lemma_push_distinct(r0, last);
        assert forall|x: usize| r.contains(x) <==> (active.contains(x) || x == i) by {
            lemma_push_holds(r0, last, x);
            lemma_drop_last_holds(active, x);
        }
    }
}

/// One step of the scan keeps what holds between steps.
pub proof fn lemma_scan_step(st: ScanState, i: usize)
    requires
        scan_inv(st, i as int),
        i < st.out.len(),
    ensures
        scan_inv(scan_step(st, i), i + 1),
        scan_step(st, i).out.len() == st.out.len(),
        forall|j: int|
            0 <= j < st.out.len() ==> {
                &&& (#[trigger] scan_step(st, i).out[j]).start == st.out[j].start
                &&& scan_step(st, i).out[j].end == st.out[j].end
                &&& scan_step(st, i).out[j].vreg == st.out[j].vreg
            },
{
    let out = st.out;
    let n = out.len();
    let cur = out[i as int];
    let a1 = kept(out, st.active, cur.start);
    let f1 = released(out, st.active, st.free, cur.start);
    lemma_kept(out, st.active, st.free, cur.start, i as int);
    let next = scan_step(st, i);
    let out2 = next.out;
    assert(!a1.contains(i)) by {
        if a1.contains(i) {
            assert(st.active.contains(i));
        }
    }
    // Whoever held a register and is not among the kept ones has ended.
    assert forall|j: int|
        0 <= j < i && (#[trigger] out[j]).phy_reg is Some && !a1.contains(j as usize) implies gone(
        out,
        j,
        i as int,
    ) by {
        if st.active.contains(j as usize) {
            assert(out[j].end < cur.start);
            assert forall|k: int| i <= k < n implies out[j].end < (#[trigger] out[k]).start by {
                assert(out[i as int].start <= out[k].start);
            }
        }
    }
    assert(starts_ordered(out2)) by {
        assert forall|x: int, y: int| 0 <= x <= y < out2.len() implies out2[x].start
            <= out2[y].start by {
            assert(out[x].start <= out[y].start);
        }
    }
    if f1.len() > 0 {
        let r = f1.last();
        assert(f1.contains(r)) by {
            assert(f1[f1.len() - 1] == r);
        }
        lemma_insert_by_end(out2, a1, i);
        assert forall|y: VReg| f1.drop_last().contains(y) <==> (f1.contains(y) && y != r) by {
            lemma_drop_last_holds(f1, y);
        }
        lemma_drop_last_holds(f1, r);
        assert(lists_sound(out2, next.active, next.free, i + 1)) by {
            assert forall|x: usize| next.active.contains(x) implies x < i + 1 && x < out2.len() && (
            #[trigger] out2[x as int]).phy_reg is Some by {
                if x != i {
                    assert(a1.contains(x));
                    assert(out[x as int].phy_reg is Some);
                }
            }
            assert forall|x: usize, y: usize|
                next.active.contains(x) && next.active.contains(y) && x != y implies (
            #[trigger] out2[x as int]).phy_reg != (#[trigger] out2[y as int]).phy_reg by {
                if x != i && y != i {
                    assert(out[x as int].phy_reg != out[y as int].phy_reg);
                } else if x == i {
                    assert(a1.contains(y));
                    assert(out[y as int].phy_reg != Some(r));
                } else {
                    assert(a1.contains(x));
                    assert(out[x as int].phy_reg != Some(r));
                }
            }
            assert forall|x: usize, y: VReg|
                next.active.contains(x) && #[trigger] next.free.contains(y) implies (
            #[trigger] out2[x as int]).phy_reg != Some(y) by {
                if x != i {
                    assert(a1.contains(x));
                    assert(f1.contains(y));
                    assert(out[x as int].phy_reg != Some(y));
                }
            }
        }
        assert forall|j: int|
            0 <= j < i + 1 && (#[trigger] out2[j]).phy_reg is Some && !next.active.contains(
                j as usize,
            ) implies gone(out2, j, i + 1) by {
            assert(j != i);
            assert(!a1.contains(j as usize));
            assert(out[j].phy_reg is Some);
            assert(gone(out, j, i as int));
            assert forall|k: int| i + 1 <= k < out2.len() implies out2[j].end < (
            #[trigger] out2[k]).start by {
                assert(out[j].end < out[k].start);
            }
        }
        assert forall|j: int, k: int|
            0 <= j < i + 1 && 0 <= k < i + 1 && j != k && (#[trigger] out2[j]).phy_reg is Some
                && out2[j].phy_reg == (#[trigger] out2[k]).phy_reg implies apart(out2[j], out2[k]) by {
            if j != i && k != i {
                assert(out[j].phy_reg is Some && out[j].phy_reg == out[k].phy_reg);
                assert(apart(out[j], out[k]));
            } else {
                let other = if j == i {
                    k
                } else {
                    j
                };
                assert(out[other].phy_reg == Some(r));
                if a1.contains(other as usize) {
                    assert(out[other as usize as int].phy_reg != Some(r));
                }
                assert(gone(out, other, i as int));
                assert(out[other].end < out[i as int].start);
            }
        }
        assert forall|j: int| i + 1 <= j < out2.len() implies (#[trigger] out2[j]).phy_reg is None by {
            assert(out[j].phy_reg is None);
        }
    } else if a1.len() > 0 && out[a1.last() as int].end > cur.end {
        let w = a1.last();
        let worst = out[w as int];
        assert(a1.contains(w)) by {
            assert(a1[a1.len() - 1] == w);
        }
        assert(st.active.contains(w));
        assert(w < i);
        let r = worst.phy_reg;
        let a2 = a1.drop_last();
        assert forall|x: usize| a2.contains(x) <==> (a1.contains(x) && x != w) by {
            lemma_drop_last_holds(a1, x);
        }
        lemma_drop_last_holds(a1, w);
        assert(!a2.contains(i));
        lemma_insert_by_end(out2, a2, i);
        assert(lists_sound(out2, next.active, next.free, i + 1)) by {
            assert forall|x: usize| next.active.contains(x) implies x < i + 1 && x < out2.len() && (
            #[trigger] out2[x as int]).phy_reg is Some by {
                if x != i {
                    assert(a1.contains(x) && x != w);
                    assert(out[x as int].phy_reg is Some);
                }
            }
            assert forall|x: usize, y: usize|
                next.active.contains(x) && next.active.contains(y) && x != y implies (
            #[trigger] out2[x as int]).phy_reg != (#[trigger] out2[y as int]).phy_reg by {
                if x != i && y != i {
                    assert(out[x as int].phy_reg != out[y as int].phy_reg);
                } else if x == i {
                    assert(a1.contains(y) && y != w);
                    assert(out[y as int].phy_reg != out[w as int].phy_reg);
                } else {
                    assert(a1.contains(x) && x != w);
                    assert(out[x as int].phy_reg != out[w as int].phy_reg);
                }
            }
        }
        assert forall|j: int|
            0 <= j < i + 1 && (#[trigger] out2[j]).phy_reg is Some && !next.active.contains(
                j as usize,
            ) implies gone(out2, j, i + 1) by {
            assert(j != i && j != w);
            assert(!a1.contains(j as usize));
            assert(out[j].phy_reg is Some);
            assert(gone(out, j, i as int));
            assert forall|k: int| i + 1 <= k < out2.len() implies out2[j].end < (
            #[trigger] out2[k]).start by {
                assert(out[j].end < out[k].start);
            }
        }
        assert forall|j: int, k: int|
            0 <= j < i + 1 && 0 <= k < i + 1 && j != k && (#[trigger] out2[j]).phy_reg is Some
                && out2[j].phy_reg == (#[trigger] out2[k]).phy_reg implies apart(out2[j], out2[k]) by {
            if j != i && k != i {
                assert(j != w && k != w);
                assert(out[j].phy_reg is Some && out[j].phy_reg == out[k].phy_reg);
                assert(apart(out[j], out[k]));
            } else {
                let other = if j == i {
                    k
                } else {
                    j
                };
                assert(other != w);
                assert(out[other].phy_reg == r);
                if a1.contains(other as usize) {
                    assert(out[other as usize as int].phy_reg != out[w as int].phy_reg);
                }
                assert(gone(out, other, i as int));
                assert(out[other].end < out[i as int].start);
            }
        }
        assert forall|j: int| i + 1 <= j < out2.len() implies (#[trigger] out2[j]).phy_reg is None by {
            assert(out[j].phy_reg is None);
        }
    } else {
        assert(next.active == a1);
        assert(next.free == f1);
        assert(lists_sound(out2, a1, f1, i + 1)) by {
            assert forall|x: usize| a1.contains(x) implies x < i + 1 && x < out2.len() && (
            #[trigger] out2[x as int]).phy_reg is Some by {
                assert(out[x as int].phy_reg is Some);
            }
            assert forall|x: usize, y: usize|
                a1.contains(x) && a1.contains(y) && x != y implies (#[trigger] out2[x as int]).phy_reg
                != (#[trigger] out2[y as int]).phy_reg by {
                assert(out[x as int].phy_reg != out[y as int].phy_reg);
            }
            assert forall|x: usize, y: VReg| a1.contains(x) && #[trigger] f1.contains(y) implies (
            #[trigger] out2[x as int]).phy_reg != Some(y) by {
                assert(out[x as int].phy_reg != Some(y));
            }
        }
        assert forall|j: int|
            0 <= j < i + 1 && (#[trigger] out2[j]).phy_reg is Some && !next.active.contains(
                j as usize,
            ) implies gone(out2, j, i + 1) by {
            assert(j != i);
            assert(out[j].phy_reg is Some);
            assert(gone(out, j, i as int));
            assert forall|k: int| i + 1 <= k < out2.len() implies out2[j].end < (
            #[trigger] out2[k]).start by {
                assert(out[j].end < out[k].start);
            }
        }
        assert forall|j: int, k: int|
            0 <= j < i + 1 && 0 <= k < i + 1 && j != k && (#[trigger] out2[j]).phy_reg is Some
                && out2[j].phy_reg == (#[trigger] out2[k]).phy_reg implies apart(out2[j], out2[k]) by {
            assert(j != i && k != i);
            assert(out[j].phy_reg is Some && out[j].phy_reg == out[k].phy_reg);
            assert(apart(out[j], out[k]));
        }
        assert forall|j: int| i + 1 <= j < out2.len() implies (#[trigger] out2[j]).phy_reg is None by {
            assert(out[j].phy_reg is None);
        }
    }
}

proof fn lemma_insert_by_start(sorted: Seq<LiveIntervals>, x: LiveIntervals)
    requires
        starts_ordered(sorted),
    ensures
        starts_ordered(insert_by_start(sorted, x)),
        insert_by_start(sorted, x).len() == sorted.len() + 1,
        forall|k: int|
            0 <= k < insert_by_start(sorted, x).len() ==> (#[trigger] insert_by_start(sorted, x)[k])
                == x || sorted.contains(insert_by_start(sorted, x)[k]),
    decreases sorted.len(),
{
    let r = insert_by_start(sorted, x);
    if sorted.len() == 0 {
    } else if sorted.last().start <= x.start {
        assert forall|i: int, j: int| 0 <= i <= j < r.len() implies r[i].start <= r[j].start by {
            if j == sorted.len() && i < sorted.len() {
                assert(sorted[i].start <= sorted[sorted.len() - 1].start);
            }
        }
        assert forall|k: int| 0 <= k < r.len() implies (#[trigger] r[k]) == x || sorted.contains(
            r[k],
        ) by {
            if k < sorted.len() {
                assert(sorted[k] == r[k]);
            }
        }
    } else {
        let s0 = sorted.drop_last();
        let last = sorted.last();
        assert(starts_ordered(s0)) by {
            assert forall|i: int, j: int| 0 <= i <= j < s0.len() implies s0[i].start
                <= s0[j].start by {
                assert(sorted[i].start <= sorted[j].start);
            }
        }
        lemma_insert_by_start(s0, x);
        let r0 = insert_by_start(s0, x);
        assert forall|k: int| 0 <= k < r.len() implies (#[trigger] r[k]) == x || sorted.contains(
            r[k],
        ) by {
            if k < r0.len() {
                if r0[k] != x {
                    let j = choose|j: int| 0 <= j < s0.len() && s0[j] == r0[k];
                    assert(sorted[j] == r0[k]);
                }
            } else {
                assert(sorted[sorted.len() - 1] == r[k]);
            }
        }
        assert forall|i: int, j: int| 0 <= i <= j < r.len() implies r[i].start <= r[j].start by {
            if j == r0.len() && i < r0.len() {
                if r0[i].start <= x.start {
                } else {
                    let q = choose|q: int| 0 <= q < s0.len() && s0[q] == r0[i];
                    assert(sorted[q].start <= sorted[sorted.len() - 1].start);
                }
            }
        }
    }
}

proof fn lemma_sort_by_start(s: Seq<LiveIntervals>)
    ensures
        starts_ordered(sort_by_start(s)),
        sort_by_start(s).len() == s.len(),
        forall|k: int| 0 <= k < s.len() ==> s.contains(#[trigger] sort_by_start(s)[k]),
    decreases s.len(),
{
    if s.len() > 0 {
        let s0 = s.drop_last();
        lemma_sort_by_start(s0);
        lemma_insert_by_start(sort_by_start(s0), s.last());
        let r0 = sort_by_start(s0);
        let r = sort_by_start(s);
        assert forall|k: int| 0 <= k < s.len() implies s.contains(#[trigger] r[k]) by {
            if r[k] == s.last() {
                assert(s[s.len() - 1] == r[k]);
            } else {
                let j = choose|j: int| 0 <= j < r0.len() && r0[j] == r[k];
                assert(s0.contains(r0[j]));
                let q = choose|q: int| 0 <= q < s0.len() && s0[q] == r0[j];
                assert(s[q] == r[k]);
            }
        }
    }
}

/// The active intervals stand in the order of their ends.
pub open spec fn ends_ordered(out: Seq<LiveIntervals>, active: Seq<usize>) -> bool {
    forall|a: int, b: int|
        0 <= a <= b < active.len() ==> out[active[a] as int].end <= out[active[b] as int].end
}

/// Every interval below `i` has either a register or the spill mark, and not
/// both; the others have neither yet.
pub open spec fn decided_below(out: Seq<LiveIntervals>, i: int) -> bool {
    &&& forall|j: int|
        0 <= j < i && j < out.len() ==> ((#[trigger] out[j]).phy_reg is Some) != out[j].mark_spilled
    &&& forall|j: int|
        i <= j < out.len() ==> (#[trigger] out[j]).phy_reg is None && !out[j].mark_spilled
}

proof fn lemma_kept_subset(out: Seq<LiveIntervals>, active: Seq<usize>, start: usize, x: usize)
    requires
        kept(out, active, start).contains(x),
    ensures
        active.contains(x),
    decreases active.len(),
{
    if active.len() > 0 {
        let a0 = active.drop_last();
        let k0 = kept(out, a0, start);
        lemma_push_holds(k0, active.last(), x);
        if k0.contains(x) {
            lemma_kept_subset(out, a0, start, x);
            let j = choose|j: int| 0 <= j < a0.len() && a0[j] == x;
            assert(active[j] == x);
        } else {
            assert(active[active.len() - 1] == x);
        }
    }
}

proof fn lemma_kept_ordered(out: Seq<LiveIntervals>, active: Seq<usize>, start: usize)
    requires
        ends_ordered(out, active),
    ensures
        ends_ordered(out, kept(out, active, start)),
    decreases active.len(),
{
    if active.len() > 0 {
        let a0 = active.drop_last();
        let last = active.last();
        assert(ends_ordered(out, a0)) by {
            assert forall|a: int, b: int| 0 <= a <= b < a0.len() implies out[a0[a] as int].end
                <= out[a0[b] as int].end by {
                assert(out[active[a] as int].end <= out[active[b] as int].end);
            }
        }
        lemma_kept_ordered(out, a0, start);
        let k0 = kept(out, a0, start);
        let k = kept(out, active, start);
        if !(out[last as int].end < start) {
            assert forall|a: int, b: int| 0 <= a <= b < k.len() implies out[k[a] as int].end
                <= out[k[b] as int].end by {
                if b == k0.len() && a < k0.len() {
                    assert(k0.contains(k0[a]));
                    lemma_kept_subset(out, a0, start, k0[a]);
                    let j = choose|j: int| 0 <= j < a0.len() && a0[j] == k0[a];
                    assert(out[active[j] as int].end <= out[active[active.len() - 1] as int].end);
                } else if b < k0.len() {
                    assert(out[k0[a] as int].end <= out[k0[b] as int].end);
                }
            }
        }
    }
}

proof fn lemma_insert_subset(out: Seq<LiveIntervals>, active: Seq<usize>, i: usize, x: usize)
    requires
        insert_by_end(out, active, i).contains(x),
    ensures
        active.contains(x) || x == i,
    decreases active.len(),
{
    if active.len() == 0 {
        assert(seq![i] =~= Seq::<usize>::empty().push(i));
        lemma_push_holds(Seq::<usize>::empty(), i, x);
    } else if out[active.last() as int].end <= out[i as int].end {
        lemma_push_holds(active, i, x);
    } else {
        let a0 = active.drop_last();
        let r0 = insert_by_end(out, a0, i);
        lemma_push_holds(r0, active.last(), x);
        if r0.contains(x) {
            lemma_insert_subset(out, a0, i, x);
            if a0.contains(x) {
                let j = choose|j: int| 0 <= j < a0.len() && a0[j] == x;
                assert(active[j] == x);
            }
        } else {
            assert(active[active.len() - 1] == x);
        }
    }
}

proof fn lemma_insert_ordered(out: Seq<LiveIntervals>, active: Seq<usize>, i: usize)
    requires
        ends_ordered(out, active),
    ensures
        ends_ordered(out, insert_by_end(out, active, i)),
    decreases active.len(),
{
    let r = insert_by_end(out, active, i);
    if active.len() == 0 {
    } else if out[active.last() as int].end <= out[i as int].end {
        assert forall|a: int, b: int| 0 <= a <= b < r.len() implies out[r[a] as int].end
            <= out[r[b] as int].end by {
            if b == active.len() && a < active.len() {
                assert(out[active[a] as int].end <= out[active[active.len() - 1] as int].end);
            } else if b < active.len() {
                assert(out[active[a] as int].end <= out[active[b] as int].end);
            }
        }
    } else {
        let a0 = active.drop_last();
        let last = active.last();
        assert(ends_ordered(out, a0)) by {
            assert forall|a: int, b: int| 0 <= a <= b < a0.len() implies out[a0[a] as int].end
                <= out[a0[b] as int].end by {
                assert(out[active[a] as int].end <= out[active[b] as int].end);
            }
        }
        lemma_insert_ordered(out, a0, i);
        let r0 = insert_by_end(out, a0, i);
        assert forall|a: int, b: int| 0 <= a <= b < r.len() implies out[r[a] as int].end
            <= out[r[b] as int].end by {
            if b == r0.len() && a < r0.len() {
                assert(r0.contains(r0[a]));
                lemma_insert_subset(out, a0, i, r0[a]);
                if a0.contains(r0[a]) {
                    let j = choose|j: int| 0 <= j < a0.len() && a0[j] == r0[a];
                    assert(out[active[j] as int].end <= out[active[active.len() - 1] as int].end);
                }
            } else if b < r0.len() {
                assert(out[r0[a] as int].end <= out[r0[b] as int].end);
            }
        }
    }
}

/// The order of the active list looks at ends alone.
proof fn lemma_insert_same_ends(
    out: Seq<LiveIntervals>,
    out2: Seq<LiveIntervals>,
    active: Seq<usize>,
    i: usize,
)
    requires
        out.len() == out2.len(),
        forall|j: int| 0 <= j < out.len() ==> (#[trigger] out[j]).end == out2[j].end,
        i < out.len(),
        forall|k: int| 0 <= k < active.len() ==> active[k] < out.len(),
    ensures
        insert_by_end(out2, active, i) == insert_by_end(out, active, i),
    decreases active.len(),
{
    if active.len() > 0 {
        let a0 = active.drop_last();
        assert(active[active.len() - 1] < out.len());
        assert(out[active.last() as int].end == out2[active.last() as int].end);
        assert(out[i as int].end == out2[i as int].end);
        assert forall|k: int| 0 <= k < a0.len() implies a0[k] < out.len() by {
            assert(active[k] < out.len());
        }
        lemma_insert_same_ends(out, out2, a0, i);
    }
}

proof fn lemma_ordered_same_ends(out: Seq<LiveIntervals>, out2: Seq<LiveIntervals>, active: Seq<usize>)
    requires
        out.len() == out2.len(),
        forall|j: int| 0 <= j < out.len() ==> (#[trigger] out[j]).end == out2[j].end,
        forall|k: int| 0 <= k < active.len() ==> active[k] < out.len(),
        ends_ordered(out, active),
    ensures
        ends_ordered(out2, active),
{
    assert forall|a: int, b: int| 0 <= a <= b < active.len() implies out2[active[a] as int].end
        <= out2[active[b] as int].end by {
        assert(active[a] < out.len() && active[b] < out.len());
        assert(out[active[a] as int].end <= out[active[b] as int].end);
        assert(out[active[a] as int].end == out2[active[a] as int].end);
        assert(out[active[b] as int].end == out2[active[b] as int].end);
    }
}

/// One step of the scan keeps the active list in the order of its ends, and
/// decides for the interval it visits.
proof fn lemma_scan_step_decides(st: ScanState, i: usize)
    requires
        scan_inv(st, i as int),
        ends_ordered(st.out, st.active),
        decided_below(st.out, i as int),
        i < st.out.len(),
    ensures
        ends_ordered(scan_step(st, i).out, scan_step(st, i).active),
        decided_below(scan_step(st, i).out, i + 1),
{
    let out = st.out;
    let cur = out[i as int];
    let a1 = kept(out, st.active, cur.start);
    let f1 = released(out, st.active, st.free, cur.start);
    lemma_kept(out, st.active, st.free, cur.start, i as int);
    lemma_kept_ordered(out, st.active, cur.start);
    let next = scan_step(st, i);
    let out2 = next.out;
    assert forall|k: int| 0 <= k < a1.len() implies a1[k] < out.len() by {
        assert(a1.contains(a1[k]));
        assert(st.active.contains(a1[k]));
        let iv = out[a1[k] as int];
    }
    assert forall|j: int| 0 <= j < out.len() implies (#[trigger] out[j]).end == out2[j].end by {}
    if f1.len() > 0 {
        lemma_insert_ordered(out, a1, i);
        lemma_insert_same_ends(out, out2, a1, i);
        assert forall|k: int| 0 <= k < next.active.len() implies next.active[k] < out.len() by {
            assert(next.active.contains(next.active[k]));
            lemma_insert_subset(out, a1, i, next.active[k]);
            if a1.contains(next.active[k]) {
                let q = choose|q: int| 0 <= q < a1.len() && a1[q] == next.active[k];
            }
        }
        lemma_ordered_same_ends(out, out2, next.active);
    } else if a1.len() > 0 && out[a1.last() as int].end > cur.end {
        let w = a1.last();
        assert(a1.contains(w)) by {
            assert(a1[a1.len() - 1] == w);
        }
        assert(st.active.contains(w));
        assert(out[w as int].phy_reg is Some);
        assert(w < i);
        let a2 = a1.drop_last();
        assert(ends_ordered(out, a2)) by {
            assert forall|a: int, b: int| 0 <= a <= b < a2.len() implies out[a2[a] as int].end
                <= out[a2[b] as int].end by {
                assert(out[a1[a] as int].end <= out[a1[b] as int].end);
            }
        }
        assert forall|k: int| 0 <= k < a2.len() implies a2[k] < out.len() by {
            assert(a1[k] < out.len());
        }
        lemma_insert_ordered(out, a2, i);
        lemma_insert_same_ends(out, out2, a2, i);
        assert forall|k: int| 0 <= k < next.active.len() implies next.active[k] < out.len() by {
            assert(next.active.contains(next.active[k]));
            lemma_insert_subset(out, a2, i, next.active[k]);
            if a2.contains(next.active[k]) {
                let q = choose|q: int| 0 <= q < a2.len() && a2[q] == next.active[k];
            }
        }
        lemma_ordered_same_ends(out, out2, next.active);
        assert forall|j: int| 0 <= j < i + 1 && j < out2.len() implies ((
        #[trigger] out2[j]).phy_reg is Some) != out2[j].mark_spilled by {
            if j != i && j != w {
                assert((out[j].phy_reg is Some) != out[j].mark_spilled);
            }
        }
    } else {
        lemma_ordered_same_ends(out, out2, a1);
        assert forall|j: int| 0 <= j < i + 1 && j < out2.len() implies ((
        #[trigger] out2[j]).phy_reg is Some) != out2[j].mark_spilled by {
            if j != i {
                assert((out[j].phy_reg is Some) != out[j].mark_spilled);
            }
        }
    }
    assert forall|j: int| 0 <= j < i + 1 && j < out2.len() implies ((
    #[trigger] out2[j]).phy_reg is Some) != out2[j].mark_spilled by {
        if j != i && !(f1.len() == 0 && a1.len() > 0 && out[a1.last() as int].end > cur.end && j
            == a1.last()) {
            assert((out[j].phy_reg is Some) != out[j].mark_spilled);
        }
    }
    assert forall|j: int| i + 1 <= j < out2.len() implies (#[trigger] out2[j]).phy_reg is None
        && !out2[j].mark_spilled by {
        assert(out[j].phy_reg is None && !out[j].mark_spilled);
        if f1.len() == 0 && a1.len() > 0 && out[a1.last() as int].end > cur.end {
            assert(a1[a1.len() - 1] == a1.last());
            assert(a1.contains(a1.last()));
            assert(st.active.contains(a1.last()));
            let iv = out[a1.last() as int];
        }
    }
}

/// The scan keeps, from start to end, what holds between its steps.
proof fn lemma_scan(sorted: Seq<LiveIntervals>, upto: int)
    requires
        starts_ordered(sorted),
        forall|i: int| 0 <= i < sorted.len() ==> (#[trigger] sorted[i]).phy_reg is None,
        0 <= upto <= sorted.len(),
        sorted.len() <= usize::MAX,
        forall|i: int| 0 <= i < sorted.len() ==> !(#[trigger] sorted[i]).mark_spilled,
    ensures
        scan_inv(scan(sorted, upto), upto),
        ends_ordered(scan(sorted, upto).out, scan(sorted, upto).active),
        decided_below(scan(sorted, upto).out, upto),
        scan(sorted, upto).out.len() == sorted.len(),
        forall|j: int|
            0 <= j < sorted.len() ==> {
                &&& (#[trigger] scan(sorted, upto).out[j]).start == sorted[j].start
                &&& scan(sorted, upto).out[j].end == sorted[j].end
                &&& scan(sorted, upto).out[j].vreg == sorted[j].vreg
            },
    decreases upto,
{
    if upto == 0 {
        let pool = register_pool();
        assert(pool.no_duplicates());
        let st = scan(sorted, 0);
        assert(st.active =~= Seq::<usize>::empty());
    } else {
        lemma_scan(sorted, upto - 1);
        lemma_scan_step(scan(sorted, upto - 1), (upto - 1) as usize);
        lemma_scan_step_decides(scan(sorted, upto - 1), (upto - 1) as usize);
    }
}

/// At every step of the scan the active intervals stand in the order of
/// their ends, so that the last of them ends last.
pub proof fn lemma_active_in_order(table: RegAssoc<Interval>, upto: int)
    requires
        table.keys.len() <= usize::MAX,
        0 <= upto <= table.keys.len(),
    ensures
        ends_ordered(
            scan(sort_by_start(unassigned(table)), upto).out,
            scan(sort_by_start(unassigned(table)), upto).active,
        ),
{
    lemma_sorted_unassigned(table);
    lemma_scan(sort_by_start(unassigned(table)), upto);
}

/// The intervals of a table, in the order of their starts, have neither
/// register nor spill mark.
proof fn lemma_sorted_unassigned(table: RegAssoc<Interval>)
    ensures
        starts_ordered(sort_by_start(unassigned(table))),
        sort_by_start(unassigned(table)).len() == table.keys.len(),
        forall|i: int|
            0 <= i < table.keys.len() ==> (#[trigger] sort_by_start(unassigned(table))[i]).phy_reg is None
                && !sort_by_start(unassigned(table))[i].mark_spilled,
{
    let first = unassigned(table);
    lemma_sort_by_start(first);
    let sorted = sort_by_start(first);
    assert forall|i: int| 0 <= i < table.keys.len() implies (#[trigger] sorted[i]).phy_reg is None
        && !sorted[i].mark_spilled by {
        assert(first.contains(sorted[i]));
        let j = choose|j: int| 0 <= j < first.len() && first[j] == sorted[i];
    }
}

/// The scan decides for every interval: it has a register or the spill
/// mark, never both.  And no two intervals that the scan gives the same
/// register have a position in common.
pub proof fn lemma_registers_apart(table: RegAssoc<Interval>)
    requires
        table.keys.len() <= usize::MAX,
    ensures
        registers_apart(allocation(table)),
        allocation(table).len() == table.keys.len(),
        forall|j: int|
            0 <= j < allocation(table).len() ==> ((#[trigger] allocation(table)[j]).phy_reg is Some)
                != allocation(table)[j].mark_spilled,
{
    lemma_sorted_unassigned(table);
    let sorted = sort_by_start(unassigned(table));
    lemma_scan(sorted, sorted.len() as int);
}

proof fn lemma_insert_by_start_at(sorted: Seq<LiveIntervals>, x: LiveIntervals, p: int)
    requires
        0 <= p <= sorted.len(),
        p > 0 ==> sorted[p - 1].start <= x.start,
        forall|j: int| p <= j < sorted.len() ==> (#[trigger] sorted[j]).start > x.start,
    ensures
        insert_by_start(sorted, x) == sorted.insert(p, x),
    decreases sorted.len() - p,
{
    if sorted.len() == 0 {
        assert(sorted.insert(p, x) =~= seq![x]);
    } else if p == sorted.len() {
        assert(sorted.insert(p, x) =~= sorted.push(x));
    } else {
        let s0 = sorted.drop_last();
        assert(sorted[sorted.len() - 1].start > x.start);
        assert forall|j: int| p <= j < s0.len() implies (#[trigger] s0[j]).start > x.start by {
            assert(sorted[j].start > x.start);
        }
        lemma_insert_by_start_at(s0, x, p);
        assert(sorted.insert(p, x) =~= s0.insert(p, x).push(sorted.last()));
    }
}

proof fn lemma_insert_by_end_at(out: Seq<LiveIntervals>, active: Seq<usize>, i: usize, p: int)
    requires
        0 <= p <= active.len(),
        p > 0 ==> out[active[p - 1] as int].end <= out[i as int].end,
        forall|j: int| p <= j < active.len() ==> out[(#[trigger] active[j]) as int].end > out[i as int].end,
    ensures
        insert_by_end(out, active, i) == active.insert(p, i),
    decreases active.len() - p,
{
    if active.len() == 0 {
        assert(active.insert(p, i) =~= seq![i]);
    } else if p == active.len() {
        assert(active.insert(p, i) =~= active.push(i));
    } else {
        let a0 = active.drop_last();
        assert(out[active[active.len() - 1] as int].end > out[i as int].end);
        assert forall|j: int| p <= j < a0.len() implies out[(#[trigger] a0[j]) as int].end
            > out[i as int].end by {
            assert(out[active[j] as int].end > out[i as int].end);
        }
        lemma_insert_by_end_at(out, a0, i, p);
        assert(active.insert(p, i) =~= a0.insert(p, i).push(active.last()));
    }
}

/// The intervals in the order of their starts.
fn sort_intervals(v: &Vec<LiveIntervals>) -> (r: Vec<LiveIntervals>)
    ensures
        r@ == sort_by_start(v@),
{
    let mut sorted: Vec<LiveIntervals> = Vec::new();
    let mut k: usize = 0;
    assert(v@.take(0) =~= Seq::<LiveIntervals>::empty());
    while k < v.len()
        invariant
            k <= v.len(),
            sorted@ == sort_by_start(v@.take(k as int)),
        decreases v.len() - k,
    {
        let x = v[k];
        let mut p: usize = sorted.len();
        while p > 0 && sorted[p - 1].start > x.start
            invariant
                p <= sorted.len(),
                forall|j: int| p <= j < sorted.len() ==> (#[trigger] sorted[j]).start > x.start,
            decreases p,
        {
            p -= 1;
        }
        proof {
            lemma_insert_by_start_at(sorted@, x, p as int);
            assert(v@.take(k + 1).drop_last() =~= v@.take(k as int));
        }
        sorted.insert(p, x);
        k += 1;
    }
    assert(v@.take(v.len() as int) =~= v@);
    sorted
}

/// Puts interval `i` into the active list, behind every interval that ends
/// no later.
fn activate(out: &Vec<LiveIntervals>, active: &mut Vec<usize>, i: usize)
    requires
        i < out.len(),
        forall|k: int| 0 <= k < old(active).len() ==> old(active)[k] < out.len(),
    ensures
        final(active)@ == insert_by_end(out@, old(active)@, i),
{
    let mut p: usize = active.len();
    while p > 0 && out[active[p - 1]].end > out[i].end
        invariant
            p <= active.len(),
            i < out.len(),
            *active == *old(active),
            forall|k: int| 0 <= k < active.len() ==> active[k] < out.len(),
            forall|j: int|
                p <= j < active.len() ==> out[(#[trigger] active[j]) as int].end > out[i as int].end,
        decreases p,
    {
        p -= 1;
    }
    proof {
        lemma_insert_by_end_at(out@, active@, i, p as int);
    }
    active.insert(p, i);
}

/// Takes the intervals that end before `start` off the active list and gives
/// their registers back.
fn expire(out: &Vec<LiveIntervals>, active: &mut Vec<usize>, free: &mut Vec<VReg>, start: usize)
    requires
        forall|k: int| 0 <= k < old(active).len() ==> old(active)[k] < out.len(),
    ensures
        final(active)@ == kept(out@, old(active)@, start),
        final(free)@ == released(out@, old(active)@, old(free)@, start),
{
    let mut staying: Vec<usize> = Vec::new();
    let mut k: usize = 0;
    assert(active@.take(0) =~= Seq::<usize>::empty());
    while k < active.len()
        invariant
            k <= active.len(),
            *active == *old(active),
            forall|k: int| 0 <= k < active.len() ==> active[k] < out.len(),
            staying@ == kept(out@, active@.take(k as int), start),
            free@ == released(out@, active@.take(k as int), old(free)@, start),
        decreases active.len() - k,
    {
        let a = active[k];
        assert(active@.take(k + 1).drop_last() =~= active@.take(k as int));
        if out[a].end < start {
            if let Some(reg) = out[a].phy_reg {
                free.push(reg);
            }
        } else {
            staying.push(a);
        }
        k += 1;
    }
    assert(active@.take(active.len() as int) =~= active@);
    *active = staying;
}

/// The registers that may be handed out.
fn all_regs() -> (r: Vec<VReg>)
    ensures
        r@ == register_pool(),
{
    let mut r: Vec<VReg> = Vec::new();
    r.push(VReg::T0);
    r.push(VReg::T1);
    r.push(VReg::T2);
    r.push(VReg::T3);
    r.push(VReg::T4);
    r.push(VReg::T5);
    r.push(VReg::T6);
    r.push(VReg::A0);
    r.push(VReg::A1);
    r.push(VReg::A2);
    r.push(VReg::A3);
    r.push(VReg::A4);
    r.push(VReg::A5);
    r.push(VReg::A6);
    r.push(VReg::A7);
    r.push(VReg::S1);
    r.push(VReg::S2);
    r.push(VReg::S3);
    r.push(VReg::S4);
    r.push(VReg::S5);
    r.push(VReg::S6);
    r.push(VReg::S7);
    r.push(VReg::S8);
    r.push(VReg::S9);
    r.push(VReg::S10);
    r.push(VReg::S11);
    assert(r@ =~= register_pool());
    r
}

/// The first interval of the list that belongs to `reg`.
pub open spec fn entry_for(alloc: Seq<LiveIntervals>, reg: VReg) -> Option<LiveIntervals> {
    if exists|j: int| 0 <= j < alloc.len() && alloc[j].vreg == reg {
        let j = choose|j: int|
            0 <= j < alloc.len() && alloc[j].vreg == reg && forall|k: int|
                0 <= k < j ==> alloc[k].vreg != reg;
        Some(alloc[j])
    } else {
        None
    }
}

/// The table with the decisions of `alloc` entered: every register gets the
/// physical register and the spill mark of its interval.
pub open spec fn decided(table: RegAssoc<Interval>, alloc: Seq<LiveIntervals>) -> RegAssoc<Interval> {
    RegAssoc {
        keys: table.keys,
        vals: Seq::new(
            table.vals.len(),
            |i: int|
                match entry_for(alloc, table.keys[i]) {
                    Some(iv) => Interval {
                        start: table.vals[i].start,
                        end: table.vals[i].end,
                        phy_reg: iv.phy_reg,
                        mark_spilled: iv.mark_spilled,
                    },
                    None => table.vals[i],
                },
        ),
    }
}

/// The allocation as a map from register to interval, in the order of the
/// scan.
pub open spec fn allocation_map(alloc: Seq<LiveIntervals>) -> RegAssoc<LiveIntervals> {
    RegAssoc { keys: Seq::new(alloc.len(), |i: int| alloc[i].vreg), vals: alloc }
}

/// The first interval of the list that belongs to `reg`.
pub fn find_entry(alloc: &Vec<LiveIntervals>, reg: VReg) -> (r: Option<LiveIntervals>)
    ensures
        r == entry_for(alloc@, reg),
{
    let mut j: usize = 0;
    while j < alloc.len()
        invariant
            j <= alloc.len(),
            forall|k: int| 0 <= k < j ==> alloc[k].vreg != reg,
        decreases alloc.len() - j,
    {
        if alloc[j].vreg == reg {
            proof {
                let c = choose|c: int|
                    0 <= c < alloc@.len() && alloc@[c].vreg == reg && forall|k: int|
                        0 <= k < c ==> alloc@[k].vreg != reg;
                assert(alloc@[j as int].vreg == reg);
                if c < j {
                    assert(alloc[c].vreg != reg);
                }
                if j < c {
                    assert(alloc@[j as int].vreg != reg);
                }
            }
            return Some(alloc[j]);
        }
        j += 1;
    }
    None
}

/// Enters, for every register of the table, what the allocation decided for
/// it.
fn enter_decisions(intervals: &mut RegMap<Interval>, alloc: &Vec<LiveIntervals>)
    requires
        old(intervals).keys.len() == old(intervals).vals.len(),
    ensures
        final(intervals)@ == decided(old(intervals)@, alloc@),
{
    let ghost table = intervals@;
    let n = intervals.keys.len();
    let mut k: usize = 0;
    while k < n
        invariant
            k <= n,
            n == intervals.keys.len(),
            n == intervals.vals.len(),
            n == table.keys.len(),
            n == table.vals.len(),
            intervals.keys@ == table.keys,
            forall|j: int| 0 <= j < k ==> intervals.vals[j] == decided(table, alloc@).vals[j],
            forall|j: int| k <= j < n ==> intervals.vals[j] == table.vals[j],
        decreases n - k,
    {
        match find_entry(alloc, intervals.keys[k]) {
            Some(iv) => {
                let before = intervals.vals[k];
                intervals.vals.set(
                    k,
                    Interval {
                        start: before.start,
                        end: before.end,
                        phy_reg: iv.phy_reg,
                        mark_spilled: iv.mark_spilled,
                    },
                );
            },
            None => {},
        }
        k += 1;
    }
    assert(intervals@.vals =~= decided(table, alloc@).vals);
}

/// The allocator.
#[derive(Debug)]
pub struct LinearScan {
    pub live_intervals: RegMap<LiveIntervals>,
}

impl LinearScan {
    /// An allocator that has seen no interval.
    pub fn new() -> (r: Self)
        ensures
            r.live_intervals@.keys.len() == 0,
            r.live_intervals@.vals.len() == 0,
    {
        LinearScan { live_intervals: RegMap::new() }
    }

    /// Allocates registers for every function of the list; the result maps
    /// the name of each function to its allocation.
    pub fn run(&mut self, funcs: &Vec<MachineFunc>) -> (r: StrMap<RegMap<LiveIntervals>>)
        requires
            forall|i: int|
                0 <= i < funcs.len() ==> instr_count(
                    (#[trigger] funcs[i])@.blocks,
                    funcs[i]@.blocks.len() as int,
                ) <= usize::MAX,
        ensures
            *final(self) == *old(self),
            r.wf(),
            allocations_view(r) == allocations_of(funcs@, funcs.len() as int),
    {
        let mut result: StrMap<RegMap<LiveIntervals>> = StrMap::new();
        let mut i: usize = 0;
        assert(allocations_view(result).vals =~= Seq::<RegAssoc<LiveIntervals>>::empty());
        while i < funcs.len()
            invariant
                i <= funcs.len(),
                *self == *old(self),
                result.wf(),
                forall|i: int|
                    0 <= i < funcs.len() ==> instr_count(
                        (#[trigger] funcs[i])@.blocks,
                        funcs[i]@.blocks.len() as int,
                    ) <= usize::MAX,
                allocations_view(result) == allocations_of(funcs@, i as int),
            decreases funcs.len() - i,
        {
            let func = &funcs[i];
            let mut table = self.build_intervals(func);
            let allocation = self.linear_scan(&mut table);
            let ghost before = result;
            let ghost bv = allocations_view(result);
            proof {
                bv.lemma_put_wf(func.name@, allocation@);
            }
            result.insert(func.name.clone(), allocation);
            proof {
                let av = allocations_view(result);
                let want = bv.put(func.name@, allocation@);
                assert(av.keys == want.keys);
                assert(av.vals =~= want.vals) by {
                    assert forall|j: int| 0 <= j < av.vals.len() implies av.vals[j] == want.vals[j] by {
                        if before.contains_key(func.name@) {
                            if j != before.position(func.name@) {
                                assert(result.vals[j] == before.vals[j]);
                                assert(bv.vals[j] == before.vals[j]@);
                            }
                        } else {
                            if j < before.vals.len() {
                                assert(result.vals[j] == before.vals[j]);
                                assert(bv.vals[j] == before.vals[j]@);
                            }
                        }
                    }
                }
            }
            i += 1;
        }
        result
    }

    /// Builds the live intervals of a machine function.
    pub fn build_intervals(&mut self, mf: &MachineFunc) -> (table: RegMap<Interval>)
        requires
            instr_count(mf@.blocks, mf@.blocks.len() as int) <= usize::MAX,
        ensures
            *final(self) == *old(self),
            table@.wf(),
            table@ == intervals_of(mf@.blocks),
    {
        live_intervals(mf)
    }

    /// Decides, for every interval of the table, on a register or on the
    /// stack, and enters the decisions in the table too.
    ///
    /// The result holds the intervals in the order of their starts.  No two
    /// intervals that got the same register have a position in common.
    pub fn linear_scan(&mut self, intervals: &mut RegMap<Interval>) -> (r: RegMap<LiveIntervals>)
        requires
            old(intervals).keys.len() == old(intervals).vals.len(),
        ensures
            *final(self) == *old(self),
            r@ == allocation_map(allocation(old(intervals)@)),
            registers_apart(r@.vals),
            forall|j: int|
                0 <= j < r@.vals.len() ==> ((#[trigger] r@.vals[j]).phy_reg is Some)
                    != r@.vals[j].mark_spilled,
            final(intervals)@ == decided(old(intervals)@, allocation(old(intervals)@)),
    {
        let ghost table = intervals@;
        let n = intervals.keys.len();
        let mut first: Vec<LiveIntervals> = Vec::new();
        let mut k: usize = 0;
        while k < n
            invariant
                k <= n,
                n == intervals.keys.len(),
                n == intervals.vals.len(),
                table == intervals@,
                first.len() == k,
                forall|j: int| 0 <= j < k ==> first[j] == unassigned(table)[j],
            decreases n - k,
        {
            first.push(
                LiveIntervals {
                    vreg: intervals.keys[k],
                    start: intervals.vals[k].start,
                    end: intervals.vals[k].end,
                    phy_reg: None,
                    mark_spilled: false,
                },
            );
            k += 1;
        }
        assert(first@ =~= unassigned(table));
        let mut out = sort_intervals(&first);
        let ghost sorted = out@;
        proof {
            lemma_sorted_unassigned(table);
        }
        let mut active: Vec<usize> = Vec::new();
        let mut free = all_regs();
        let mut i: usize = 0;
        while i < n
            invariant
                i <= n,
                n == sorted.len(),
                out.len() == n,
                sorted == sort_by_start(unassigned(table)),
                starts_ordered(sorted),
                forall|j: int|
                    0 <= j < sorted.len() ==> (#[trigger] sorted[j]).phy_reg is None
                        && !sorted[j].mark_spilled,
                (ScanState { out: out@, active: active@, free: free@ }) == scan(sorted, i as int),
            decreases n - i,
        {
            proof {
                lemma_scan(sorted, i as int);
            }
            let ghost st = scan(sorted, i as int);
            assert forall|k: int| 0 <= k < active.len() implies active[k] < out.len() by {
                assert(st.active.contains(active@[k]));
                let iv = st.out[active@[k] as int];
            }
            let cur = out[i];
            expire(&out, &mut active, &mut free, cur.start);
            let ghost a1 = active@;
            assert forall|k: int| 0 <= k < active.len() implies active[k] < out.len() by {
                assert forall|x: usize| st.active.contains(x) implies x < st.out.len() by {
                    let iv = st.out[x as int];
                }
                lemma_kept_in_range(st.out, st.active, cur.start, k);
            }
            if free.len() > 0 {
                let reg = free.pop().unwrap();
                out.set(
                    i,
                    LiveIntervals {
                        vreg: cur.vreg,
                        start: cur.start,
                        end: cur.end,
                        phy_reg: Some(reg),
                        mark_spilled: false,
                    },
                );
                activate(&out, &mut active, i);
            } else if active.len() > 0 {
                let w = active[active.len() - 1];
                let worst = out[w];
                if worst.end > cur.end {
                    active.pop();
                    out.set(
                        i,
                        LiveIntervals {
                            vreg: cur.vreg,
                            start: cur.start,
                            end: cur.end,
                            phy_reg: worst.phy_reg,
                            mark_spilled: false,
                        },
                    );
                    out.set(
                        w,
                        LiveIntervals {
                            vreg: worst.vreg,
                            start: worst.start,
                            end: worst.end,
                            phy_reg: None,
                            mark_spilled: true,
                        },
                    );
                    assert forall|k: int| 0 <= k < active.len() implies active[k] < out.len() by {
                        assert(a1[k] < out.len());
                    }
                    activate(&out, &mut active, i);
                } else {
                    out.set(
                        i,
                        LiveIntervals {
                            vreg: cur.vreg,
                            start: cur.start,
                            end: cur.end,
                            phy_reg: None,
                            mark_spilled: true,
                        },
                    );
                }
            } else {
                out.set(
                    i,
                    LiveIntervals {
                        vreg: cur.vreg,
                        start: cur.start,
                        end: cur.end,
                        phy_reg: None,
                        mark_spilled: true,
                    },
                );
            }
            i += 1;
        }
        proof {
            lemma_registers_apart(table);
        }
        enter_decisions(intervals, &out);
        let mut keys: Vec<VReg> = Vec::new();
        let mut k: usize = 0;
        while k < n
            invariant
                k <= n,
                n == out.len(),
                keys.len() == k,
                forall|j: int| 0 <= j < k ==> keys[j] == out[j].vreg,
            decreases n - k,
        {
            keys.push(out[k].vreg);
            k += 1;
        }
        assert(keys@ =~= allocation_map(out@).keys);
        RegMap { keys, vals: out }
    }
}

proof fn lemma_kept_in_range(out: Seq<LiveIntervals>, active: Seq<usize>, start: usize, k: int)
    requires
        forall|x: usize| active.contains(x) ==> x < out.len(),
        0 <= k < kept(out, active, start).len(),
    ensures
        kept(out, active, start)[k] < out.len(),
    decreases active.len(),
{
    if active.len() > 0 {
        let a0 = active.drop_last();
        let k0 = kept(out, a0, start);
        assert forall|x: usize| a0.contains(x) implies x < out.len() by {
            let j = choose|j: int| 0 <= j < a0.len() && a0[j] == x;
            assert(active[j] == x);
            assert(active.contains(x));
        }
        if k < k0.len() {
            lemma_kept_in_range(out, a0, start, k);
        } else {
            assert(active[active.len() - 1] == active.last());
            assert(active.contains(active.last()));
        }
    }
}

/// The allocations of a list of functions as contracts see them.
pub open spec fn allocations_view(m: StrMap<RegMap<LiveIntervals>>) -> AssocView<RegAssoc<LiveIntervals>> {
    AssocView { keys: m.key_seq(), vals: Seq::new(m.vals.len() as nat, |i: int| m.vals[i]@) }
}

/// The allocations of the first `upto` functions, under their names; a later
/// function takes the place of an earlier one of the same name.
pub open spec fn allocations_of(funcs: Seq<MachineFunc>, upto: int) -> AssocView<
    RegAssoc<LiveIntervals>,
>
    decreases upto,
{
    if upto <= 0 {
        AssocView { keys: Seq::empty(), vals: Seq::empty() }
    } else {
        allocations_of(funcs, upto - 1).put(
            funcs[upto - 1]@.name,
            allocation_map(allocation(intervals_of(funcs[upto - 1]@.blocks))),
        )
    }
}

} // verus!
