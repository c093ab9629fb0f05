//! Why renaming yields single assignment: every name that renaming issues is
//! new, so no two instructions that were renamed define the same name.

use crate::decimal::{digits_of, is_digit, lemma_digits_of};
use crate::function::BlockView;
use crate::ir::InstrView;
use crate::names::AssocView;
use crate::rename::{bump_counter, fresh_name, issued_name, next_count, renamed_instr, RenameState};
use crate::frontier::{below, layered, lemma_level_of, level_of};
use crate::walk::{
    block_filled, body_renamed, defs_of, phis_renamed, succs_filled, walk_block, walk_children, Walk,
};
use vstd::prelude::*;

verus! {

/// `name` has been issued: it is the `n`-th name of some name whose counter
/// has reached `n`.
pub open spec fn issued(counter: AssocView<usize>, name: Seq<char>) -> bool {
    exists|k: int, n: nat|
        0 <= k < counter.keys.len() && 1 <= n <= counter.vals[k] && name == #[trigger] fresh_name(
            counter.keys[k],
            n,
        )
}

/// No counter has reached the largest machine number.
pub open spec fn not_exhausted(counter: AssocView<usize>) -> bool {
    forall|k: int| 0 <= k < counter.keys.len() ==> #[trigger] counter.vals[k] < usize::MAX
}

/// Every counter of `a` is a counter of `b`, and stands no higher in `a`.
pub open spec fn counters_below(a: AssocView<usize>, b: AssocView<usize>) -> bool {
    forall|k: int|
        0 <= k < a.keys.len() ==> b.contains(#[trigger] a.keys[k]) && a.vals[k] <= b.get(a.keys[k])
}

/// Two issued names are the same name only if they were issued for the same
/// name under the same number.
pub proof fn lemma_fresh_name_injective(v1: Seq<char>, n1: nat, v2: Seq<char>, n2: nat)
    requires
        fresh_name(v1, n1) == fresh_name(v2, n2),
    ensures
        v1 == v2,
        n1 == n2,
{
    let d1 = digits_of(n1);
    let d2 = digits_of(n2);
    lemma_digits_of(n1);
    lemma_digits_of(n2);
    let s1 = fresh_name(v1, n1);
    let s2 = fresh_name(v2, n2);
    assert(s1.len() == v1.len() + 1 + d1.len());
    assert(s2.len() == v2.len() + 1 + d2.len());
    assert(s1[v1.len() as int] == '$');
    assert(s2[v2.len() as int] == '$');
    if d1.len() < d2.len() {
        let p = v1.len() as int;
        assert(p >= v2.len() + 1);
        assert(s2[p] == d2[p - v2.len() - 1]);
        assert(is_digit(d2[p - v2.len() - 1]));
    }
    if d2.len() < d1.len() {
        let p = v2.len() as int;
        assert(p >= v1.len() + 1);
        assert(s1[p] == d1[p - v1.len() - 1]);
        assert(is_digit(d1[p - v1.len() - 1]));
    }
    assert(v1.len() == v2.len());
    assert(v1 =~= v2) by {
        assert forall|i: int| 0 <= i < v1.len() implies v1[i] == v2[i] by {
            assert(s1[i] == v1[i]);
            assert(s2[i] == v2[i]);
        }
    }
    assert(d1 =~= d2) by {
        assert forall|i: int| 0 <= i < d1.len() implies d1[i] == d2[i] by {
            assert(s1[v1.len() + 1 + i] == d1[i]);
            assert(s2[v2.len() + 1 + i] == d2[i]);
        }
    }
}

/// Issuing a name for `v` yields a name that had not been issued, keeps
/// every issued name issued, and lets no counter fall.
pub proof fn lemma_issue(counter: AssocView<usize>, v: Seq<char>)
    requires
        counter.wf(),
        not_exhausted(bump_counter(counter, v)),
    ensures
        bump_counter(counter, v).wf(),
        !issued(counter, issued_name(counter, v)),
        issued(bump_counter(counter, v), issued_name(counter, v)),
        forall|x: Seq<char>| issued(counter, x) ==> issued(bump_counter(counter, v), x),
        counters_below(counter, bump_counter(counter, v)),
        not_exhausted(counter),
{
    let after = bump_counter(counter, v);
    let c = next_count(counter, v);
    counter.lemma_put_wf(v, c);
    let p = after.position(v);
    assert(after.keys[p] == v);
    assert(after.vals[p] == c);
    assert(c < usize::MAX);
    let before: nat = if counter.contains(v) {
        counter.get(v) as nat
    } else {
        0
    };
    assert(c == before + 1);
    let name = issued_name(counter, v);
    assert(name == fresh_name(v, c as nat));
    if issued(counter, name) {
        let (k, n) = choose|k: int, n: nat|
            0 <= k < counter.keys.len() && 1 <= n <= counter.vals[k] && name == #[trigger] fresh_name(
                counter.keys[k],
                n,
            );
        lemma_fresh_name_injective(counter.keys[k], n, v, c as nat);
        assert(counter.contains(v));
        assert(counter.position(v) == k) by {
            let q = counter.position(v);
            assert(counter.keys[q] == v);
        }
    }
    assert(issued(after, name)) by {
        assert(name == fresh_name(after.keys[p], c as nat));
    }
    assert forall|k: int| 0 <= k < counter.keys.len() implies after.contains(
        #[trigger] counter.keys[k],
    ) && counter.vals[k] <= after.get(counter.keys[k]) by {
        let key = counter.keys[k];
        assert(counter.contains(key));
        assert(counter.position(key) == k) by {
            let q = counter.position(key);
            assert(counter.keys[q] == key);
        }
    }
    assert forall|x: Seq<char>| issued(counter, x) implies issued(after, x) by {
        let (k, n) = choose|k: int, n: nat|
            0 <= k < counter.keys.len() && 1 <= n <= counter.vals[k] && x == #[trigger] fresh_name(
                counter.keys[k],
                n,
            );
        let key = counter.keys[k];
        assert(after.contains(key) && counter.vals[k] <= after.get(key));
        let q = after.position(key);
        assert(after.keys[q] == key);
        assert(x == fresh_name(after.keys[q], n));
    }
    assert forall|k: int| 0 <= k < counter.keys.len() implies #[trigger] counter.vals[k]
        < usize::MAX by {
        let key = counter.keys[k];
        assert(after.contains(key) && counter.vals[k] <= after.get(key));
        let q = after.position(key);
        assert(after.vals[q] < usize::MAX);
    }
}

/// The names that the instructions of a function define: one row for each
/// block.
pub type DefTable = Seq<Seq<Option<Seq<char>>>>;

/// At every marked place stands a definition whose name has been issued, and
/// no two marked places hold the same name.
pub open spec fn unique_defs(d: DefTable, marked: Set<(int, int)>, counter: AssocView<usize>) -> bool {
    &&& forall|b: int, j: int|
        #[trigger] marked.contains((b, j)) ==> 0 <= b < d.len() && 0 <= j < d[b].len()
            && d[b][j] is Some && issued(counter, d[b][j]->0)
    &&& forall|b1: int, j1: int, b2: int, j2: int|
        #[trigger] marked.contains((b1, j1)) && #[trigger] marked.contains((b2, j2)) && (b1, j1) != (
            b2,
            j2,
        ) ==> d[b1][j1] != d[b2][j2]
}

/// Two tables of one shape: equally many rows, equally long, with
/// definitions at the same places.
pub open spec fn same_places(a: DefTable, b: DefTable) -> bool {
    &&& a.len() == b.len()
    &&& forall|r: int| 0 <= r < a.len() ==> (#[trigger] a[r]).len() == b[r].len()
    &&& forall|r: int, j: int|
        0 <= r < a.len() && 0 <= j < a[r].len() ==> ((#[trigger] a[r][j]) is Some <==> b[r][j] is Some)
}

/// The places of the given blocks at which a definition stands.
pub open spec fn def_places(d: DefTable, blocks: Set<int>) -> Set<(int, int)> {
    Set::new(
        |p: (int, int)|
            blocks.contains(p.0) && 0 <= p.0 < d.len() && 0 <= p.1 < d[p.0].len() && d[p.0][p.1] is Some,
    )
}

/// The row of a list of instructions.
pub open spec fn row_of(instrs: Seq<InstrView>) -> Seq<Option<Seq<char>>> {
    Seq::new(instrs.len(), |i: int| instrs[i].def())
}

/// Standing no higher carries over.
proof fn lemma_counters_below_trans(a: AssocView<usize>, b: AssocView<usize>, c: AssocView<usize>)
    requires
        b.wf(),
        counters_below(a, b),
        counters_below(b, c),
    ensures
        counters_below(a, c),
{
    assert forall|k: int| 0 <= k < a.keys.len() implies c.contains(#[trigger] a.keys[k]) && a.vals[k]
        <= c.get(a.keys[k]) by {
        let key = a.keys[k];
        assert(b.contains(key));
        let q = b.position(key);
        assert(b.keys[q] == key);
        assert(c.contains(b.keys[q]) && b.vals[q] <= c.get(b.keys[q]));
    }
}

/// Counters that stand no higher than counters that are not exhausted are
/// not exhausted.
proof fn lemma_below_not_exhausted(a: AssocView<usize>, b: AssocView<usize>)
    requires
        counters_below(a, b),
        not_exhausted(b),
    ensures
        not_exhausted(a),
{
    assert forall|k: int| 0 <= k < a.keys.len() implies #[trigger] a.vals[k] < usize::MAX by {
        let key = a.keys[k];
        assert(b.contains(key) && a.vals[k] <= b.get(key));
        let q = b.position(key);
        assert(b.keys[q] == key);
        assert(b.vals[q] < usize::MAX);
    }
}

/// Issuing a name keeps the counters well formed and lets none fall.
proof fn lemma_bump_mono(counter: AssocView<usize>, v: Seq<char>)
    requires
        counter.wf(),
    ensures
        bump_counter(counter, v).wf(),
        counters_below(counter, bump_counter(counter, v)),
{
    let after = bump_counter(counter, v);
    let c = next_count(counter, v);
    counter.lemma_put_wf(v, c);
    assert forall|k: int| 0 <= k < counter.keys.len() implies after.contains(
        #[trigger] counter.keys[k],
    ) && counter.vals[k] <= after.get(counter.keys[k]) by {
        let key = counter.keys[k];
        assert(counter.contains(key));
        assert(counter.position(key) == k) by {
            let q = counter.position(key);
            assert(counter.keys[q] == key);
        }
    }
}

/// One definition rewritten with a newly issued name stays apart from every
/// marked definition.
proof fn lemma_rewrite(
    d: DefTable,
    marked: Set<(int, int)>,
    counter: AssocView<usize>,
    b: int,
    j: int,
    v: Seq<char>,
)
    requires
        unique_defs(d, marked, counter),
        counter.wf(),
        not_exhausted(bump_counter(counter, v)),
        0 <= b < d.len(),
        0 <= j < d[b].len(),
    ensures
        unique_defs(
            d.update(b, d[b].update(j, Some(issued_name(counter, v)))),
            marked.insert((b, j)),
            bump_counter(counter, v),
        ),
{
    lemma_issue(counter, v);
    let name = issued_name(counter, v);
    let d2 = d.update(b, d[b].update(j, Some(name)));
    let m2 = marked.insert((b, j));
    let c2 = bump_counter(counter, v);
    assert forall|x: int, y: int| #[trigger] m2.contains((x, y)) implies 0 <= x < d2.len() && 0 <= y
        < d2[x].len() && d2[x][y] is Some && issued(c2, d2[x][y]->0) by {
        if (x, y) != (b, j) {
            assert(marked.contains((x, y)));
            assert(d2[x][y] == d[x][y]);
        }
    }
    assert forall|x1: int, y1: int, x2: int, y2: int|
        #[trigger] m2.contains((x1, y1)) && #[trigger] m2.contains((x2, y2)) && (x1, y1) != (
            x2,
            y2,
        ) implies d2[x1][y1] != d2[x2][y2] by {
        if (x1, y1) != (b, j) && (x2, y2) != (b, j) {
            assert(marked.contains((x1, y1)) && marked.contains((x2, y2)));
            assert(d2[x1][y1] == d[x1][y1]);
            assert(d2[x2][y2] == d[x2][y2]);
        } else if (x1, y1) == (b, j) {
            assert(marked.contains((x2, y2)));
            assert(d2[x2][y2] == d[x2][y2]);
            assert(issued(counter, d[x2][y2]->0));
        } else {
            assert(marked.contains((x1, y1)));
            assert(d2[x1][y1] == d[x1][y1]);
            assert(issued(counter, d[x1][y1]->0));
        }
    }
}

/// The places of block `b` among the first `upto` at which a φ stands.
pub open spec fn phi_places(b: int, instrs: Seq<InstrView>, upto: int) -> Set<(int, int)> {
    Set::new(|p: (int, int)| p.0 == b && 0 <= p.1 < upto && p.1 < instrs.len() && instrs[p.1] is Phi)
}

/// The places of block `b` among the first `upto` at which an instruction
/// that is no φ defines a name.
pub open spec fn body_places(b: int, instrs: Seq<InstrView>, upto: int) -> Set<(int, int)> {
    Set::new(
        |p: (int, int)|
            p.0 == b && 0 <= p.1 < upto && p.1 < instrs.len() && !(instrs[p.1] is Phi)
                && instrs[p.1].def() is Some,
    )
}

proof fn lemma_phis(
    st: RenameState,
    instrs: Seq<InstrView>,
    upto: int,
    d: DefTable,
    marked: Set<(int, int)>,
    b: int,
)
    requires
        0 <= upto <= instrs.len(),
        st.counter.wf(),
        0 <= b < d.len(),
        d[b] == row_of(instrs),
        unique_defs(d, marked, st.counter),
    ensures
        ({
            let (st2, instrs2) = phis_renamed(st, instrs, upto);
            &&& st2.counter.wf()
            &&& counters_below(st.counter, st2.counter)
            &&& instrs2.len() == instrs.len()
            &&& forall|j: int| upto <= j < instrs.len() ==> instrs2[j] == instrs[j]
            &&& forall|j: int|
                0 <= j < instrs.len() ==> {
                    &&& (#[trigger] instrs2[j]) is Phi <==> instrs[j] is Phi
                    &&& instrs2[j].def() is Some <==> instrs[j].def() is Some
                    &&& instrs2[j] is Phi ==> instrs2[j]->Phi_sources == instrs[j]->Phi_sources
                    &&& !(instrs[j] is Phi) ==> instrs2[j] == instrs[j]
                }
            &&& not_exhausted(st2.counter) ==> unique_defs(
                d.update(b, row_of(instrs2)),
                marked.union(phi_places(b, instrs, upto)),
                st2.counter,
            )
        }),
    decreases upto,
{
    if upto <= 0 {
        assert(d.update(b, row_of(instrs)) =~= d);
        assert(marked.union(phi_places(b, instrs, 0)) =~= marked);
        assert forall|k: int| 0 <= k < st.counter.keys.len() implies st.counter.contains(
            #[trigger] st.counter.keys[k],
        ) && st.counter.vals[k] <= st.counter.get(st.counter.keys[k]) by {
            let key = st.counter.keys[k];
            let q = st.counter.position(key);
            assert(st.counter.keys[q] == key);
        }
    } else {
        lemma_phis(st, instrs, upto - 1, d, marked, b);
        let (st1, i1) = phis_renamed(st, instrs, upto - 1);
        let (st2, i2) = phis_renamed(st, instrs, upto);
        let instr = instrs[upto - 1];
        let m1 = marked.union(phi_places(b, instrs, upto - 1));
        let m2 = marked.union(phi_places(b, instrs, upto));
        let d1 = d.update(b, row_of(i1));
        let d2 = d.update(b, row_of(i2));
        assert(i1[upto - 1] == instr);
        match instr {
            InstrView::Phi { dest, sources } => {
                lemma_bump_mono(st1.counter, dest);
                lemma_counters_below_trans(st.counter, st1.counter, st2.counter);
                if not_exhausted(st2.counter) {
                    lemma_below_not_exhausted(st1.counter, st2.counter);
                    lemma_rewrite(d1, m1, st1.counter, b, upto - 1, dest);
                    assert(d1.update(b, d1[b].update(upto - 1, Some(issued_name(st1.counter, dest))))
                        =~= d2) by {
                        assert(d1[b].update(upto - 1, Some(issued_name(st1.counter, dest)))
                            =~= row_of(i2));
                    }
                    assert(m1.insert((b, upto - 1)) =~= m2);
                }
            },
            _ => {
                assert(i2 =~= i1);
                assert(m1 =~= m2);
            },
        }
    }
}

proof fn lemma_body(
    st: RenameState,
    instrs: Seq<InstrView>,
    upto: int,
    d: DefTable,
    marked: Set<(int, int)>,
    b: int,
)
    requires
        0 <= upto <= instrs.len(),
        st.counter.wf(),
        0 <= b < d.len(),
        d[b] == row_of(instrs),
        unique_defs(d, marked, st.counter),
    ensures
        ({
            let (st2, instrs2) = body_renamed(st, instrs, upto);
            &&& st2.counter.wf()
            &&& counters_below(st.counter, st2.counter)
            &&& instrs2.len() == instrs.len()
            &&& forall|j: int| upto <= j < instrs.len() ==> instrs2[j] == instrs[j]
            &&& forall|j: int|
                0 <= j < instrs.len() ==> {
                    &&& (#[trigger] instrs2[j]) is Phi <==> instrs[j] is Phi
                    &&& instrs2[j].def() is Some <==> instrs[j].def() is Some
                    &&& instrs[j] is Phi ==> instrs2[j] == instrs[j]
                }
            &&& not_exhausted(st2.counter) ==> unique_defs(
                d.update(b, row_of(instrs2)),
                marked.union(body_places(b, instrs, upto)),
                st2.counter,
            )
        }),
    decreases upto,
{
    if upto <= 0 {
        assert(d.update(b, row_of(instrs)) =~= d);
        assert(marked.union(body_places(b, instrs, 0)) =~= marked);
        assert forall|k: int| 0 <= k < st.counter.keys.len() implies st.counter.contains(
            #[trigger] st.counter.keys[k],
        ) && st.counter.vals[k] <= st.counter.get(st.counter.keys[k]) by {
            let key = st.counter.keys[k];
            let q = st.counter.position(key);
            assert(st.counter.keys[q] == key);
        }
    } else {
        lemma_body(st, instrs, upto - 1, d, marked, b);
        let (st1, i1) = body_renamed(st, instrs, upto - 1);
        let (st2, i2) = body_renamed(st, instrs, upto);
        let instr = instrs[upto - 1];
        let m1 = marked.union(body_places(b, instrs, upto - 1));
        let m2 = marked.union(body_places(b, instrs, upto));
        let d1 = d.update(b, row_of(i1));
        let d2 = d.update(b, row_of(i2));
        assert(i1[upto - 1] == instr);
        let renamed = renamed_instr(st1, instr);
        assert(renamed is Phi <==> instr is Phi);
        assert(instr is Phi ==> renamed == instr);
        if !(instr is Phi) && instr.def() is Some {
            let dest = instr.def()->0;
            assert(st2 == st1.issue(dest));
            assert(renamed.def() == Some(issued_name(st1.counter, dest)));
            lemma_bump_mono(st1.counter, dest);
            lemma_counters_below_trans(st.counter, st1.counter, st2.counter);
            if not_exhausted(st2.counter) {
                lemma_below_not_exhausted(st1.counter, st2.counter);
                lemma_rewrite(d1, m1, st1.counter, b, upto - 1, dest);
                assert(d1.update(b, d1[b].update(upto - 1, Some(issued_name(st1.counter, dest))))
                    =~= d2) by {
                    assert(d1[b].update(upto - 1, Some(issued_name(st1.counter, dest))) =~= row_of(
                        i2,
                    ));
                }
                assert(m1.insert((b, upto - 1)) =~= m2);
            }
        } else {
            assert(st2 == st1);
            assert(renamed.def() == instr.def());
            assert(row_of(i2) =~= row_of(i1));
            assert(m1 =~= m2);
        }
    }
}

/// Two graphs with the same blocks, edges and instruction counts.
pub open spec fn same_frame(a: Seq<BlockView>, b: Seq<BlockView>) -> bool {
    &&& a.len() == b.len()
    &&& forall|m: int|
        0 <= m < a.len() ==> (#[trigger] a[m]).succs == b[m].succs && a[m].preds == b[m].preds
            && a[m].instrs.len() == b[m].instrs.len()
}

/// Every successor is a block, and the lists of children form a forest.
pub open spec fn walkable(g: Seq<BlockView>, tree: Seq<Seq<usize>>) -> bool {
    &&& tree.len() == g.len()
    &&& forall|m: int, k: int|
        0 <= m < g.len() && 0 <= k < g[m].succs.len() ==> (#[trigger] g[m].succs[k]) < g.len()
    &&& layered(tree)
}

/// The blocks that the walk from `b` renames.
pub open spec fn visited(tree: Seq<Seq<usize>>, b: usize) -> Set<int>
    decreases level_of(tree)[b as int], 1int, 0int,
{
    if b >= tree.len() {
        Set::empty()
    } else {
        visited_children(tree, b, tree[b as int].len() as int).insert(b as int)
    }
}

/// The blocks that the walks from the first `upto` children of `b` rename.
pub open spec fn visited_children(tree: Seq<Seq<usize>>, b: usize, upto: int) -> Set<int>
    decreases level_of(tree)[b as int], 0int, upto,
{
    if upto <= 0 || b >= tree.len() {
        Set::empty()
    } else {
        let c = tree[b as int][upto - 1];
        if below(tree, b, c) {
            visited_children(tree, b, upto - 1).union(visited(tree, c))
        } else {
            visited_children(tree, b, upto - 1)
        }
    }
}

proof fn lemma_same_places_trans(a: DefTable, b: DefTable, c: DefTable)
    requires
        same_places(a, b),
        same_places(b, c),
    ensures
        same_places(a, c),
{
    assert forall|r: int| 0 <= r < a.len() implies (#[trigger] a[r]).len() == c[r].len() by {
        assert(a[r].len() == b[r].len());
        assert(b[r].len() == c[r].len());
    }
    assert forall|r: int, j: int| 0 <= r < a.len() && 0 <= j < a[r].len() implies ((
    #[trigger] a[r][j]) is Some <==> c[r][j] is Some) by {
        assert(a[r].len() == b[r].len());
        assert(a[r][j] is Some <==> b[r][j] is Some);
        assert(b[r][j] is Some <==> c[r][j] is Some);
    }
}

pub proof fn lemma_same_frame_trans(a: Seq<BlockView>, b: Seq<BlockView>, c: Seq<BlockView>)
    requires
        same_frame(a, b),
        same_frame(b, c),
    ensures
        same_frame(a, c),
{
    assert forall|m: int| 0 <= m < a.len() implies (#[trigger] a[m]).succs == c[m].succs && a[m].preds
        == c[m].preds && a[m].instrs.len() == c[m].instrs.len() by {
        assert(a[m].succs == b[m].succs);
        assert(b[m].succs == c[m].succs);
    }
}

pub proof fn lemma_walkable_frame(a: Seq<BlockView>, b: Seq<BlockView>, tree: Seq<Seq<usize>>)
    requires
        walkable(a, tree),
        same_frame(a, b),
    ensures
        walkable(b, tree),
{
    assert forall|m: int, k: int| 0 <= m < b.len() && 0 <= k < b[m].succs.len() implies (
    #[trigger] b[m].succs[k]) < b.len() by {
        assert(a[m].succs == b[m].succs);
        assert(a[m].succs[k] < a.len());
    }
}

/// Filling φ sources changes no definition.
pub proof fn lemma_filled(
    stacks: AssocView<Seq<Seq<char>>>,
    g: Seq<BlockView>,
    orig: Seq<Seq<Option<Seq<char>>>>,
    b: usize,
    upto: int,
)
    requires
        b < g.len(),
        0 <= upto <= g[b as int].succs.len(),
        forall|k: int| 0 <= k < g[b as int].succs.len() ==> (#[trigger] g[b as int].succs[k]) < g.len(),
    ensures
        same_frame(g, succs_filled(stacks, g, orig, b, upto)),
        defs_of(succs_filled(stacks, g, orig, b, upto)) == defs_of(g),
    decreases upto,
{
    if upto > 0 {
        lemma_filled(stacks, g, orig, b, upto - 1);
        let g1 = succs_filled(stacks, g, orig, b, upto - 1);
        let s = g[b as int].succs[upto - 1] as int;
        let g2 = succs_filled(stacks, g, orig, b, upto);
        let filled = block_filled(stacks, g1[s], orig[s], b);
        assert(g2 == g1.update(s, filled));
        assert(defs_of(g2) =~= defs_of(g1)) by {
            assert forall|m: int| 0 <= m < g2.len() implies defs_of(g2)[m] == defs_of(g1)[m] by {
                if m == s {
                    assert(defs_of(g2)[m] =~= defs_of(g1)[m]);
                }
            }
        }
        assert(same_frame(g1, g2));
        lemma_same_frame_trans(g, g1, g2);
    } else {
        assert(same_frame(g, g));
    }
}

/// The table of a graph in which block `b` has got new instructions.
pub proof fn lemma_defs_of_update(g: Seq<BlockView>, b: int, block: BlockView)
    requires
        0 <= b < g.len(),
    ensures
        defs_of(g.update(b, block)) == defs_of(g).update(b, row_of(block.instrs)),
{
    assert(defs_of(g.update(b, block)) =~= defs_of(g).update(b, row_of(block.instrs))) by {
        assert forall|m: int| 0 <= m < g.len() implies defs_of(g.update(b, block))[m] == defs_of(
            g,
        ).update(b, row_of(block.instrs))[m] by {
            if m == b {
                assert(defs_of(g.update(b, block))[m] =~= row_of(block.instrs));
            }
        }
    }
}

proof fn lemma_walk_block(
    tree: Seq<Seq<usize>>,
    orig: Seq<Seq<Option<Seq<char>>>>,
    w: Walk,
    b: usize,
    marked: Set<(int, int)>,
)
    requires
        w.st.counter.wf(),
        b < tree.len(),
        walkable(w.g, tree),
        unique_defs(defs_of(w.g), marked, w.st.counter),
    ensures
        ({
            let w2 = walk_block(tree, orig, w, b);
            &&& w2.st.counter.wf()
            &&& counters_below(w.st.counter, w2.st.counter)
            &&& same_frame(w.g, w2.g)
            &&& same_places(defs_of(w.g), defs_of(w2.g))
            &&& not_exhausted(w2.st.counter) ==> unique_defs(
                defs_of(w2.g),
                marked.union(def_places(defs_of(w2.g), visited(tree, b))),
                w2.st.counter,
            )
        }),
    decreases level_of(tree)[b as int], 1int, 0int,
{
    let g = w.g;
    let d = defs_of(g);
    let instrs = g[b as int].instrs;
    let len = instrs.len() as int;
    assert(d[b as int] =~= row_of(instrs));
    lemma_phis(w.st, instrs, len, d, marked, b as int);
    let (st1, instrs1) = phis_renamed(w.st, instrs, len);
    let d1 = d.update(b as int, row_of(instrs1));
    let m1 = marked.union(phi_places(b as int, instrs, len));
    // Until the counters are known not to be exhausted, the table is only
    // known to keep its shape; the order of the names is taken up below.
    let (st2, instrs2) = body_renamed(st1, instrs1, len);
    let block2 = BlockView {
        label: g[b as int].label,
        instrs: instrs2,
        preds: g[b as int].preds,
        succs: g[b as int].succs,
    };
    let g2 = g.update(b as int, block2);
    let d2 = d1.update(b as int, row_of(instrs2));
    assert(d1[b as int] == row_of(instrs1));
    // The shape of the table after the block itself.
    lemma_defs_of_update(g, b as int, block2);
    assert(defs_of(g2) =~= d2);
    assert(same_frame(g, g2)) by {
        lemma_body_shape(st1, instrs1, len);
    }
    lemma_body_shape(st1, instrs1, len);
    assert(same_places(d, d2)) by {
        assert forall|r: int, j: int| 0 <= r < d.len() && 0 <= j < d[r].len() implies ((
        #[trigger] d[r][j]) is Some <==> d2[r][j] is Some) by {
            if r == b {
                assert(instrs1[j].def() is Some <==> instrs[j].def() is Some);
                assert(instrs2[j].def() is Some <==> instrs1[j].def() is Some);
            }
        }
    }
    lemma_body_mono(st1, instrs1, len);
    lemma_counters_below_trans(w.st.counter, st1.counter, st2.counter);
    lemma_walkable_frame(g, g2, tree);
    lemma_filled(st2.stacks, g2, orig, b, g2[b as int].succs.len() as int);
    let g3 = succs_filled(st2.stacks, g2, orig, b, g2[b as int].succs.len() as int);
    lemma_same_frame_trans(g, g2, g3);
    lemma_walkable_frame(g, g3, tree);
    let w3 = Walk { st: st2, g: g3 };
    let m2 = m1.union(body_places(b as int, instrs1, len));
    if not_exhausted(st2.counter) {
        lemma_below_not_exhausted(st1.counter, st2.counter);
        lemma_body(st1, instrs1, len, d1, m1, b as int);
        assert(unique_defs(defs_of(g3), m2, st2.counter));
        lemma_walk_children(tree, orig, w3, b, tree[b as int].len() as int, m2);
    } else {
        lemma_walk_children(tree, orig, w3, b, tree[b as int].len() as int, Set::empty());
    }
    let w4 = walk_children(tree, orig, w3, b, tree[b as int].len() as int);
    lemma_counters_below_trans(w.st.counter, st2.counter, w4.st.counter);
    lemma_same_frame_trans(g, g3, w4.g);
    lemma_same_places_trans(d, defs_of(g3), defs_of(w4.g));
    let w5 = walk_block(tree, orig, w, b);
    assert(w5.g == w4.g);
    assert(w5.st.counter == w4.st.counter);
    if not_exhausted(w5.st.counter) {
        lemma_below_not_exhausted(st2.counter, w4.st.counter);
        let d4 = defs_of(w4.g);
        let kids = visited_children(tree, b, tree[b as int].len() as int);
        let m4 = m2.union(def_places(d4, kids));
        assert(unique_defs(d4, m4, w4.st.counter));
        let want = marked.union(def_places(d4, visited(tree, b)));
        assert(want =~= m4) by {
            assert forall|p: (int, int)| want.contains(p) <==> m4.contains(p) by {
                let (x, y) = p;
                if x == b && 0 <= y < len {
                    assert(d4[x].len() == d[x].len());
                    assert(d[x][y] is Some <==> d4[x][y] is Some);
                    assert(d[x][y] == instrs[y].def());
                    assert(instrs1[y] is Phi <==> instrs[y] is Phi);
                    assert(instrs1[y].def() is Some <==> instrs[y].def() is Some);
                    if instrs[y] is Phi {
                        assert(instrs[y].def() is Some);
                    }
                }
                if x == b {
                    assert(d4[x].len() == d[x].len());
                }
            }
        }
    }
}

proof fn lemma_walk_children(
    tree: Seq<Seq<usize>>,
    orig: Seq<Seq<Option<Seq<char>>>>,
    w: Walk,
    b: usize,
    upto: int,
    marked: Set<(int, int)>,
)
    requires
        w.st.counter.wf(),
        b < tree.len(),
        0 <= upto <= tree[b as int].len(),
        walkable(w.g, tree),
        unique_defs(defs_of(w.g), marked, w.st.counter),
    ensures
        ({
            let w2 = walk_children(tree, orig, w, b, upto);
            &&& w2.st.counter.wf()
            &&& counters_below(w.st.counter, w2.st.counter)
            &&& same_frame(w.g, w2.g)
            &&& same_places(defs_of(w.g), defs_of(w2.g))
            &&& not_exhausted(w2.st.counter) ==> unique_defs(
                defs_of(w2.g),
                marked.union(def_places(defs_of(w2.g), visited_children(tree, b, upto))),
                w2.st.counter,
            )
        }),
    decreases level_of(tree)[b as int], 0int, upto,
{
    if upto <= 0 {
        assert(same_frame(w.g, w.g));
        assert(marked.union(def_places(defs_of(w.g), visited_children(tree, b, upto))) =~= marked);
        assert forall|k: int| 0 <= k < w.st.counter.keys.len() implies w.st.counter.contains(
            #[trigger] w.st.counter.keys[k],
        ) && w.st.counter.vals[k] <= w.st.counter.get(w.st.counter.keys[k]) by {
            let key = w.st.counter.keys[k];
            let q = w.st.counter.position(key);
            assert(w.st.counter.keys[q] == key);
        }
    } else {
        let c = tree[b as int][upto - 1];
        lemma_level_of(tree);
        assert(below(tree, b, c));
        let w1 = walk_children(tree, orig, w, b, upto - 1);
        let w2 = walk_children(tree, orig, w, b, upto);
        assert(w2 == walk_block(tree, orig, w1, c));
        lemma_walk_children(tree, orig, w, b, upto - 1, marked);
        lemma_walkable_frame(w.g, w1.g, tree);
        let d1 = defs_of(w1.g);
        let m1 = marked.union(def_places(d1, visited_children(tree, b, upto - 1)));
        // The shape and the counters, whatever the counters hold.
        lemma_walk_block(tree, orig, w1, c, Set::empty());
        lemma_counters_below_trans(w.st.counter, w1.st.counter, w2.st.counter);
        lemma_same_frame_trans(w.g, w1.g, w2.g);
        lemma_same_places_trans(defs_of(w.g), d1, defs_of(w2.g));
        if not_exhausted(w2.st.counter) {
            lemma_below_not_exhausted(w1.st.counter, w2.st.counter);
            lemma_walk_block(tree, orig, w1, c, m1);
            let d2 = defs_of(w2.g);
            let got = m1.union(def_places(d2, visited(tree, c)));
            let want = marked.union(def_places(d2, visited_children(tree, b, upto)));
            assert(got =~= want) by {
                assert forall|p: (int, int)| got.contains(p) <==> want.contains(p) by {
                    let (x, y) = p;
                    if 0 <= x < d1.len() && 0 <= y < d1[x].len() {
                        assert(d1[x].len() == d2[x].len());
                        assert(d1[x][y] is Some <==> d2[x][y] is Some);
                    }
                    if 0 <= x < d1.len() {
                        assert(d1[x].len() == d2[x].len());
                    }
                }
            }
        }
    }
}

/// Renaming the instructions of a block keeps their number and their kinds.
proof fn lemma_body_shape(st: RenameState, instrs: Seq<InstrView>, upto: int)
    requires
        0 <= upto <= instrs.len(),
    ensures
        body_renamed(st, instrs, upto).1.len() == instrs.len(),
        forall|j: int|
            0 <= j < instrs.len() ==> ((#[trigger] body_renamed(st, instrs, upto).1[j]).def() is Some
                <==> instrs[j].def() is Some),
    decreases upto,
{
    if upto > 0 {
        lemma_body_shape(st, instrs, upto - 1);
        let (st1, i1) = body_renamed(st, instrs, upto - 1);
        let instr = instrs[upto - 1];
        let renamed = renamed_instr(st1, instr);
        assert(renamed.def() is Some <==> instr.def() is Some);
    }
}

/// Renaming the instructions of a block keeps the counters well formed and
/// lets none fall.
proof fn lemma_body_mono(st: RenameState, instrs: Seq<InstrView>, upto: int)
    requires
        0 <= upto <= instrs.len(),
        st.counter.wf(),
    ensures
        body_renamed(st, instrs, upto).0.counter.wf(),
        counters_below(st.counter, body_renamed(st, instrs, upto).0.counter),
    decreases upto,
{
    if upto <= 0 {
        assert forall|k: int| 0 <= k < st.counter.keys.len() implies st.counter.contains(
            #[trigger] st.counter.keys[k],
        ) && st.counter.vals[k] <= st.counter.get(st.counter.keys[k]) by {
            let key = st.counter.keys[k];
            let q = st.counter.position(key);
            assert(st.counter.keys[q] == key);
        }
    } else {
        lemma_body_mono(st, instrs, upto - 1);
        let (st1, i1) = body_renamed(st, instrs, upto - 1);
        let st2 = body_renamed(st, instrs, upto).0;
        let instr = instrs[upto - 1];
        if !(instr is Phi) && instr.def() is Some {
            lemma_bump_mono(st1.counter, instr.def()->0);
            lemma_counters_below_trans(st.counter, st1.counter, st2.counter);
        }
    }
}

/// The walk from block `b` keeps marked definitions apart and adds those of
/// every block it renames, provided no counter is exhausted at its end.
pub proof fn lemma_walk_from(
    tree: Seq<Seq<usize>>,
    orig: Seq<Seq<Option<Seq<char>>>>,
    w: Walk,
    b: usize,
    marked: Set<(int, int)>,
)
    requires
        w.st.counter.wf(),
        b < tree.len(),
        walkable(w.g, tree),
        unique_defs(defs_of(w.g), marked, w.st.counter),
        not_exhausted(walk_block(tree, orig, w, b).st.counter),
    ensures
        unique_defs(
            defs_of(walk_block(tree, orig, w, b).g),
            marked.union(def_places(defs_of(walk_block(tree, orig, w, b).g), visited(tree, b))),
            walk_block(tree, orig, w, b).st.counter,
        ),
        same_frame(w.g, walk_block(tree, orig, w, b).g),
{
    lemma_walk_block(tree, orig, w, b, marked);
}

} // verus!
