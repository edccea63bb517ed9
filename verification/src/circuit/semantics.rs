use vstd::prelude::*;
use crate::circuit::adaptation::{first_memory, memory_edge, pushed_down};
use crate::circuit::algebraic::{add_column, cols_prefix, row_ok, row_vars, AlgebraicCircuit, Column};
use crate::circuit::lifting::no_self_loops;
use crate::circuit::reactive::ReactiveCircuit;
use vstd::set::fold::{is_fun_commutative, lemma_fold_empty, lemma_fold_insert};

verus! {

/// One step of a product: the product so far times the value of `c`.
pub open spec fn times_atom(atom: spec_fn(Column) -> int) -> spec_fn(int, Column) -> int {
    |acc: int, c: Column| acc * atom(c)
}

/// The product of the values of the variables `s`.
pub open spec fn set_product(s: Set<Column>, atom: spec_fn(Column) -> int) -> int {
    s.fold(1int, times_atom(atom))
}

/// The sum over the products `ps` of the product of their variables.
pub open spec fn sum_products(ps: Seq<Set<Column>>, atom: spec_fn(Column) -> int) -> int
    decreases ps.len(),
{
    if ps.len() == 0 {
        0
    } else {
        sum_products(ps.drop_last(), atom) + set_product(ps.last(), atom)
    }
}

/// The value of node `n` for the leaf values `val`: the sum over its
/// minterms of the product of the values of their variables.
pub open spec fn node_value(nodes: Map<u32, AlgebraicCircuit>, edges: Map<u32, (u32, u32)>, rank: Map<u32, nat>,
    val: spec_fn(u32) -> int, n: u32) -> int
    decreases rank[n], 1nat,
{
    sum_products(nodes[n].products(), atom_value(nodes, edges, rank, val, n))
}

/// The values of the variables of node `n`: a leaf has its value, a memory
/// the value of the child its edge leads to.  A child counts only when
/// `rank` puts it below `n`, which it does for every edge when `rank` ranks
/// the graph.
pub open spec fn atom_value(nodes: Map<u32, AlgebraicCircuit>, edges: Map<u32, (u32, u32)>, rank: Map<u32, nat>,
    val: spec_fn(u32) -> int, n: u32) -> spec_fn(Column) -> int
    decreases rank[n], 0nat,
{
    |c: Column| match c {
        Column::Leaf(l) => val(l),
        Column::Memory(k) => if edges.contains_key(k) && rank[edges[k].1] < rank[n] {
            node_value(nodes, edges, rank, val, edges[k].1)
        } else {
            0
        },
    }
}

/// Whether `rank` puts the target of every edge below its source.
pub open spec fn ranked(edges: Map<u32, (u32, u32)>, rank: Map<u32, nat>) -> bool {
    forall|e: u32| #[trigger] edges.contains_key(e) ==> rank[edges[e].1] < rank[edges[e].0]
}

proof fn lemma_times_commutative(atom: spec_fn(Column) -> int)
    ensures
        is_fun_commutative(times_atom(atom)),
{
    assert forall|a1: Column, a2: Column, b: int| #[trigger] times_atom(atom)(times_atom(atom)(b, a2), a1)
        == times_atom(atom)(times_atom(atom)(b, a1), a2) by {
        let x1 = atom(a1);
        let x2 = atom(a2);
        assert((b * x2) * x1 == (b * x1) * x2) by (nonlinear_arith);
    }
}

/// The product over no variable is one.
pub proof fn lemma_set_product_empty(atom: spec_fn(Column) -> int)
    ensures
        set_product(Set::empty(), atom) == 1,
{
    lemma_fold_empty(1int, times_atom(atom));
}

/// Adding a variable multiplies the product by its value.
pub proof fn lemma_set_product_insert(s: Set<Column>, a: Column, atom: spec_fn(Column) -> int)
    requires
        s.finite(),
        !s.contains(a),
    ensures
        set_product(s.insert(a), atom) == set_product(s, atom) * atom(a),
{
    lemma_times_commutative(atom);
    lemma_fold_insert(s, 1int, times_atom(atom), a);
}

/// The product over a variable of the set and the others.
pub proof fn lemma_set_product_remove(s: Set<Column>, a: Column, atom: spec_fn(Column) -> int)
    requires
        s.finite(),
        s.contains(a),
    ensures
        set_product(s, atom) == set_product(s.remove(a), atom) * atom(a),
{
    assert(s.remove(a).insert(a) =~= s);
    lemma_set_product_insert(s.remove(a), a, atom);
}

/// Products under values that agree on the variables are equal.
pub proof fn lemma_set_product_agree(s: Set<Column>, atom1: spec_fn(Column) -> int, atom2: spec_fn(Column) -> int)
    requires
        s.finite(),
        forall|c: Column| #[trigger] s.contains(c) ==> atom1(c) == atom2(c),
    ensures
        set_product(s, atom1) == set_product(s, atom2),
    decreases s.len(),
{
    if s.len() == 0 {
        assert(s =~= Set::<Column>::empty());
        lemma_set_product_empty(atom1);
        lemma_set_product_empty(atom2);
    } else {
        let a = s.choose();
        assert(s.contains(a));
        lemma_set_product_agree(s.remove(a), atom1, atom2);
        lemma_set_product_remove(s, a, atom1);
        lemma_set_product_remove(s, a, atom2);
    }
}

/// Sums whose products are pairwise equal are equal.
pub proof fn lemma_sum_pointwise(ps: Seq<Set<Column>>, qs: Seq<Set<Column>>, atom1: spec_fn(Column) -> int,
    atom2: spec_fn(Column) -> int)
    requires
        ps.len() == qs.len(),
        forall|i: int| 0 <= i < ps.len() ==> set_product(#[trigger] ps[i], atom1) == set_product(qs[i], atom2),
    ensures
        sum_products(ps, atom1) == sum_products(qs, atom2),
    decreases ps.len(),
{
    if ps.len() > 0 {
        assert forall|i: int| 0 <= i < ps.drop_last().len() implies set_product(#[trigger] ps.drop_last()[i], atom1)
            == set_product(qs.drop_last()[i], atom2) by {
            assert(ps.drop_last()[i] == ps[i]);
            assert(qs.drop_last()[i] == qs[i]);
        }
        lemma_sum_pointwise(ps.drop_last(), qs.drop_last(), atom1, atom2);
        assert(set_product(ps[ps.len() - 1], atom1) == set_product(qs[qs.len() - 1], atom2));
    }
}

/// Multiplying every product by a variable none of them holds multiplies
/// the sum by its value.
pub proof fn lemma_sum_scaled(ps: Seq<Set<Column>>, v: Column, atom: spec_fn(Column) -> int)
    requires
        forall|i: int| 0 <= i < ps.len() ==> (#[trigger] ps[i]).finite() && !ps[i].contains(v),
    ensures
        sum_products(ps.map_values(|p: Set<Column>| p.insert(v)), atom) == sum_products(ps, atom) * atom(v),
    decreases ps.len(),
{
    let qs = ps.map_values(|p: Set<Column>| p.insert(v));
    if ps.len() > 0 {
        let t = ps.drop_last();
        assert forall|i: int| 0 <= i < t.len() implies (#[trigger] t[i]).finite() && !t[i].contains(v) by {
            assert(t[i] == ps[i]);
        }
        lemma_sum_scaled(t, v, atom);
        assert(qs.drop_last() =~= t.map_values(|p: Set<Column>| p.insert(v)));
        lemma_set_product_insert(ps.last(), v, atom);
        let a = sum_products(t, atom);
        let b = set_product(ps.last(), atom);
        let x = atom(v);
        assert(a * x + b * x == (a + b) * x) by (nonlinear_arith);
    }
}

impl ReactiveCircuit {
    /// The value of node `n` under `rank` for the leaf values `val`.
    pub open spec fn value(&self, rank: Map<u32, nat>, val: spec_fn(u32) -> int, n: u32) -> int {
        node_value(self.nodes(), self.edges(), rank, val, n)
    }
}

/// The value of a node does not depend on the ranking.
pub proof fn lemma_rank_free(rc: ReactiveCircuit, r1: Map<u32, nat>, r2: Map<u32, nat>, val: spec_fn(u32) -> int, n: u32)
    requires
        rc.wf(),
        ranked(rc.edges(), r1),
        ranked(rc.edges(), r2),
        rc.nodes().contains_key(n),
    ensures
        rc.value(r1, val, n) == rc.value(r2, val, n),
    decreases r1[n],
{
    let nodes = rc.nodes();
    let edges = rc.edges();
    let ac = nodes[n];
    let a1 = atom_value(nodes, edges, r1, val, n);
    let a2 = atom_value(nodes, edges, r2, val, n);
    assert forall|i: int| 0 <= i < ac.products().len() implies set_product(#[trigger] ac.products()[i], a1)
        == set_product(ac.products()[i], a2) by {
        crate::circuit::pruning::lemma_products_in_cols(ac, i);
        assert forall|c: Column| #[trigger] ac.products()[i].contains(c) implies a1(c) == a2(c) by {
            assert(ac.cols().contains(c));
            if let Column::Memory(k) = c {
                assert(edges.contains_key(k) && edges[k].0 == n);
                lemma_rank_free(rc, r1, r2, val, edges[k].1);
            }
        }
        lemma_set_product_agree(ac.products()[i], a1, a2);
    }
    lemma_sum_pointwise(ac.products(), ac.products(), a1, a2);
}

// ── dropping a leaf keeps the values ─────────────────────────────────────────

/// Whether every node has at most one edge into it.
pub open spec fn single_parents(edges: Map<u32, (u32, u32)>) -> bool {
    forall|e1: u32, e2: u32| #[trigger] edges.contains_key(e1) && #[trigger] edges.contains_key(e2)
        && edges[e1].1 == edges[e2].1 ==> e1 == e2
}

/// Whether every memory of a circuit lies in at most one of its minterms.
pub open spec fn memories_once(ac: AlgebraicCircuit) -> bool {
    forall|i: int, j: int, k: u32| 0 <= i < ac.products().len() && 0 <= j < ac.products().len()
        && #[trigger] ac.products()[i].contains(Column::Memory(k)) && #[trigger] ac.products()[j].contains(Column::Memory(k))
        ==> i == j
}

/// Whether leaf `x` can be dropped from node `n` keeping every value: no
/// edge from a node to itself, at most one edge into a node, every memory
/// of `n` in one minterm, no child of `n` holding the leaf, and no empty
/// minterm in `n`.
pub open spec fn drop_ready(rc: ReactiveCircuit, n: u32, x: u32) -> bool {
    &&& no_self_loops(rc.edges())
    &&& single_parents(rc.edges())
    &&& memories_once(rc.nodes()[n])
    &&& forall|e: u32| #[trigger] rc.edges().contains_key(e) && rc.edges()[e].0 == n
        ==> !rc.nodes()[rc.edges()[e].1].cols().contains(Column::Leaf(x))
    &&& forall|i: int| 0 <= i < rc.nodes()[n].products().len() ==> (#[trigger] rc.nodes()[n].products()[i]).len() > 0
}

/// The edge of the first memory in minterm `i` of node `n`.
pub open spec fn first_mem(rc: ReactiveCircuit, n: u32, i: int) -> Option<u32> {
    first_memory(rc.nodes()[n].rows()[i], rc.nodes()[n].cols())
}

/// Whether node `m` is the child that the first memory of a minterm in
/// `done` of node `n` leads to.
pub open spec fn multiplied(s: ReactiveCircuit, n: u32, done: Set<int>, m: u32) -> bool {
    exists|i: int| #[trigger] done.contains(i) && first_mem(s, n, i) is Some && s.edges()[first_mem(s, n, i)->0].1 == m
}

/// Whether `t` is `s` after the minterms `done` of node `n`, which hold leaf
/// `x`, had the leaf pushed down: the child of the first memory of such a
/// minterm multiplied by the leaf, or (for the minterms in `made`) a new
/// child holding just the leaf, reached by the new edge `made[i]` and
/// wired into the minterm.
pub open spec fn drop_progress(s: ReactiveCircuit, t: ReactiveCircuit, n: u32, x: u32, made: Map<int, u32>, done: Set<int>) -> bool {
    let p = s.nodes()[n].products();
    &&& forall|i: int| #[trigger] done.contains(i) ==> 0 <= i < p.len() && p[i].contains(Column::Leaf(x))
    &&& forall|i: int| #[trigger] made.contains_key(i) <==> done.contains(i) && first_mem(s, n, i) is None
    &&& forall|e: u32| #[trigger] t.edges().contains_key(e) <==> s.edges().contains_key(e)
        || exists|i: int| #[trigger] made.contains_key(i) && made[i] == e
    &&& forall|e: u32| #[trigger] s.edges().contains_key(e) ==> t.edges()[e] == s.edges()[e]
    &&& forall|i: int| #[trigger] made.contains_key(i) ==> {
        let d = t.edges()[made[i]].1;
        &&& !s.edges().contains_key(made[i])
        &&& t.edges()[made[i]].0 == n
        &&& !s.nodes().contains_key(d)
        &&& t.nodes().contains_key(d)
        &&& t.nodes()[d].products() == seq![set![Column::Leaf(x)]]
        &&& t.nodes()[d].cols() == seq![Column::Leaf(x)]
    }
    &&& forall|i: int, j: int| #[trigger] made.contains_key(i) && #[trigger] made.contains_key(j) && i != j ==> made[i] != made[j]
    &&& forall|m: u32| #[trigger] t.nodes().contains_key(m) <==> s.nodes().contains_key(m)
        || exists|i: int| #[trigger] made.contains_key(i) && t.edges()[made[i]].1 == m
    &&& t.nodes()[n].products().len() == p.len()
    &&& forall|i: int| 0 <= i < p.len() ==> #[trigger] t.nodes()[n].products()[i] == if made.contains_key(i) {
        p[i].insert(Column::Memory(made[i]))
    } else {
        p[i]
    }
    &&& cols_prefix(s.nodes()[n].cols(), t.nodes()[n].cols())
    &&& t.nodes()[n].rows().len() == s.nodes()[n].rows().len()
    &&& forall|i: int| 0 <= i < p.len() && !done.contains(i) ==> #[trigger] t.nodes()[n].rows()[i] == s.nodes()[n].rows()[i]
    &&& forall|i: int| #[trigger] done.contains(i) && first_mem(s, n, i) is Some ==> {
        let c = s.edges()[first_mem(s, n, i)->0].1;
        &&& t.nodes()[c].products() == s.nodes()[c].products().map_values(|q: Set<Column>| q.insert(Column::Leaf(x)))
        &&& t.nodes()[c].cols() == add_column(s.nodes()[c].cols(), Column::Leaf(x))
    }
    &&& forall|m: u32| #[trigger] s.nodes().contains_key(m) && m != n && !multiplied(s, n, done, m) ==> t.nodes()[m] == s.nodes()[m]
}

/// Nothing dropped yet.
pub proof fn lemma_drop_progress_start(s: ReactiveCircuit, n: u32, x: u32)
    requires
        s.wf(),
        s.nodes().contains_key(n),
    ensures
        drop_progress(s, s, n, x, Map::empty(), Set::empty()),
{
    assert forall|m: u32| #[trigger] s.nodes().contains_key(m) && m != n && !multiplied(s, n, Set::empty(), m)
        implies s.nodes()[m] == s.nodes()[m] by {}
    let p = s.nodes()[n].products();
    assert(cols_prefix(s.nodes()[n].cols(), s.nodes()[n].cols()));
}

/// The first memory of a row does not change when columns are appended.
proof fn lemma_first_memory_prefix(row: Seq<usize>, c1: Seq<Column>, c2: Seq<Column>)
    requires
        forall|i: int| 0 <= i < row.len() ==> #[trigger] row[i] < c1.len(),
        cols_prefix(c1, c2),
    ensures
        first_memory(row, c1) == first_memory(row, c2),
    decreases row.len(),
{
    if row.len() > 0 {
        assert(row[0] < c1.len());
        assert(c2[row[0] as int] == c1[row[0] as int]);
        let t = row.drop_first();
        assert forall|i: int| 0 <= i < t.len() implies #[trigger] t[i] < c1.len() by { assert(t[i] == row[i + 1]); }
        lemma_first_memory_prefix(t, c1, c2);
    }
}

/// The first memory of a row is one of its variables.
proof fn lemma_first_memory_in(row: Seq<usize>, cols: Seq<Column>)
    ensures
        first_memory(row, cols) matches Some(e) ==> row_vars(row, cols).contains(Column::Memory(e)),
    decreases row.len(),
{
    if row.len() > 0 {
        let t = row.drop_first();
        lemma_first_memory_in(t, cols);
        if let Some(e) = first_memory(row, cols) {
            if row[0] < cols.len() && memory_edge(cols[row[0] as int]) is Some {
                assert(cols[row[0] as int] == Column::Memory(e));
                assert(row.to_set().contains(row[0]));
            } else {
                assert(first_memory(t, cols) == Some(e));
                let c = choose|c: usize| t.to_set().contains(c) && cols[c as int] == Column::Memory(e);
                let q = choose|q: int| 0 <= q < t.len() && t[q] == c;
                assert(row[q + 1] == c);
                assert(row.to_set().contains(c));
            }
        }
    }
}

/// A row with one more column, appended to the columns, gains its variable.
pub proof fn lemma_row_vars_push(m_row: Seq<usize>, t_row: Seq<usize>, m_cols: Seq<Column>, v: Column)
    requires
        forall|i: int| 0 <= i < m_row.len() ==> #[trigger] m_row[i] < m_cols.len(),
        t_row.to_set() == m_row.to_set().insert(m_cols.len() as usize),
        m_cols.len() < usize::MAX,
    ensures
        row_vars(t_row, m_cols.push(v)) == row_vars(m_row, m_cols).insert(v),
{
    let t_cols = m_cols.push(v);
    assert forall|y: Column| row_vars(t_row, t_cols).contains(y) <==> row_vars(m_row, m_cols).insert(v).contains(y) by {
        if row_vars(t_row, t_cols).contains(y) {
            let c = choose|c: usize| t_row.to_set().contains(c) && t_cols[c as int] == y;
            if c != m_cols.len() {
                assert(m_row.to_set().contains(c));
                let q = choose|q: int| 0 <= q < m_row.len() && m_row[q] == c;
                assert(c < m_cols.len());
                assert(m_cols[c as int] == y);
            }
        }
        if y == v {
            assert(t_row.to_set().contains(m_cols.len() as usize));
            assert(t_cols[m_cols.len() as int] == v);
        } else if row_vars(m_row, m_cols).contains(y) {
            let c = choose|c: usize| m_row.to_set().contains(c) && m_cols[c as int] == y;
            let q = choose|q: int| 0 <= q < m_row.len() && m_row[q] == c;
            assert(t_row.to_set().contains(c));
            assert(t_cols[c as int] == y);
        }
    }
    assert(row_vars(t_row, t_cols) =~= row_vars(m_row, m_cols).insert(v));
}

/// The first memory of a minterm of a well-formed circuit is an edge out
/// of its node, in the minterm.
proof fn lemma_first_mem_edge(s: ReactiveCircuit, n: u32, i: int)
    requires
        s.wf(),
        s.nodes().contains_key(n),
        0 <= i < s.nodes()[n].rows().len(),
    ensures
        first_mem(s, n, i) matches Some(e) ==> {
            &&& s.edges().contains_key(e)
            &&& s.edges()[e].0 == n
            &&& s.nodes()[n].products()[i].contains(Column::Memory(e))
            &&& s.nodes().contains_key(s.edges()[e].1)
        },
{
    let ac = s.nodes()[n];
    lemma_first_memory_in(ac.rows()[i], ac.cols());
    if let Some(e) = first_mem(s, n, i) {
        assert(ac.products()[i] == row_vars(ac.rows()[i], ac.cols()));
        let c = choose|c: usize| ac.rows()[i].to_set().contains(c) && ac.cols()[c as int] == Column::Memory(e);
        ac.lemma_wf();
        assert(row_ok(ac.rows()[i], ac.cols().len()));
        let q = choose|q: int| 0 <= q < ac.rows()[i].len() && ac.rows()[i][q] == c;
        assert(ac.cols().contains(Column::Memory(e)));
    }
}

/// Pushing down the leaf of one more minterm keeps the progress.
pub proof fn lemma_drop_step(s: ReactiveCircuit, mid: ReactiveCircuit, t: ReactiveCircuit, n: u32, x: u32,
    made: Map<int, u32>, done: Set<int>, r: int) -> (made2: Map<int, u32>)
    requires
        s.wf(),
        mid.wf(),
        s.nodes().contains_key(n),
        drop_ready(s, n, x),
        drop_progress(s, mid, n, x, made, done),
        0 <= r < s.nodes()[n].products().len(),
        s.nodes()[n].products()[r].contains(Column::Leaf(x)),
        !done.contains(r),
        pushed_down(mid, t, x, n, r),
    ensures
        drop_progress(s, t, n, x, made2, done.insert(r)),
{
    let sn = s.nodes()[n];
    let p = sn.products();
    let done2 = done.insert(r);
    sn.lemma_wf();
    assert(mid.nodes().contains_key(n));
    let mn = mid.nodes()[n];
    mn.lemma_wf();
    mn.lemma_sizes();
    assert(sn.rows().len() == p.len());
    assert(mn.rows()[r] == sn.rows()[r]);
    assert(row_ok(sn.rows()[r], sn.cols().len()));
    lemma_first_memory_prefix(sn.rows()[r], sn.cols(), mn.cols());
    lemma_first_mem_edge(s, n, r);
    assert forall|i: int| #[trigger] done.contains(i) && first_mem(s, n, i) is Some implies {
        let c = s.edges()[first_mem(s, n, i)->0].1;
        &&& s.nodes().contains_key(c)
        &&& c != n
    } by {
        lemma_first_mem_edge(s, n, i);
    }
    if let Some(e) = first_mem(s, n, r) {
        let c = s.edges()[e].1;
        assert(mid.edges()[e] == s.edges()[e]);
        assert(c != n);
        assert(!multiplied(s, n, done, c)) by {
            if multiplied(s, n, done, c) {
                let i = choose|i: int| #[trigger] done.contains(i) && first_mem(s, n, i) is Some && s.edges()[first_mem(s, n, i)->0].1 == c;
                let e2 = first_mem(s, n, i)->0;
                lemma_first_mem_edge(s, n, i);
                assert(e2 == e);
                assert(p[i].contains(Column::Memory(e)));
                assert(i == r);
            }
        }
        assert(mid.nodes()[c] == s.nodes()[c]);
        assert forall|i: int| #[trigger] done2.contains(i) && first_mem(s, n, i) is Some implies {
            let ci = s.edges()[first_mem(s, n, i)->0].1;
            &&& t.nodes()[ci].products() == s.nodes()[ci].products().map_values(|q: Set<Column>| q.insert(Column::Leaf(x)))
            &&& t.nodes()[ci].cols() == add_column(s.nodes()[ci].cols(), Column::Leaf(x))
        } by {
            if i != r {
                let ci = s.edges()[first_mem(s, n, i)->0].1;
                assert(ci != c) by {
                    if ci == c { assert(multiplied(s, n, done, c)); }
                }
                assert(mid.nodes().contains_key(ci));
            }
        }
        assert forall|m: u32| #[trigger] s.nodes().contains_key(m) && m != n && !multiplied(s, n, done2, m)
            implies t.nodes()[m] == s.nodes()[m] by {
            assert(!multiplied(s, n, done, m)) by {
                if multiplied(s, n, done, m) {
                    let i = choose|i: int| #[trigger] done.contains(i) && first_mem(s, n, i) is Some && s.edges()[first_mem(s, n, i)->0].1 == m;
                    assert(done2.contains(i));
                }
            }
            if m == c {
                assert(multiplied(s, n, done2, m)) by { assert(done2.contains(r)); }
            }
            assert(mid.nodes().contains_key(m));
        }
        assert forall|i: int| #[trigger] made.contains_key(i) implies {
            let d = t.edges()[made[i]].1;
            &&& !s.edges().contains_key(made[i])
            &&& t.edges()[made[i]].0 == n
            &&& !s.nodes().contains_key(d)
            &&& t.nodes().contains_key(d)
            &&& t.nodes()[d].products() == seq![set![Column::Leaf(x)]]
            &&& t.nodes()[d].cols() == seq![Column::Leaf(x)]
        } by {
            let d = mid.edges()[made[i]].1;
            assert(d != c);
        }
        assert forall|i: int| 0 <= i < p.len() implies #[trigger] t.nodes()[n].products()[i] == if made.contains_key(i) {
            p[i].insert(Column::Memory(made[i]))
        } else {
            p[i]
        } by {
            assert(t.nodes()[n] == mid.nodes()[n]);
        }
        assert forall|i: int| #[trigger] made.contains_key(i) <==> done2.contains(i) && first_mem(s, n, i) is None by {}
        made
    } else {
        let (nd, e) = choose|nd: u32, e: u32| {
            &&& !mid.nodes().contains_key(nd)
            &&& !mid.edges().contains_key(e)
            &&& t.nodes().dom() == mid.nodes().dom().insert(nd)
            &&& t.edges() == mid.edges().insert(e, (n, nd))
            &&& t.nodes()[nd].cols() == seq![Column::Leaf(x)]
            &&& t.nodes()[nd].products() == seq![set![Column::Leaf(x)]]
            &&& t.nodes()[n].cols() == mid.nodes()[n].cols().push(Column::Memory(e))
            &&& t.nodes()[n].rows().len() == mid.nodes()[n].rows().len()
            &&& forall|q: int| 0 <= q < mid.nodes()[n].rows().len() && q != r
                ==> #[trigger] t.nodes()[n].rows()[q] == mid.nodes()[n].rows()[q]
            &&& t.nodes()[n].rows()[r].to_set()
                == mid.nodes()[n].rows()[r].to_set().insert(mid.nodes()[n].cols().len() as usize)
            &&& forall|m: u32| #[trigger] t.nodes().contains_key(m) && m != nd && m != n
                ==> t.nodes()[m] == mid.nodes()[m]
        };
        let made2 = made.insert(r, e);
        assert(!s.edges().contains_key(e));
        assert(!s.nodes().contains_key(nd));
        assert forall|e2: u32| #[trigger] t.edges().contains_key(e2) <==> s.edges().contains_key(e2)
            || exists|i: int| #[trigger] made2.contains_key(i) && made2[i] == e2 by {
            if e2 == e {
                assert(made2.contains_key(r) && made2[r] == e);
            } else if exists|i: int| #[trigger] made2.contains_key(i) && made2[i] == e2 {
                let i = choose|i: int| #[trigger] made2.contains_key(i) && made2[i] == e2;
                assert(i != r);
                assert(made.contains_key(i) && made[i] == e2);
            } else if mid.edges().contains_key(e2) && !s.edges().contains_key(e2) {
                let i = choose|i: int| #[trigger] made.contains_key(i) && made[i] == e2;
                assert(made2.contains_key(i) && made2[i] == e2);
            }
        }
        assert forall|i: int| #[trigger] made2.contains_key(i) implies {
            let d = t.edges()[made2[i]].1;
            &&& !s.edges().contains_key(made2[i])
            &&& t.edges()[made2[i]].0 == n
            &&& !s.nodes().contains_key(d)
            &&& t.nodes().contains_key(d)
            &&& t.nodes()[d].products() == seq![set![Column::Leaf(x)]]
            &&& t.nodes()[d].cols() == seq![Column::Leaf(x)]
        } by {
            if i != r {
                assert(made.contains_key(i));
                assert(made2[i] == made[i]);
                let d = mid.edges()[made[i]].1;
                assert(made[i] != e);
                assert(t.edges()[made[i]] == mid.edges()[made[i]]);
                assert(mid.nodes().contains_key(d));
                assert(d != nd);
                assert(d != n);
                assert(t.nodes().contains_key(d));
                assert(t.nodes()[d] == mid.nodes()[d]);
            } else {
                assert(made2[r] == e);
                assert(t.edges()[e] == (n, nd));
                assert(t.nodes().contains_key(nd));
            }
        }
        assert forall|i: int, j: int| #[trigger] made2.contains_key(i) && #[trigger] made2.contains_key(j) && i != j
            implies made2[i] != made2[j] by {
            if i != r && j != r {
                assert(made.contains_key(i) && made.contains_key(j));
            } else if i == r {
                assert(made.contains_key(j));
                assert(mid.edges().contains_key(made[j]));
            } else {
                assert(made.contains_key(i));
                assert(mid.edges().contains_key(made[i]));
            }
        }
        assert forall|m: u32| #[trigger] t.nodes().contains_key(m) <==> s.nodes().contains_key(m)
            || exists|i: int| #[trigger] made2.contains_key(i) && t.edges()[made2[i]].1 == m by {
            if m == nd {
                assert(made2.contains_key(r) && t.edges()[made2[r]].1 == nd);
            } else if exists|i: int| #[trigger] made2.contains_key(i) && t.edges()[made2[i]].1 == m {
                let i = choose|i: int| #[trigger] made2.contains_key(i) && t.edges()[made2[i]].1 == m;
                assert(i != r);
                assert(made.contains_key(i) && mid.edges()[made[i]].1 == m);
            } else if mid.nodes().contains_key(m) && !s.nodes().contains_key(m) {
                let i = choose|i: int| #[trigger] made.contains_key(i) && mid.edges()[made[i]].1 == m;
                assert(made2.contains_key(i) && t.edges()[made2[i]].1 == m);
            }
        }
        let tn = t.nodes()[n];
        assert forall|i: int| 0 <= i < p.len() implies #[trigger] tn.products()[i] == if made2.contains_key(i) {
            p[i].insert(Column::Memory(made2[i]))
        } else {
            p[i]
        } by {
            assert(row_ok(mn.rows()[i], mn.cols().len()));
            assert(tn.products()[i] == row_vars(tn.rows()[i], tn.cols()));
            assert(mn.products()[i] == row_vars(mn.rows()[i], mn.cols()));
            if i == r {
                tn.lemma_sizes();
                lemma_row_vars_push(mn.rows()[r], tn.rows()[r], mn.cols(), Column::Memory(e));
            } else {
                assert(cols_prefix(mn.cols(), tn.cols()));
                crate::circuit::algebraic::lemma_row_vars_prefix(mn.rows()[i], mn.cols(), tn.cols());
            }
        }
        assert(tn.products().len() == p.len());
        assert(cols_prefix(sn.cols(), tn.cols()));
        assert forall|i: int| #[trigger] done2.contains(i) && first_mem(s, n, i) is Some implies {
            let ci = s.edges()[first_mem(s, n, i)->0].1;
            &&& t.nodes()[ci].products() == s.nodes()[ci].products().map_values(|q: Set<Column>| q.insert(Column::Leaf(x)))
            &&& t.nodes()[ci].cols() == add_column(s.nodes()[ci].cols(), Column::Leaf(x))
        } by {
            let ci = s.edges()[first_mem(s, n, i)->0].1;
            assert(i != r);
            lemma_first_mem_edge(s, n, i);
            assert(ci != n);
            assert(mid.nodes().contains_key(ci));
            assert(ci != nd);
            assert(t.nodes().contains_key(ci));
            assert(t.nodes()[ci] == mid.nodes()[ci]);
        }
        assert forall|m: u32| #[trigger] s.nodes().contains_key(m) && m != n && !multiplied(s, n, done2, m)
            implies t.nodes()[m] == s.nodes()[m] by {
            assert(!multiplied(s, n, done, m)) by {
                if multiplied(s, n, done, m) {
                    let i = choose|i: int| #[trigger] done.contains(i) && first_mem(s, n, i) is Some && s.edges()[first_mem(s, n, i)->0].1 == m;
                    assert(done2.contains(i));
                }
            }
            assert(mid.nodes().contains_key(m));
            assert(m != nd);
            assert(t.nodes().contains_key(m));
            assert(t.nodes()[m] == mid.nodes()[m]);
        }
        assert forall|i: int| #[trigger] made2.contains_key(i) <==> done2.contains(i) && first_mem(s, n, i) is None by {}
        assert forall|i: int| 0 <= i < p.len() && !done2.contains(i) implies #[trigger] tn.rows()[i] == sn.rows()[i] by {}
        made2
    }
}

/// The ranking of the graph after a drop: one above the old ranking for the
/// old nodes, zero for the new ones.
pub open spec fn raised(s: ReactiveCircuit, f: ReactiveCircuit, rank: Map<u32, nat>) -> Map<u32, nat> {
    Map::new(|m: u32| f.nodes().contains_key(m), |m: u32| if s.nodes().contains_key(m) { rank[m] + 1 } else { 0 })
}

/// Whether `f` is `t` with leaf `x` removed from the circuit of node `n`.
pub open spec fn leaf_removed(t: ReactiveCircuit, f: ReactiveCircuit, n: u32, x: u32) -> bool {
    &&& f.edges() == t.edges()
    &&& f.nodes().dom() == t.nodes().dom()
    &&& forall|m: u32| #[trigger] f.nodes().contains_key(m) && m != n ==> f.nodes()[m] == t.nodes()[m]
    &&& f.nodes()[n].products() == t.nodes()[n].products().map_values(|q: Set<Column>| q.remove(Column::Leaf(x)))
}

/// The value of a circuit that is the leaf `x` alone.
proof fn lemma_single_leaf_value(f: ReactiveCircuit, rank: Map<u32, nat>, val: spec_fn(u32) -> int, d: u32, x: u32)
    requires
        f.nodes()[d].products() == seq![set![Column::Leaf(x)]],
    ensures
        f.value(rank, val, d) == val(x),
{
    let a = atom_value(f.nodes(), f.edges(), rank, val, d);
    let ps = f.nodes()[d].products();
    assert(ps.drop_last() =~= Seq::<Set<Column>>::empty());
    lemma_set_product_empty(a);
    assert(set![Column::Leaf(x)] =~= Set::<Column>::empty().insert(Column::Leaf(x)));
    lemma_set_product_insert(Set::<Column>::empty(), Column::Leaf(x), a);
    assert(sum_products(ps.drop_last(), a) == 0);
    assert(ps.last() == set![Column::Leaf(x)]);
    assert(a(Column::Leaf(x)) == val(x));
    assert(f.value(rank, val, d) == sum_products(ps, a));
}

/// What a drop does to the value of node `m`: multiplied by the leaf for
/// the children that it was pushed into, unchanged otherwise.
pub open spec fn drop_claim(s: ReactiveCircuit, f: ReactiveCircuit, n: u32, x: u32, done: Set<int>,
    rank: Map<u32, nat>, val: spec_fn(u32) -> int, m: u32) -> bool {
    s.nodes().contains_key(m) ==> if multiplied(s, n, done, m) {
        f.value(raised(s, f, rank), val, m) == s.value(rank, val, m) * val(x)
    } else {
        f.value(raised(s, f, rank), val, m) == s.value(rank, val, m)
    }
}

/// A row without a first memory has no memory variable.
proof fn lemma_no_first_memory(row: Seq<usize>, cols: Seq<Column>)
    requires
        forall|i: int| 0 <= i < row.len() ==> #[trigger] row[i] < cols.len(),
        first_memory(row, cols) is None,
    ensures
        forall|k: u32| !#[trigger] row_vars(row, cols).contains(Column::Memory(k)),
    decreases row.len(),
{
    if row.len() > 0 {
        let t = row.drop_first();
        assert forall|i: int| 0 <= i < t.len() implies #[trigger] t[i] < cols.len() by { assert(t[i] == row[i + 1]); }
        lemma_no_first_memory(t, cols);
        assert forall|k: u32| !#[trigger] row_vars(row, cols).contains(Column::Memory(k)) by {
            if row_vars(row, cols).contains(Column::Memory(k)) {
                let c = choose|c: usize| row.to_set().contains(c) && cols[c as int] == Column::Memory(k);
                let q = choose|q: int| 0 <= q < row.len() && row[q] == c;
                if q == 0 {
                    assert(memory_edge(cols[row[0] as int]) is Some);
                } else {
                    assert(t[q - 1] == c);
                    assert(t.to_set().contains(c));
                    assert(row_vars(t, cols).contains(Column::Memory(k)));
                }
            }
        }
    }
}

/// A child that a drop multiplied has `n` as its parent.
proof fn lemma_multiplied_parent(s: ReactiveCircuit, n: u32, done: Set<int>, m: u32, k: u32)
    requires
        s.wf(),
        s.nodes().contains_key(n),
        single_parents(s.edges()),
        multiplied(s, n, done, m),
        forall|i: int| #[trigger] done.contains(i) ==> 0 <= i < s.nodes()[n].rows().len(),
        s.edges().contains_key(k),
        s.edges()[k].1 == m,
    ensures
        s.edges()[k].0 == n,
{
    let i = choose|i: int| #[trigger] done.contains(i) && first_mem(s, n, i) is Some && s.edges()[first_mem(s, n, i)->0].1 == m;
    lemma_first_mem_edge(s, n, i);
}

/// The values after a drop, node by node.
pub proof fn lemma_drop_values(s: ReactiveCircuit, t: ReactiveCircuit, f: ReactiveCircuit, n: u32, x: u32,
    made: Map<int, u32>, done: Set<int>, rank: Map<u32, nat>, val: spec_fn(u32) -> int, m: u32)
    requires
        s.wf(),
        f.wf(),
        s.nodes().contains_key(n),
        drop_ready(s, n, x),
        drop_progress(s, t, n, x, made, done),
        forall|i: int| 0 <= i < s.nodes()[n].products().len() && s.nodes()[n].products()[i].contains(Column::Leaf(x))
            ==> done.contains(i),
        leaf_removed(t, f, n, x),
        ranked(s.edges(), rank),
    ensures
        drop_claim(s, f, n, x, done, rank, val, m),
    decreases rank[m],
{
    if !s.nodes().contains_key(m) {
        return;
    }
    let r2 = raised(s, f, rank);
    let fa = atom_value(f.nodes(), f.edges(), r2, val, m);
    let sa = atom_value(s.nodes(), s.edges(), rank, val, m);
    let sm = s.nodes()[m];
    let p = s.nodes()[n].products();
    assert(s.nodes()[n].rows().len() == p.len());
    assert(f.nodes().contains_key(m));
    // the memories of `m` lead to old children, valued by induction
    assert forall|k: u32| #[trigger] sm.cols().contains(Column::Memory(k)) implies {
        let ch = s.edges()[k].1;
        &&& s.edges().contains_key(k)
        &&& s.edges()[k].0 == m
        &&& s.nodes().contains_key(ch)
        &&& rank[ch] < rank[m]
        &&& f.edges().contains_key(k)
        &&& f.edges()[k] == s.edges()[k]
        &&& fa(Column::Memory(k)) == f.value(r2, val, ch)
        &&& sa(Column::Memory(k)) == s.value(rank, val, ch)
        &&& drop_claim(s, f, n, x, done, rank, val, ch)
    } by {
        let ch = s.edges()[k].1;
        assert(s.edges().contains_key(k) && s.edges()[k].0 == m);
        assert(t.edges().contains_key(k));
        assert(f.nodes().contains_key(ch));
        assert(r2[ch] == rank[ch] + 1 && r2[m] == rank[m] + 1);
        lemma_drop_values(s, t, f, n, x, made, done, rank, val, ch);
    }
    if m == n {
        let sn = s.nodes()[n];
        let q = t.nodes()[n].products();
        let fps = f.nodes()[n].products();
        assert(fps.len() == p.len());
        assert(!multiplied(s, n, done, n)) by {
            if multiplied(s, n, done, n) {
                let i = choose|i: int| #[trigger] done.contains(i) && first_mem(s, n, i) is Some && s.edges()[first_mem(s, n, i)->0].1 == n;
                lemma_first_mem_edge(s, n, i);
            }
        }
        assert forall|i: int| 0 <= i < p.len() implies set_product(#[trigger] fps[i], fa) == set_product(p[i], sa) by {
            crate::circuit::pruning::lemma_products_in_cols(sn, i);
            sn.lemma_wf();
            assert(row_ok(sn.rows()[i], sn.cols().len()));
            assert(fps[i] == q[i].remove(Column::Leaf(x)));
            // memories of other minterms' first memories are not in this one
            assert forall|k: u32| #[trigger] p[i].contains(Column::Memory(k)) && multiplied(s, n, done, s.edges()[k].1)
                implies done.contains(i) && first_mem(s, n, i) == Some(k) by {
                assert(sm.cols().contains(Column::Memory(k)));
                let ch = s.edges()[k].1;
                let j = choose|j: int| #[trigger] done.contains(j) && first_mem(s, n, j) is Some && s.edges()[first_mem(s, n, j)->0].1 == ch;
                lemma_first_mem_edge(s, n, j);
                let ej = first_mem(s, n, j)->0;
                assert(ej == k);
                assert(p[j].contains(Column::Memory(k)));
                assert(j == i);
            }
            if !p[i].contains(Column::Leaf(x)) {
                assert(!done.contains(i));
                assert(!made.contains_key(i));
                assert(fps[i] =~= p[i]);
                assert forall|c: Column| #[trigger] p[i].contains(c) implies fa(c) == sa(c) by {
                    assert(sm.cols().contains(c));
                }
                lemma_set_product_agree(p[i], fa, sa);
            } else if first_mem(s, n, i) is Some {
                let e = first_mem(s, n, i)->0;
                lemma_first_mem_edge(s, n, i);
                let me = Column::Memory(e);
                let lx = Column::Leaf(x);
                assert(done.contains(i));
                assert(!made.contains_key(i));
                assert(fps[i] == p[i].remove(lx));
                assert(multiplied(s, n, done, s.edges()[e].1));
                assert(sm.cols().contains(me));
                assert(fa(me) == sa(me) * val(x));
                let rest = p[i].remove(lx).remove(me);
                assert forall|c: Column| #[trigger] rest.contains(c) implies fa(c) == sa(c) by {
                    assert(sm.cols().contains(c));
                }
                lemma_set_product_agree(rest, fa, sa);
                lemma_set_product_remove(p[i].remove(lx), me, fa);
                lemma_set_product_remove(p[i].remove(lx), me, sa);
                lemma_set_product_remove(p[i], lx, sa);
                assert(sa(lx) == val(x));
                let a = set_product(rest, sa);
                let b = sa(me);
                let v = val(x);
                assert(a * (b * v) == (a * b) * v) by (nonlinear_arith);
            } else {
                let lx = Column::Leaf(x);
                assert(done.contains(i));
                assert(made.contains_key(i));
                let mi = Column::Memory(made[i]);
                let d = t.edges()[made[i]].1;
                assert(q[i] == p[i].insert(mi));
                assert(fps[i] =~= p[i].remove(lx).insert(mi));
                assert(!p[i].remove(lx).contains(mi)) by {
                    if p[i].contains(mi) {
                        assert(sm.cols().contains(mi));
                    }
                }
                lemma_set_product_insert(p[i].remove(lx), mi, fa);
                assert(f.edges()[made[i]] == (n, d));
                assert(f.nodes().contains_key(d));
                assert(d != n);
                assert(f.nodes()[d] == t.nodes()[d]);
                assert(r2[d] == 0);
                lemma_single_leaf_value(f, r2, val, d, x);
                assert(fa(mi) == val(x));
                lemma_no_first_memory(sn.rows()[i], sn.cols());
                assert(p[i] == row_vars(sn.rows()[i], sn.cols()));
                assert forall|c: Column| #[trigger] p[i].remove(lx).contains(c) implies fa(c) == sa(c) by {
                    if let Column::Memory(k) = c {
                        assert(p[i].contains(Column::Memory(k)));
                    }
                }
                lemma_set_product_agree(p[i].remove(lx), fa, sa);
                lemma_set_product_remove(p[i], lx, sa);
            }
        }
        lemma_sum_pointwise(fps, p, fa, sa);
    } else if multiplied(s, n, done, m) {
        let i0 = choose|i: int| #[trigger] done.contains(i) && first_mem(s, n, i) is Some && s.edges()[first_mem(s, n, i)->0].1 == m;
        lemma_first_mem_edge(s, n, i0);
        let e0 = first_mem(s, n, i0)->0;
        assert(!sm.cols().contains(Column::Leaf(x)));
        let fm_node = f.nodes()[m];
        assert(fm_node == t.nodes()[m]);
        assert(fm_node.products() == sm.products().map_values(|q: Set<Column>| q.insert(Column::Leaf(x))));
        assert forall|i: int| 0 <= i < sm.products().len() implies (#[trigger] sm.products()[i]).finite()
            && !sm.products()[i].contains(Column::Leaf(x)) by {
            crate::circuit::pruning::lemma_products_in_cols(sm, i);
        }
        lemma_sum_scaled(sm.products(), Column::Leaf(x), fa);
        assert forall|i: int| 0 <= i < sm.products().len() implies set_product(#[trigger] sm.products()[i], fa)
            == set_product(sm.products()[i], sa) by {
            crate::circuit::pruning::lemma_products_in_cols(sm, i);
            assert forall|c: Column| #[trigger] sm.products()[i].contains(c) implies fa(c) == sa(c) by {
                assert(sm.cols().contains(c));
                if let Column::Memory(k) = c {
                    let ch = s.edges()[k].1;
                    if multiplied(s, n, done, ch) {
                        lemma_multiplied_parent(s, n, done, ch, k);
                    }
                }
            }
            lemma_set_product_agree(sm.products()[i], fa, sa);
        }
        lemma_sum_pointwise(sm.products(), sm.products(), fa, sa);
    } else {
        assert(f.nodes()[m] == s.nodes()[m]);
        assert forall|i: int| 0 <= i < sm.products().len() implies set_product(#[trigger] sm.products()[i], fa)
            == set_product(sm.products()[i], sa) by {
            crate::circuit::pruning::lemma_products_in_cols(sm, i);
            assert forall|c: Column| #[trigger] sm.products()[i].contains(c) implies fa(c) == sa(c) by {
                assert(sm.cols().contains(c));
                if let Column::Memory(k) = c {
                    let ch = s.edges()[k].1;
                    if multiplied(s, n, done, ch) {
                        lemma_multiplied_parent(s, n, done, ch, k);
                    }
                }
            }
            lemma_set_product_agree(sm.products()[i], fa, sa);
        }
        lemma_sum_pointwise(sm.products(), sm.products(), fa, sa);
    }
}

/// Whether every old node that is not a child of node `n` has the same
/// value in `after` as in `before`, under any rankings of the two graphs.
pub open spec fn keeps_values(before: ReactiveCircuit, after: ReactiveCircuit, n: u32) -> bool {
    forall|rank: Map<u32, nat>, rank2: Map<u32, nat>, val: spec_fn(u32) -> int, m: u32|
        #![trigger after.value(rank2, val, m), before.value(rank, val, m)]
        ranked(before.edges(), rank) && ranked(after.edges(), rank2) && before.nodes().contains_key(m)
        && !(exists|e: u32| #[trigger] before.edges().contains_key(e) && before.edges()[e] == (n, m))
        ==> after.value(rank2, val, m) == before.value(rank, val, m)
}

/// A circuit keeps its own values.
pub proof fn lemma_keeps_values_same(rc: ReactiveCircuit, n: u32)
    requires
        rc.wf(),
    ensures
        keeps_values(rc, rc, n),
{
    assert forall|rank: Map<u32, nat>, rank2: Map<u32, nat>, val: spec_fn(u32) -> int, m: u32|
        ranked(rc.edges(), rank) && ranked(rc.edges(), rank2) && rc.nodes().contains_key(m)
        && !(exists|e: u32| #[trigger] rc.edges().contains_key(e) && rc.edges()[e] == (n, m))
        implies #[trigger] rc.value(rank2, val, m) == #[trigger] rc.value(rank, val, m) by {
        lemma_rank_free(rc, rank, rank2, val, m);
    }
}

/// Values are a function of the circuits and the edges.
pub proof fn lemma_keeps_values_same_graph(before: ReactiveCircuit, mid: ReactiveCircuit, after: ReactiveCircuit, n: u32)
    requires
        keeps_values(before, mid, n),
        after.nodes() == mid.nodes(),
        after.edges() == mid.edges(),
    ensures
        keeps_values(before, after, n),
{
    assert forall|rank: Map<u32, nat>, rank2: Map<u32, nat>, val: spec_fn(u32) -> int, m: u32|
        ranked(before.edges(), rank) && ranked(after.edges(), rank2) && before.nodes().contains_key(m)
        && !(exists|e: u32| #[trigger] before.edges().contains_key(e) && before.edges()[e] == (n, m))
        implies #[trigger] after.value(rank2, val, m) == #[trigger] before.value(rank, val, m) by {
        assert(after.value(rank2, val, m) == mid.value(rank2, val, m));
    }
}

/// After all the minterms of `n` that hold the leaf had it pushed down and
/// the leaf was removed from `n`, every node but the children of `n` keeps
/// its value.
pub proof fn lemma_drop_keeps_values(s: ReactiveCircuit, t: ReactiveCircuit, f: ReactiveCircuit, n: u32, x: u32,
    made: Map<int, u32>, done: Set<int>)
    requires
        s.wf(),
        f.wf(),
        s.nodes().contains_key(n),
        drop_ready(s, n, x),
        drop_progress(s, t, n, x, made, done),
        forall|i: int| 0 <= i < s.nodes()[n].products().len() && s.nodes()[n].products()[i].contains(Column::Leaf(x))
            ==> done.contains(i),
        leaf_removed(t, f, n, x),
    ensures
        keeps_values(s, f, n),
{
    assert forall|rank: Map<u32, nat>, rank2: Map<u32, nat>, val: spec_fn(u32) -> int, m: u32|
        ranked(s.edges(), rank) && ranked(f.edges(), rank2) && s.nodes().contains_key(m)
        && !(exists|e: u32| #[trigger] s.edges().contains_key(e) && s.edges()[e] == (n, m))
        implies #[trigger] f.value(rank2, val, m) == #[trigger] s.value(rank, val, m) by {
        let r2 = raised(s, f, rank);
        assert(ranked(f.edges(), r2)) by {
            assert forall|e: u32| #[trigger] f.edges().contains_key(e) implies r2[f.edges()[e].1] < r2[f.edges()[e].0] by {
                assert(t.edges().contains_key(e));
                if s.edges().contains_key(e) {
                    assert(f.edges()[e] == s.edges()[e]);
                } else {
                    let i = choose|i: int| #[trigger] made.contains_key(i) && made[i] == e;
                    assert(f.nodes().contains_key(f.edges()[e].1));
                }
            }
        }
        assert(!multiplied(s, n, done, m)) by {
            if multiplied(s, n, done, m) {
                let i = choose|i: int| #[trigger] done.contains(i) && first_mem(s, n, i) is Some && s.edges()[first_mem(s, n, i)->0].1 == m;
                assert(s.nodes()[n].rows().len() == s.nodes()[n].products().len());
                lemma_first_mem_edge(s, n, i);
                let e = first_mem(s, n, i)->0;
                assert(s.edges().contains_key(e) && s.edges()[e] == (n, m));
            }
        }
        lemma_drop_values(s, t, f, n, x, made, done, rank, val, m);
        lemma_rank_free(f, r2, rank2, val, m);
    }
}

/// Once every minterm of `n` holding the leaf had it pushed down, removing
/// the leaf from `n` leaves no minterm empty.
pub proof fn lemma_removal_keeps_minterms(s: ReactiveCircuit, t: ReactiveCircuit, n: u32, x: u32,
    made: Map<int, u32>, done: Set<int>)
    requires
        s.wf(),
        t.wf(),
        s.nodes().contains_key(n),
        drop_ready(s, n, x),
        drop_progress(s, t, n, x, made, done),
        forall|i: int| 0 <= i < s.nodes()[n].products().len() && s.nodes()[n].products()[i].contains(Column::Leaf(x))
            ==> done.contains(i),
    ensures
        forall|i: int| 0 <= i < t.nodes()[n].products().len()
            ==> (#[trigger] t.nodes()[n].products()[i]).remove(Column::Leaf(x)).len() > 0,
{
    let p = s.nodes()[n].products();
    assert(t.nodes().contains_key(n));
    assert forall|i: int| 0 <= i < t.nodes()[n].products().len()
        implies (#[trigger] t.nodes()[n].products()[i]).remove(Column::Leaf(x)).len() > 0 by {
        let q = t.nodes()[n].products()[i];
        crate::circuit::pruning::lemma_products_in_cols(t.nodes()[n], i);
        let r = q.remove(Column::Leaf(x));
        assert(r.finite());
        if done.contains(i) {
            if made.contains_key(i) {
                assert(r.contains(Column::Memory(made[i])));
            } else {
                assert(s.nodes()[n].rows().len() == p.len());
                lemma_first_mem_edge(s, n, i);
                let e = first_mem(s, n, i)->0;
                assert(r.contains(Column::Memory(e)));
            }
            vstd::set_lib::lemma_set_empty_equivalency_len(r);
        } else {
            assert(!p[i].contains(Column::Leaf(x)));
            assert(r =~= p[i]);
        }
    }
}

// ── dropping a leaf from every node that holds it ───────────────────────────

/// Whether node `n` of `rc` holds leaf `x` directly.
pub open spec fn holds_leaf(rc: ReactiveCircuit, n: u32, x: u32) -> bool {
    rc.nodes().contains_key(n) && rc.nodes()[n].cols().contains(Column::Leaf(x))
}

/// Whether node `m` is the child of a node that holds leaf `x`.
pub open spec fn below_holder(rc: ReactiveCircuit, m: u32, x: u32) -> bool {
    exists|e: u32| #[trigger] rc.edges().contains_key(e) && rc.edges()[e].1 == m && holds_leaf(rc, rc.edges()[e].0, x)
}

/// Whether dropping leaf `x` from the nodes `listed`, one after the other,
/// keeps the values: no edge from a node to itself, at most one edge into a
/// node, every node that holds the leaf ready for the drop (`drop_ready`),
/// and every listed node a node that is no child of a node holding the leaf.
pub open spec fn leaf_drop_ready(rc: ReactiveCircuit, x: u32, listed: Seq<u32>) -> bool {
    &&& no_self_loops(rc.edges())
    &&& single_parents(rc.edges())
    &&& forall|h: u32| #[trigger] holds_leaf(rc, h, x) ==> drop_ready(rc, h, x)
    &&& forall|i: int| 0 <= i < listed.len() ==> rc.nodes().contains_key(#[trigger] listed[i])
        && !below_holder(rc, listed[i], x)
}

/// Whether every node of `before` that is no child of a node holding leaf
/// `x` has the same value in `after`, under any rankings of the two graphs.
pub open spec fn keeps_unheld_values(before: ReactiveCircuit, after: ReactiveCircuit, x: u32) -> bool {
    forall|rank: Map<u32, nat>, rank2: Map<u32, nat>, val: spec_fn(u32) -> int, m: u32|
        #![trigger after.value(rank2, val, m), before.value(rank, val, m)]
        ranked(before.edges(), rank) && ranked(after.edges(), rank2) && before.nodes().contains_key(m)
        && !below_holder(before, m, x)
        ==> after.value(rank2, val, m) == before.value(rank, val, m)
}

/// Whether `c` is `s` after leaf `x` was dropped from some of the nodes that
/// hold it: the values of `s` that `keeps_unheld_values` speaks of are kept;
/// a node of `s` that still holds the leaf is still ready for the drop;
/// nodes that neither hold the leaf nor are children of such nodes are as
/// they were; the old edges are kept, and the new ones lead from a node that
/// held the leaf to a new node.
pub open spec fn drop_chain(s: ReactiveCircuit, c: ReactiveCircuit, x: u32) -> bool {
    &&& keeps_unheld_values(s, c, x)
    &&& forall|h: u32| holds_leaf(s, h, x) ==> !below_holder(s, h, x)
    &&& forall|h: u32| holds_leaf(s, h, x) && #[trigger] holds_leaf(c, h, x) ==> drop_ready(c, h, x)
    &&& forall|k: u32| s.nodes().contains_key(k) && !holds_leaf(s, k, x) && !below_holder(s, k, x)
        ==> #[trigger] c.nodes()[k] == s.nodes()[k]
    &&& s.nodes().dom().subset_of(c.nodes().dom())
    &&& forall|e: u32| #[trigger] s.edges().contains_key(e) ==> c.edges().contains_key(e) && c.edges()[e] == s.edges()[e]
    &&& forall|e: u32| #[trigger] c.edges().contains_key(e) ==> (s.edges().contains_key(e) && c.edges()[e] == s.edges()[e])
        || (holds_leaf(s, c.edges()[e].0, x) && !s.nodes().contains_key(c.edges()[e].1))
    &&& no_self_loops(c.edges())
    &&& single_parents(c.edges())
}

/// Nothing has been dropped yet.
pub proof fn lemma_drop_chain_start(s: ReactiveCircuit, x: u32, listed: Seq<u32>)
    requires
        s.wf(),
        leaf_drop_ready(s, x, listed),
    ensures
        drop_chain(s, s, x),
{
    assert forall|rank: Map<u32, nat>, rank2: Map<u32, nat>, val: spec_fn(u32) -> int, m: u32|
        ranked(s.edges(), rank) && ranked(s.edges(), rank2) && s.nodes().contains_key(m) && !below_holder(s, m, x)
        implies #[trigger] s.value(rank2, val, m) == #[trigger] s.value(rank, val, m) by {
        lemma_rank_free(s, rank, rank2, val, m);
    }
    assert forall|h: u32| holds_leaf(s, h, x) implies !below_holder(s, h, x) by {
        if below_holder(s, h, x) {
            let e = choose|e: u32| #[trigger] s.edges().contains_key(e) && s.edges()[e].1 == h
                && holds_leaf(s, s.edges()[e].0, x);
            assert(drop_ready(s, s.edges()[e].0, x));
        }
    }
}

/// One more node `n`, which is no child of a node holding the leaf, had the
/// leaf dropped (`c` before, `c2` after; the facts about the two are those
/// that `drop_from_node` gives).
pub proof fn lemma_drop_chain_step(s: ReactiveCircuit, c: ReactiveCircuit, c2: ReactiveCircuit, n: u32, x: u32)
    requires
        c.wf(),
        c2.wf(),
        drop_chain(s, c, x),
        s.nodes().contains_key(n),
        !below_holder(s, n, x),
        c.nodes().dom().subset_of(c2.nodes().dom()),
        forall|e: u32| #[trigger] c2.edges().contains_key(e) ==> (c.edges().contains_key(e)
            && c2.edges()[e] == c.edges()[e]) || (c2.edges()[e].0 == n && !c.nodes().contains_key(c2.edges()[e].1)),
        forall|e: u32| #[trigger] c.edges().contains_key(e) ==> c2.edges().contains_key(e) && c2.edges()[e] == c.edges()[e],
        forall|k: u32| #[trigger] c.nodes().contains_key(k) && k != n
            && !(exists|e: u32| #[trigger] c.edges().contains_key(e) && c.edges()[e] == (n, k))
            ==> c2.nodes()[k] == c.nodes()[k],
        no_self_loops(c.edges()) ==> no_self_loops(c2.edges()),
        single_parents(c.edges()) ==> single_parents(c2.edges()),
        !c.nodes()[n].cols().contains(Column::Leaf(x)) ==> c2 == c,
        c2 == c || !c2.nodes()[n].cols().contains(Column::Leaf(x)),
        drop_ready(c, n, x) ==> keeps_values(c, c2, n),
    ensures
        drop_chain(s, c2, x),
{
    if !holds_leaf(c, n, x) {
        assert(c.nodes().contains_key(n));
        return;
    }
    assert(holds_leaf(s, n, x)) by {
        if !holds_leaf(s, n, x) {
            assert(c.nodes()[n] == s.nodes()[n]);
        }
    }
    assert(drop_ready(c, n, x));
    assert(keeps_unheld_values(s, c2, x)) by {
        assert forall|rank: Map<u32, nat>, rank2: Map<u32, nat>, val: spec_fn(u32) -> int, m: u32|
            ranked(s.edges(), rank) && ranked(c2.edges(), rank2) && s.nodes().contains_key(m) && !below_holder(s, m, x)
            implies #[trigger] c2.value(rank2, val, m) == #[trigger] s.value(rank, val, m) by {
            assert(ranked(c.edges(), rank2)) by {
                assert forall|e: u32| #[trigger] c.edges().contains_key(e) implies rank2[c.edges()[e].1] < rank2[c.edges()[e].0] by {
                    assert(c2.edges().contains_key(e));
                }
            }
            assert(c.nodes().contains_key(m));
            assert(!(exists|e: u32| #[trigger] c.edges().contains_key(e) && c.edges()[e] == (n, m))) by {
                if exists|e: u32| #[trigger] c.edges().contains_key(e) && c.edges()[e] == (n, m) {
                    let e = choose|e: u32| #[trigger] c.edges().contains_key(e) && c.edges()[e] == (n, m);
                    assert(c.edges().contains_key(e) && c.edges()[e] == (n, m) && s.nodes().contains_key(m));
                }
            }
            assert(c2.value(rank2, val, m) == c.value(rank2, val, m));
            assert(c.value(rank2, val, m) == s.value(rank, val, m));
        }
    }
    assert forall|h: u32| holds_leaf(s, h, x) && #[trigger] holds_leaf(c2, h, x) implies drop_ready(c2, h, x) by {
        if c2 == c {
        } else if h == n {
        } else {
            assert(c.nodes().contains_key(h));
            assert(!(exists|e: u32| #[trigger] c.edges().contains_key(e) && c.edges()[e] == (n, h))) by {
                if exists|e: u32| #[trigger] c.edges().contains_key(e) && c.edges()[e] == (n, h) {
                    let e = choose|e: u32| #[trigger] c.edges().contains_key(e) && c.edges()[e] == (n, h);
                    assert(c.edges().contains_key(e) && c.edges()[e] == (n, h) && s.nodes().contains_key(h));
                }
            }
            assert(c2.nodes()[h] == c.nodes()[h]);
            assert(holds_leaf(c, h, x));
            assert(drop_ready(c, h, x));
            assert forall|e: u32| #[trigger] c2.edges().contains_key(e) && c2.edges()[e].0 == h
                implies !c2.nodes()[c2.edges()[e].1].cols().contains(Column::Leaf(x)) by {
                assert(c.edges().contains_key(e));
                let k = c.edges()[e].1;
                assert(c.nodes().contains_key(k));
                if k == n {
                    if s.edges().contains_key(e) {
                        assert(below_holder(s, n, x));
                    }
                }
                assert(!(exists|e2: u32| #[trigger] c.edges().contains_key(e2) && c.edges()[e2] == (n, k))) by {
                    if exists|e2: u32| #[trigger] c.edges().contains_key(e2) && c.edges()[e2] == (n, k) {
                        let e2 = choose|e2: u32| #[trigger] c.edges().contains_key(e2) && c.edges()[e2] == (n, k);
                        assert(c.edges()[e2].1 == c.edges()[e].1);
                    }
                }
                assert(c2.nodes()[k] == c.nodes()[k]);
            }
        }
    }
    assert forall|k: u32| s.nodes().contains_key(k) && !holds_leaf(s, k, x) && !below_holder(s, k, x)
        implies #[trigger] c2.nodes()[k] == s.nodes()[k] by {
        assert(c.nodes()[k] == s.nodes()[k]);
        assert(c.nodes().contains_key(k));
        assert(!(exists|e: u32| #[trigger] c.edges().contains_key(e) && c.edges()[e] == (n, k))) by {
            if exists|e: u32| #[trigger] c.edges().contains_key(e) && c.edges()[e] == (n, k) {
                let e = choose|e: u32| #[trigger] c.edges().contains_key(e) && c.edges()[e] == (n, k);
                assert(c.edges().contains_key(e) && c.edges()[e] == (n, k) && s.nodes().contains_key(k));
            }
        }
    }
    assert forall|e: u32| #[trigger] c2.edges().contains_key(e) implies (s.edges().contains_key(e) && c2.edges()[e] == s.edges()[e])
        || (holds_leaf(s, c2.edges()[e].0, x) && !s.nodes().contains_key(c2.edges()[e].1)) by {
        if c.edges().contains_key(e) && c2.edges()[e] == c.edges()[e] {
        } else {
            assert(c2.edges()[e].0 == n);
        }
    }
}

/// Values are a function of the circuits and the edges.
pub proof fn lemma_keeps_unheld_same_graph(before: ReactiveCircuit, mid: ReactiveCircuit, after: ReactiveCircuit, x: u32)
    requires
        keeps_unheld_values(before, mid, x),
        after.nodes() == mid.nodes(),
        after.edges() == mid.edges(),
    ensures
        keeps_unheld_values(before, after, x),
{
    assert forall|rank: Map<u32, nat>, rank2: Map<u32, nat>, val: spec_fn(u32) -> int, m: u32|
        ranked(before.edges(), rank) && ranked(after.edges(), rank2) && before.nodes().contains_key(m)
        && !below_holder(before, m, x)
        implies #[trigger] after.value(rank2, val, m) == #[trigger] before.value(rank, val, m) by {
        assert(after.value(rank2, val, m) == mid.value(rank2, val, m));
    }
}

} // verus!
