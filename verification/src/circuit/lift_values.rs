use vstd::prelude::*;
use crate::circuit::algebraic::{find_column, has_var, occurs, row_ok, row_vars, split_part, AlgebraicCircuit, Column};
use crate::circuit::lifting::{moved_column, strip_leaf, stripped_products};
use crate::circuit::reactive::ReactiveCircuit;
use crate::circuit::semantics::{
    atom_value, lemma_set_product_agree, lemma_set_product_empty, lemma_set_product_insert, lemma_set_product_remove,
    lemma_sum_pointwise, ranked, set_product, sum_products,
};

verus! {

// ── sums of products under edits of the sequence ───────────────────────────

/// Appending a product adds its value.
pub proof fn lemma_sum_push(ps: Seq<Set<Column>>, q: Set<Column>, atom: spec_fn(Column) -> int)
    ensures
        sum_products(ps.push(q), atom) == sum_products(ps, atom) + set_product(q, atom),
{
    assert(ps.push(q).drop_last() =~= ps);
}

/// Removing a product subtracts its value.
pub proof fn lemma_sum_remove(ps: Seq<Set<Column>>, i: int, atom: spec_fn(Column) -> int)
    requires
        0 <= i < ps.len(),
    ensures
        sum_products(ps.remove(i), atom) + set_product(ps[i], atom) == sum_products(ps, atom),
    decreases ps.len(),
{
    if i == ps.len() - 1 {
        assert(ps.remove(i) =~= ps.drop_last());
    } else {
        lemma_sum_remove(ps.drop_last(), i, atom);
        assert(ps.remove(i).drop_last() =~= ps.drop_last().remove(i));
        assert(ps.remove(i).last() == ps.last());
    }
}

/// Replacing a product changes the sum by the difference of the values.
pub proof fn lemma_sum_update(ps: Seq<Set<Column>>, i: int, q: Set<Column>, atom: spec_fn(Column) -> int)
    requires
        0 <= i < ps.len(),
    ensures
        sum_products(ps.update(i, q), atom) + set_product(ps[i], atom) == sum_products(ps, atom) + set_product(q, atom),
    decreases ps.len(),
{
    if i == ps.len() - 1 {
        assert(ps.update(i, q).drop_last() =~= ps.drop_last());
    } else {
        lemma_sum_update(ps.drop_last(), i, q, atom);
        assert(ps.update(i, q).drop_last() =~= ps.drop_last().update(i, q));
    }
}

/// The sum splits into the products that satisfy a predicate and those that
/// satisfy its negation.
pub proof fn lemma_sum_filter_split(ps: Seq<Set<Column>>, pred: spec_fn(Set<Column>) -> bool,
    npred: spec_fn(Set<Column>) -> bool, atom: spec_fn(Column) -> int)
    requires
        forall|p: Set<Column>| #[trigger] npred(p) == !pred(p),
    ensures
        sum_products(ps, atom) == sum_products(ps.filter(pred), atom) + sum_products(ps.filter(npred), atom),
    decreases ps.len(),
{
    reveal_with_fuel(Seq::filter, 1);
    if ps.len() > 0 {
        lemma_sum_filter_split(ps.drop_last(), pred, npred, atom);
        let l = ps.last();
        if pred(l) {
            lemma_sum_push(ps.drop_last().filter(pred), l, atom);
        } else {
            assert(npred(l));
            lemma_sum_push(ps.drop_last().filter(npred), l, atom);
        }
    }
}

/// A sum of empty products is their number.
pub proof fn lemma_sum_of_empties(ps: Seq<Set<Column>>, atom: spec_fn(Column) -> int)
    requires
        forall|i: int| 0 <= i < ps.len() ==> #[trigger] ps[i] == Set::<Column>::empty(),
    ensures
        sum_products(ps, atom) == ps.len(),
    decreases ps.len(),
{
    if ps.len() > 0 {
        assert forall|i: int| 0 <= i < ps.drop_last().len() implies #[trigger] ps.drop_last()[i] == Set::<Column>::empty() by {
            assert(ps.drop_last()[i] == ps[i]);
        }
        lemma_sum_of_empties(ps.drop_last(), atom);
        lemma_set_product_empty(atom);
        assert(ps.last() == ps[ps.len() - 1]);
    }
}

/// A sum is that of its nonempty products plus the number of empty ones.
pub proof fn lemma_sum_nonempty(ps: Seq<Set<Column>>, atom: spec_fn(Column) -> int)
    requires
        forall|i: int| 0 <= i < ps.len() ==> (#[trigger] ps[i]).finite(),
    ensures
        sum_products(ps, atom) == sum_products(ps.filter(|p: Set<Column>| p.len() > 0), atom)
            + ps.filter(|p: Set<Column>| p.len() == 0).len(),
{
    let pred = |p: Set<Column>| p.len() > 0;
    let npred = |p: Set<Column>| p.len() == 0;
    lemma_sum_filter_split(ps, pred, npred, atom);
    let es = ps.filter(npred);
    assert forall|i: int| 0 <= i < es.len() implies #[trigger] es[i] == Set::<Column>::empty() by {
        ps.lemma_filter_pred(npred, i);
        assert(es.contains(es[i]));
        ps.lemma_filter_contains_rev(npred, es[i]);
        assert(ps.contains(es[i]));
        assert(es[i].finite());
        assert(es[i] =~= Set::<Column>::empty());
    }
    lemma_sum_of_empties(es, atom);
}

/// Products that all hold `v`: the sum is the sum without `v` times its
/// value.
pub proof fn lemma_sum_factor(ps: Seq<Set<Column>>, v: Column, atom: spec_fn(Column) -> int)
    requires
        forall|i: int| 0 <= i < ps.len() ==> (#[trigger] ps[i]).finite() && ps[i].contains(v),
    ensures
        sum_products(ps, atom) == sum_products(ps.map_values(|p: Set<Column>| p.remove(v)), atom) * atom(v),
{
    let qs = ps.map_values(|p: Set<Column>| p.remove(v));
    assert forall|i: int| 0 <= i < qs.len() implies (#[trigger] qs[i]).finite() && !qs[i].contains(v) by {}
    crate::circuit::semantics::lemma_sum_scaled(qs, v, atom);
    let back = qs.map_values(|p: Set<Column>| p.insert(v));
    assert(back =~= ps) by {
        assert forall|i: int| 0 <= i < ps.len() implies #[trigger] back[i] == ps[i] by {
            assert(ps[i].remove(v).insert(v) =~= ps[i]);
        }
    }
}

// ── products over renamed columns ────────────────────────────────────────────

/// The product over the variables of the column indices `s` is the same for
/// two column lists whose columns at those indices have equal values.
pub proof fn lemma_index_product_agree(s: Set<usize>, cols1: Seq<Column>, cols2: Seq<Column>,
    atom1: spec_fn(Column) -> int, atom2: spec_fn(Column) -> int)
    requires
        s.finite(),
        cols1.no_duplicates(),
        cols2.no_duplicates(),
        forall|c: usize| #[trigger] s.contains(c) ==> c < cols1.len() && c < cols2.len()
            && atom1(cols1[c as int]) == atom2(cols2[c as int]),
    ensures
        set_product(s.map(|c: usize| cols1[c as int]), atom1) == set_product(s.map(|c: usize| cols2[c as int]), atom2),
    decreases s.len(),
{
    let g1 = |c: usize| cols1[c as int];
    let g2 = |c: usize| cols2[c as int];
    if s.len() == 0 {
        assert(s.map(g1) =~= Set::<Column>::empty());
        assert(s.map(g2) =~= Set::<Column>::empty());
        lemma_set_product_empty(atom1);
        lemma_set_product_empty(atom2);
    } else {
        let c = s.choose();
        assert(s.contains(c));
        let t = s.remove(c);
        lemma_index_product_agree(t, cols1, cols2, atom1, atom2);
        t.lemma_map_finite(g1);
        t.lemma_map_finite(g2);
        assert(s.map(g1) =~= t.map(g1).insert(g1(c)));
        assert(s.map(g2) =~= t.map(g2).insert(g2(c)));
        assert(!t.map(g1).contains(g1(c))) by {
            if t.map(g1).contains(g1(c)) {
                let d = choose|d: usize| t.contains(d) && g1(d) == g1(c);
                assert(cols1[d as int] == cols1[c as int]);
            }
        }
        assert(!t.map(g2).contains(g2(c))) by {
            if t.map(g2).contains(g2(c)) {
                let d = choose|d: usize| t.contains(d) && g2(d) == g2(c);
                assert(cols2[d as int] == cols2[c as int]);
            }
        }
        lemma_set_product_insert(t.map(g1), g1(c), atom1);
        lemma_set_product_insert(t.map(g2), g2(c), atom2);
    }
}

/// A row has the same product over two column lists whose columns at the
/// row's indices have equal values.
pub proof fn lemma_row_product_agree(row: Seq<usize>, cols1: Seq<Column>, cols2: Seq<Column>,
    atom1: spec_fn(Column) -> int, atom2: spec_fn(Column) -> int)
    requires
        cols1.no_duplicates(),
        cols2.no_duplicates(),
        forall|i: int| 0 <= i < row.len() ==> #[trigger] row[i] < cols1.len() && row[i] < cols2.len()
            && atom1(cols1[row[i] as int]) == atom2(cols2[row[i] as int]),
    ensures
        set_product(row_vars(row, cols1), atom1) == set_product(row_vars(row, cols2), atom2),
{
    let s = row.to_set();
    vstd::seq_lib::seq_to_set_is_finite(row);
    assert forall|c: usize| #[trigger] s.contains(c) implies c < cols1.len() && c < cols2.len()
        && atom1(cols1[c as int]) == atom2(cols2[c as int]) by {
        let i = choose|i: int| 0 <= i < row.len() && row[i] == c;
    }
    lemma_index_product_agree(s, cols1, cols2, atom1, atom2);
}

// ── values of nodes that two circuits share ──────────────────────────────────

/// Whether every node that `kept` selects is in both circuits with the same
/// algebraic circuit and, behind each of its memories, the same edge, which
/// leads to a node that is kept or `fixed`.
pub open spec fn agrees_on(before: ReactiveCircuit, after: ReactiveCircuit, kept: spec_fn(u32) -> bool,
    fixed: spec_fn(u32) -> bool) -> bool {
    forall|m: u32| #[trigger] kept(m) ==> {
        &&& before.nodes().contains_key(m)
        &&& after.nodes().contains_key(m)
        &&& after.nodes()[m] == before.nodes()[m]
        &&& forall|k: u32| #[trigger] before.nodes()[m].cols().contains(Column::Memory(k))
            ==> after.edges().contains_key(k) && after.edges()[k] == before.edges()[k]
                && (kept(before.edges()[k].1) || fixed(before.edges()[k].1))
    }
}

/// A kept node has the same value in both circuits when the `fixed` nodes
/// do (`agrees_on`), under one ranking of both.
pub proof fn lemma_values_agree(before: ReactiveCircuit, after: ReactiveCircuit, rank: Map<u32, nat>,
    val: spec_fn(u32) -> int, kept: spec_fn(u32) -> bool, fixed: spec_fn(u32) -> bool, m: u32)
    requires
        before.wf(),
        after.wf(),
        ranked(before.edges(), rank),
        ranked(after.edges(), rank),
        agrees_on(before, after, kept, fixed),
        forall|c: u32| #[trigger] fixed(c) ==> after.value(rank, val, c) == before.value(rank, val, c),
        kept(m),
    ensures
        after.value(rank, val, m) == before.value(rank, val, m),
    decreases rank[m],
{
    let ac = before.nodes()[m];
    let a1 = atom_value(before.nodes(), before.edges(), rank, val, m);
    let a2 = atom_value(after.nodes(), after.edges(), rank, val, m);
    assert forall|i: int| 0 <= i < ac.products().len() implies set_product(#[trigger] ac.products()[i], a2)
        == set_product(ac.products()[i], a1) by {
        crate::circuit::pruning::lemma_products_in_cols(ac, i);
        assert forall|c: Column| #[trigger] ac.products()[i].contains(c) implies a2(c) == a1(c) by {
            assert(ac.cols().contains(c));
            if let Column::Memory(k) = c {
                assert(before.edges().contains_key(k));
                let child = before.edges()[k].1;
                if rank[child] < rank[m] {
                    if kept(child) {
                        lemma_values_agree(before, after, rank, val, kept, fixed, child);
                    } else {
                        assert(fixed(child));
                    }
                }
            }
        }
        lemma_set_product_agree(ac.products()[i], a2, a1);
    }
    lemma_sum_pointwise(ac.products(), ac.products(), a2, a1);
}

/// A row over a prefix of the columns has the same variables over the
/// longer list.
pub proof fn lemma_row_vars_prefix(row: Seq<usize>, cols1: Seq<Column>, cols2: Seq<Column>)
    requires
        forall|i: int| 0 <= i < row.len() ==> #[trigger] row[i] < cols1.len(),
        cols1.len() <= cols2.len(),
        forall|q: int| 0 <= q < cols1.len() ==> #[trigger] cols2[q] == cols1[q],
    ensures
        row_vars(row, cols2) == row_vars(row, cols1),
{
    assert forall|v: Column| row_vars(row, cols2).contains(v) <==> row_vars(row, cols1).contains(v) by {
        if row_vars(row, cols2).contains(v) {
            let c = choose|c: usize| row.to_set().contains(c) && cols2[c as int] == v;
            let i = choose|i: int| 0 <= i < row.len() && row[i] == c;
            assert(cols1[c as int] == v);
        }
        if row_vars(row, cols1).contains(v) {
            let c = choose|c: usize| row.to_set().contains(c) && cols1[c as int] == v;
            let i = choose|i: int| 0 <= i < row.len() && row[i] == c;
            assert(cols2[c as int] == v);
        }
    }
    assert(row_vars(row, cols2) =~= row_vars(row, cols1));
}

/// A row holds the variable of a column exactly when it holds the column.
pub proof fn lemma_row_vars_col(row: Seq<usize>, cols: Seq<Column>, col: usize)
    requires
        cols.no_duplicates(),
        col < cols.len(),
        forall|i: int| 0 <= i < row.len() ==> #[trigger] row[i] < cols.len(),
    ensures
        row_vars(row, cols).contains(cols[col as int]) == row.contains(col),
{
    if row_vars(row, cols).contains(cols[col as int]) {
        let c = choose|c: usize| row.to_set().contains(c) && cols[c as int] == cols[col as int];
        let i = choose|i: int| 0 <= i < row.len() && row[i] == c;
        assert(c == col);
    }
    if row.contains(col) {
        let i = choose|i: int| 0 <= i < row.len() && row[i] == col;
        assert(row.to_set().contains(col));
    }
}

/// Filters of two sequences by predicates that agree position by position
/// keep as many elements.
pub proof fn lemma_filter_len_agree<A, B>(a: Seq<A>, b: Seq<B>, pa: spec_fn(A) -> bool, pb: spec_fn(B) -> bool)
    requires
        a.len() == b.len(),
        forall|i: int| 0 <= i < a.len() ==> pa(#[trigger] a[i]) == pb(b[i]),
    ensures
        a.filter(pa).len() == b.filter(pb).len(),
    decreases a.len(),
{
    reveal_with_fuel(Seq::filter, 1);
    if a.len() > 0 {
        assert forall|i: int| 0 <= i < a.drop_last().len() implies pa(#[trigger] a.drop_last()[i]) == pb(b.drop_last()[i]) by {
            assert(a.drop_last()[i] == a[i]);
            assert(b.drop_last()[i] == b[i]);
        }
        lemma_filter_len_agree(a.drop_last(), b.drop_last(), pa, pb);
        assert(pa(a[a.len() - 1]) == pb(b[b.len() - 1]));
    }
}

/// In a circuit whose products all hold the variable of column `c`, the
/// minterms that are `c` alone are those whose product is left empty
/// without that variable.
pub proof fn lemma_bare_count(ac: AlgebraicCircuit, c: usize)
    requires
        ac.wf(),
        c < ac.cols().len(),
        forall|i: int| 0 <= i < ac.products().len() ==> (#[trigger] ac.products()[i]).contains(ac.cols()[c as int]),
    ensures
        ac.rows().filter(|r: Seq<usize>| r == seq![c]).len() == ac.products().map_values(
            |p: Set<Column>| p.remove(ac.cols()[c as int])).filter(|p: Set<Column>| p.len() == 0).len(),
{
    let v = ac.cols()[c as int];
    let qs = ac.products().map_values(|p: Set<Column>| p.remove(v));
    ac.lemma_wf();
    assert forall|i: int| 0 <= i < ac.rows().len() implies (|r: Seq<usize>| r == seq![c])(#[trigger] ac.rows()[i])
        == (|p: Set<Column>| p.len() == 0)(qs[i]) by {
        let row = ac.rows()[i];
        assert(row_ok(row, ac.cols().len()));
        let p = ac.products()[i];
        assert(p == row_vars(row, ac.cols()));
        crate::circuit::pruning::lemma_products_in_cols(ac, i);
        lemma_row_vars_col(row, ac.cols(), c);
        assert(row.contains(c));
        if row == seq![c] {
            assert(p.remove(v) =~= Set::<Column>::empty()) by {
                assert forall|y: Column| !p.remove(v).contains(y) by {
                    if p.remove(v).contains(y) {
                        let d = choose|d: usize| row.to_set().contains(d) && ac.cols()[d as int] == y;
                        assert(row.contains(d));
                        assert(d == c);
                    }
                }
            }
        }
        if qs[i].len() == 0 {
            assert(p.remove(v).finite());
            assert(p.remove(v) =~= Set::<Column>::empty());
            assert forall|k: int| 0 <= k < row.len() implies #[trigger] row[k] == c by {
                assert(row.to_set().contains(row[k]));
                assert(p.contains(ac.cols()[row[k] as int]));
                if ac.cols()[row[k] as int] != v {
                    assert(p.remove(v).contains(ac.cols()[row[k] as int]));
                }
            }
            let k = choose|k: int| 0 <= k < row.len() && row[k] == c;
            if row.len() > 1 {
                if k == 0 { assert(row[0] < row[1]); } else { assert(row[0] < row[k]); }
            }
            assert(row =~= seq![c]);
        }
    }
    lemma_filter_len_agree(ac.rows(), qs, |r: Seq<usize>| r == seq![c], |p: Set<Column>| p.len() == 0);
}

// ── the value of a node split on a leaf ──────────────────────────────────────

/// A node whose minterms are `rows` over columns `cols_new`, each of which
/// has the value that the matching column of `cols_src` has at node `n`:
/// its value is the sum of the products `ps` of the rows over `cols_src`,
/// valued at `n`.
pub proof fn lemma_renamed_sum(st: ReactiveCircuit, rank: Map<u32, nat>, val: spec_fn(u32) -> int, n: u32, nn: u32,
    cols_src: Seq<Column>, ps: Seq<Set<Column>>)
    requires
        st.wf(),
        st.nodes().contains_key(nn),
        cols_src.no_duplicates(),
        st.nodes()[nn].cols().len() == cols_src.len(),
        forall|i: int| 0 <= i < st.nodes()[nn].rows().len() ==> row_ok(#[trigger] st.nodes()[nn].rows()[i], cols_src.len()),
        st.nodes()[nn].rows().map_values(|r: Seq<usize>| row_vars(r, cols_src)) == ps,
        forall|q: int| 0 <= q < cols_src.len() ==> #[trigger] atom_value(st.nodes(), st.edges(), rank, val, nn)(
            st.nodes()[nn].cols()[q]) == atom_value(st.nodes(), st.edges(), rank, val, n)(cols_src[q]),
    ensures
        st.value(rank, val, nn) == sum_products(ps, atom_value(st.nodes(), st.edges(), rank, val, n)),
{
    let ac = st.nodes()[nn];
    let a_new = atom_value(st.nodes(), st.edges(), rank, val, nn);
    let a_src = atom_value(st.nodes(), st.edges(), rank, val, n);
    ac.lemma_wf();
    assert forall|i: int| 0 <= i < ac.products().len() implies set_product(#[trigger] ac.products()[i], a_new)
        == set_product(ps[i], a_src) by {
        let row = ac.rows()[i];
        assert(row_ok(row, cols_src.len()));
        assert(ps[i] == row_vars(row, cols_src));
        assert forall|k: int| 0 <= k < row.len() implies #[trigger] row[k] < ac.cols().len() && row[k] < cols_src.len()
            && a_new(ac.cols()[row[k] as int]) == a_src(cols_src[row[k] as int]) by {
            assert(row[k] < cols_src.len());
        }
        lemma_row_product_agree(row, ac.cols(), cols_src, a_new, a_src);
    }
    lemma_sum_pointwise(ac.products(), ps, a_new, a_src);
}

/// The columns of a circuit moved from node `n` to node `nn` at the same
/// rank have the values of the columns they were moved from, when the edges
/// of the old memories (from `n`) and of the new ones (from `nn`) are those
/// of `st`.
pub proof fn lemma_moved_atoms(st: ReactiveCircuit, rank: Map<u32, nat>, val: spec_fn(u32) -> int, n: u32, nn: u32,
    cols_src: Seq<Column>, cols_new: Seq<Column>, e0: Map<u32, (u32, u32)>, e1: Map<u32, (u32, u32)>)
    requires
        cols_new.len() == cols_src.len(),
        rank[nn] == rank[n],
        forall|q: int| 0 <= q < cols_src.len() ==> moved_column(#[trigger] cols_src[q], cols_new[q], nn, e0, e1),
        forall|k: u32| #[trigger] cols_src.contains(Column::Memory(k)) ==> st.edges().contains_key(k)
            && e0.contains_key(k) && st.edges()[k] == e0[k],
        forall|m: u32| #[trigger] e1.contains_key(m) && !e0.contains_key(m) && e1[m].0 == nn
            ==> st.edges().contains_key(m) && st.edges()[m] == e1[m],
    ensures
        forall|q: int| 0 <= q < cols_src.len() ==> #[trigger] atom_value(st.nodes(), st.edges(), rank, val, nn)(
            cols_new[q]) == atom_value(st.nodes(), st.edges(), rank, val, n)(cols_src[q]),
{
    assert forall|q: int| 0 <= q < cols_src.len() implies #[trigger] atom_value(st.nodes(), st.edges(), rank, val, nn)(
        cols_new[q]) == atom_value(st.nodes(), st.edges(), rank, val, n)(cols_src[q]) by {
        assert(moved_column(cols_src[q], cols_new[q], nn, e0, e1));
        if let Column::Memory(k) = cols_src[q] {
            assert(cols_src.contains(Column::Memory(k)));
            let m = cols_new[q]->Memory_0;
            assert(e1.contains_key(m) && !e0.contains_key(m) && e1[m].0 == nn);
        }
    }
}

/// The value of a node split on leaf `x`: the leaf times the sum of the
/// products that held it, without it (`vin` for the nonempty ones, one for
/// each that was the leaf alone), plus the sum of those that did not
/// (`vout`).
pub proof fn lemma_split_value(st: ReactiveCircuit, rank: Map<u32, nat>, val: spec_fn(u32) -> int, n: u32, x: u32,
    vin: int, vout: int, bare: int)
    requires
        st.wf(),
        st.nodes().contains_key(n),
        vin == sum_products(st.nodes()[n].products().filter(has_var(Column::Leaf(x), true)).map_values(
            |p: Set<Column>| p.remove(Column::Leaf(x))).filter(|p: Set<Column>| p.len() > 0),
            atom_value(st.nodes(), st.edges(), rank, val, n)),
        bare == st.nodes()[n].products().filter(has_var(Column::Leaf(x), true)).map_values(
            |p: Set<Column>| p.remove(Column::Leaf(x))).filter(|p: Set<Column>| p.len() == 0).len(),
        vout == sum_products(st.nodes()[n].products().filter(has_var(Column::Leaf(x), false)),
            atom_value(st.nodes(), st.edges(), rank, val, n)),
    ensures
        st.value(rank, val, n) == val(x) * (vin + bare) + vout,
{
    let ac = st.nodes()[n];
    let a = atom_value(st.nodes(), st.edges(), rank, val, n);
    let ps = ac.products();
    let ins = ps.filter(has_var(Column::Leaf(x), true));
    let outs = ps.filter(has_var(Column::Leaf(x), false));
    lemma_sum_filter_split(ps, has_var(Column::Leaf(x), true), has_var(Column::Leaf(x), false), a);
    assert forall|i: int| 0 <= i < ins.len() implies (#[trigger] ins[i]).finite() && ins[i].contains(Column::Leaf(x)) by {
        ps.lemma_filter_pred(has_var(Column::Leaf(x), true), i);
        assert(ins.contains(ins[i]));
        ps.lemma_filter_contains_rev(has_var(Column::Leaf(x), true), ins[i]);
        let j = choose|j: int| 0 <= j < ps.len() && ps[j] == ins[i];
        crate::circuit::pruning::lemma_products_in_cols(ac, j);
    }
    lemma_sum_factor(ins, Column::Leaf(x), a);
    let qs = ins.map_values(|p: Set<Column>| p.remove(Column::Leaf(x)));
    assert forall|i: int| 0 <= i < qs.len() implies (#[trigger] qs[i]).finite() by {
        assert(ins[i].finite());
    }
    lemma_sum_nonempty(qs, a);
    assert(a(Column::Leaf(x)) == val(x));
    assert(st.value(rank, val, n) == sum_products(ps, a));
    let s = sum_products(qs, a);
    assert(sum_products(ins, a) == s * val(x));
    assert(s == vin + bare);
    assert(s * val(x) == val(x) * (vin + bare)) by (nonlinear_arith)
        requires s == vin + bare;
}

// ── the minterms of a parent after a lift ────────────────────────────────────

/// The sum over two sequences one after the other.
pub proof fn lemma_sum_append(ps: Seq<Set<Column>>, qs: Seq<Set<Column>>, atom: spec_fn(Column) -> int)
    ensures
        sum_products(ps + qs, atom) == sum_products(ps, atom) + sum_products(qs, atom),
    decreases qs.len(),
{
    if qs.len() > 0 {
        lemma_sum_append(ps, qs.drop_last(), atom);
        assert((ps + qs).drop_last() =~= ps + qs.drop_last());
        assert((ps + qs).last() == qs.last());
    } else {
        assert(ps + qs =~= ps);
    }
}

/// The sum over `k` copies of one product.
pub proof fn lemma_sum_repeat(k: nat, q: Set<Column>, atom: spec_fn(Column) -> int)
    ensures
        sum_products(Seq::new(k, |i: int| q), atom) == k * set_product(q, atom),
    decreases k,
{
    if k > 0 {
        lemma_sum_repeat((k - 1) as nat, q, atom);
        assert(Seq::new(k, |i: int| q).drop_last() =~= Seq::new((k - 1) as nat, |i: int| q));
        assert(Seq::new(k, |i: int| q).last() == q);
        let b = set_product(q, atom);
        assert((k - 1) * b + b == k * b) by (nonlinear_arith);
    } else {
        assert(Seq::new(k, |i: int| q).len() == 0);
        assert(k * set_product(q, atom) == 0);
    }
}

/// The minterms of a parent after the lift of a child: minterm `r`, which
/// held the child's memory `me`, loses it; the minterm times leaf `x` is
/// added once for each minterm of the child that was the leaf alone; when
/// the child kept other minterms with the leaf (`proper`), the minterm
/// times the leaf times the memory `min` of their new node is added; and
/// the minterm itself gets the memory `mout` of the node of the child's
/// other minterms, or is removed when there is none.
pub open spec fn rewired(ps: Seq<Set<Column>>, r: int, me: Column, x: Column, min: Column, mout: Option<Column>,
    bare: nat, proper: bool) -> Seq<Set<Column>> {
    let base = ps[r].remove(me);
    let grown = ps.update(r, base) + Seq::new(bare, |i: int| base.insert(x))
        + (if proper { seq![base.insert(x).insert(min)] } else { Seq::<Set<Column>>::empty() });
    match mout {
        Some(o) => grown.update(r, base.insert(o)),
        None => grown.remove(r),
    }
}

/// Rewiring a parent keeps its sum when the child's value was the leaf
/// times the values of the new node and of the bare minterms, plus the
/// value of the node of the other minterms.
pub proof fn lemma_rewired_sum(ps: Seq<Set<Column>>, r: int, me: Column, x: Column, min: Column, mout: Option<Column>,
    bare: nat, proper: bool, a_old: spec_fn(Column) -> int, a_new: spec_fn(Column) -> int, vn: int, vin: int, vout: int)
    requires
        0 <= r < ps.len(),
        forall|i: int| 0 <= i < ps.len() ==> (#[trigger] ps[i]).finite(),
        ps[r].contains(me),
        !ps[r].contains(x),
        proper ==> !ps[r].remove(me).contains(min) && min != x,
        mout matches Some(o) ==> !ps[r].remove(me).contains(o),
        forall|i: int, c: Column| 0 <= i < ps.len() && i != r && #[trigger] ps[i].contains(c) ==> a_new(c) == a_old(c),
        forall|c: Column| #[trigger] ps[r].contains(c) && c != me ==> a_new(c) == a_old(c),
        a_old(me) == vn,
        proper ==> a_new(min) == vin,
        mout matches Some(o) ==> a_new(o) == vout,
        vn == a_new(x) * ((if proper { vin } else { 0 }) + bare) + (if mout is Some { vout } else { 0 }),
    ensures
        sum_products(rewired(ps, r, me, x, min, mout, bare, proper), a_new) == sum_products(ps, a_old),
{
    let base = ps[r].remove(me);
    let vx = a_new(x);
    let vi: int = if proper { vin } else { 0 };
    let vo: int = if mout is Some { vout } else { 0 };
    let bb = set_product(base, a_new);
    assert(base.finite());
    assert forall|c: Column| #[trigger] base.contains(c) implies a_new(c) == a_old(c) by {}
    lemma_set_product_agree(base, a_new, a_old);
    lemma_set_product_remove(ps[r], me, a_old);
    let old_sum = sum_products(ps, a_old);
    let upd = ps.update(r, base);
    assert forall|i: int| 0 <= i < upd.len() implies set_product(#[trigger] upd[i], a_new) == set_product(upd[i], a_old) by {
        if i != r {
            assert forall|c: Column| #[trigger] upd[i].contains(c) implies a_new(c) == a_old(c) by {
                assert(ps[i].contains(c));
            }
            lemma_set_product_agree(upd[i], a_new, a_old);
        }
    }
    lemma_sum_pointwise(upd, upd, a_new, a_old);
    lemma_sum_update(ps, r, base, a_old);
    let s_upd = sum_products(upd, a_new);
    assert(s_upd == old_sum + bb - bb * vn);
    let bx = base.insert(x);
    lemma_set_product_insert(base, x, a_new);
    assert(set_product(bx, a_new) == bb * vx);
    let bares = Seq::new(bare, |i: int| bx);
    lemma_sum_repeat(bare, bx, a_new);
    let extra = if proper { seq![bx.insert(min)] } else { Seq::<Set<Column>>::empty() };
    let s_extra = sum_products(extra, a_new);
    if proper {
        lemma_set_product_insert(bx, min, a_new);
        lemma_sum_push(Seq::<Set<Column>>::empty(), bx.insert(min), a_new);
        assert(seq![bx.insert(min)] =~= Seq::<Set<Column>>::empty().push(bx.insert(min)));
        assert(s_extra == bb * vx * vin);
    } else {
        assert(s_extra == 0);
    }
    let grown = upd + bares + extra;
    lemma_sum_append(upd, bares, a_new);
    lemma_sum_append(upd + bares, extra, a_new);
    let s_grown = sum_products(grown, a_new);
    assert(s_grown == s_upd + bare * (bb * vx) + s_extra);
    assert(grown[r] == base);
    let s_final = sum_products(rewired(ps, r, me, x, min, mout, bare, proper), a_new);
    match mout {
        Some(o) => {
            assert(rewired(ps, r, me, x, min, mout, bare, proper) == grown.update(r, base.insert(o)));
            lemma_sum_update(grown, r, base.insert(o), a_new);
            lemma_set_product_insert(base, o, a_new);
            assert(s_final == s_grown - bb + bb * vout);
        },
        None => {
            assert(rewired(ps, r, me, x, min, mout, bare, proper) == grown.remove(r));
            lemma_sum_remove(grown, r, a_new);
            assert(s_final == s_grown - bb);
        },
    }
    assert(s_extra == bb * vx * vi);
    assert(s_final == old_sum - bb * vn + bare * (bb * vx) + bb * vx * vi + bb * vo);
    assert(bb * vn == bare * (bb * vx) + bb * vx * vi + bb * vo) by (nonlinear_arith)
        requires vn == vx * (vi + bare) + vo;
}

// ── lifting a leaf keeps the values ──────────────────────────────────────────

/// Whether every node of `before` that is still in `after` has the same
/// value there, under any rankings of the two graphs.
pub open spec fn keeps_common_values(before: ReactiveCircuit, after: ReactiveCircuit) -> bool {
    forall|rank: Map<u32, nat>, rank2: Map<u32, nat>, val: spec_fn(u32) -> int, m: u32|
        #![trigger after.value(rank2, val, m), before.value(rank, val, m)]
        ranked(before.edges(), rank) && ranked(after.edges(), rank2) && before.nodes().contains_key(m)
        && after.nodes().contains_key(m)
        ==> after.value(rank2, val, m) == before.value(rank, val, m)
}

/// Whether the minterms `ps` that hold the memory `me` are one at most,
/// which holds neither the leaf `x` nor another variable of `other`.
pub open spec fn edge_ready(ps: Seq<Set<Column>>, me: Column, x: Column, other: Set<Column>) -> bool {
    forall|i: int| 0 <= i < ps.len() && #[trigger] ps[i].contains(me) ==> {
        &&& !ps[i].contains(x)
        &&& forall|j: int| 0 <= j < ps.len() && #[trigger] ps[j].contains(me) ==> j == i
        &&& forall|c: Column| #[trigger] ps[i].contains(c) && other.contains(c) ==> c == me
    }
}

/// The memories of the edges into node `n`.
pub open spec fn memories_into(rc: ReactiveCircuit, n: u32) -> Set<Column> {
    Set::new(|c: Column| exists|e: u32| #[trigger] rc.edges().contains_key(e) && rc.edges()[e].1 == n && c == Column::Memory(e))
}

/// Whether leaf `x` can be lifted out of node `n` keeping the values: in
/// every parent, the minterms that hold the memory of an edge into `n` are
/// one at most, which holds neither the leaf nor the memory of another edge
/// into `n`.
pub open spec fn lift_ready(rc: ReactiveCircuit, n: u32, x: u32) -> bool {
    forall|e: u32| #[trigger] rc.edges().contains_key(e) && rc.edges()[e].1 == n
        ==> edge_ready(rc.nodes()[rc.edges()[e].0].products(), Column::Memory(e), Column::Leaf(x), memories_into(rc, n))
}

/// The ranking `rank` with the nodes `above` one above node `n` and the
/// nodes `below` level with it.
pub open spec fn lift_rank(rank: Map<u32, nat>, n: u32, above: Set<u32>, below: Set<u32>) -> Map<u32, nat> {
    Map::new(|m: u32| true, |m: u32| if above.contains(m) { rank[n] + 1 } else if below.contains(m) { rank[n] } else { rank[m] })
}

/// A row with one more column gains that column's variable.
pub proof fn lemma_row_vars_push_col(row: Seq<usize>, cols: Seq<Column>, c: usize)
    ensures
        row_vars(row.push(c), cols) == row_vars(row, cols).insert(cols[c as int]),
{
    assert(row.push(c).to_set() =~= row.to_set().insert(c)) by {
        assert forall|d: usize| row.push(c).to_set().contains(d) <==> row.to_set().insert(c).contains(d) by {
            if row.push(c).to_set().contains(d) {
                let i = choose|i: int| 0 <= i < row.push(c).len() && row.push(c)[i] == d;
                if i < row.len() { assert(row[i] == d); }
            }
            if row.to_set().contains(d) {
                let i = choose|i: int| 0 <= i < row.len() && row[i] == d;
                assert(row.push(c)[i] == d);
            }
            if d == c { assert(row.push(c)[row.len() as int] == c); }
        }
    }
    let g = |d: usize| cols[d as int];
    assert forall|v: Column| row.to_set().insert(c).map(g).contains(v) <==> row.to_set().map(g).insert(g(c)).contains(v) by {
        if row.to_set().insert(c).map(g).contains(v) {
            let d = choose|d: usize| row.to_set().insert(c).contains(d) && g(d) == v;
            if d != c { assert(row.to_set().map(g).contains(v)); }
        }
        if row.to_set().map(g).contains(v) {
            let d = choose|d: usize| row.to_set().contains(d) && g(d) == v;
            assert(row.to_set().insert(c).contains(d));
        }
        if v == g(c) { assert(row.to_set().insert(c).contains(c)); }
    }
    assert(row.to_set().insert(c).map(g) =~= row.to_set().map(g).insert(g(c)));
}

/// The position in the minterms before the rewiring of the minterm at
/// position `i` after it, for the minterms that were there before.
pub open spec fn rewired_from(r: int, mout: Option<Column>, i: int) -> int {
    match mout {
        Some(_) => i,
        None => if i < r { i } else { i + 1 },
    }
}

/// A minterm after the rewiring that holds a memory `mq` other than the
/// rewired one, the new ones and the leaf is an old minterm other than the
/// rewired one.
pub proof fn lemma_rewired_old_row(ps: Seq<Set<Column>>, r: int, me: Column, x: Column, min: Column,
    mout: Option<Column>, bare: nat, proper: bool, mq: Column, i: int)
    requires
        0 <= r < ps.len(),
        !ps[r].contains(mq),
        mq != x,
        proper ==> mq != min,
        mout matches Some(o) ==> o != mq,
        0 <= i < rewired(ps, r, me, x, min, mout, bare, proper).len(),
        rewired(ps, r, me, x, min, mout, bare, proper)[i].contains(mq),
    ensures
        0 <= rewired_from(r, mout, i) < ps.len(),
        rewired_from(r, mout, i) != r,
        rewired(ps, r, me, x, min, mout, bare, proper)[i] == ps[rewired_from(r, mout, i)],
{
    let base = ps[r].remove(me);
    let grown = ps.update(r, base) + Seq::new(bare, |k: int| base.insert(x))
        + (if proper { seq![base.insert(x).insert(min)] } else { Seq::<Set<Column>>::empty() });
    let k = rewired_from(r, mout, i);
    assert(0 <= k < grown.len()) by {
        match mout {
            Some(_) => {},
            None => {},
        }
    }
    assert(rewired(ps, r, me, x, min, mout, bare, proper)[i] == grown[k] || (k == r && mout is Some)) by {
        match mout {
            Some(o) => {},
            None => {},
        }
    }
    if k >= ps.len() {
        let u = ps.update(r, base) + Seq::new(bare, |k: int| base.insert(x));
        if k < u.len() {
            assert(grown[k] == base.insert(x));
        } else {
            assert(grown[k] == base.insert(x).insert(min));
        }
    } else if k == r {
        match mout {
            Some(o) => { assert(rewired(ps, r, me, x, min, mout, bare, proper)[i] == base.insert(o)); },
            None => { assert(grown[k] == base); },
        }
    } else {
        assert(grown[k] == ps[k]);
    }
}

/// Rewiring a parent minterm for one edge into the lifted node keeps
/// another such edge ready.
pub proof fn lemma_rewired_keeps_ready(ps: Seq<Set<Column>>, r: int, me: Column, x: Column, min: Column,
    mout: Option<Column>, bare: nat, proper: bool, mq: Column, other: Set<Column>, other2: Set<Column>)
    requires
        0 <= r < ps.len(),
        ps[r].contains(me),
        edge_ready(ps, me, x, other),
        edge_ready(ps, mq, x, other),
        other.contains(mq),
        mq != me,
        mq != x,
        proper ==> mq != min,
        mout matches Some(o) ==> o != mq,
        other2.subset_of(other),
    ensures
        edge_ready(rewired(ps, r, me, x, min, mout, bare, proper), mq, x, other2),
{
    let f = rewired(ps, r, me, x, min, mout, bare, proper);
    assert(!ps[r].contains(mq));
    assert forall|i: int| 0 <= i < f.len() && #[trigger] f[i].contains(mq) implies {
        &&& !f[i].contains(x)
        &&& forall|j: int| 0 <= j < f.len() && #[trigger] f[j].contains(mq) ==> j == i
        &&& forall|c: Column| #[trigger] f[i].contains(c) && other2.contains(c) ==> c == mq
    } by {
        lemma_rewired_old_row(ps, r, me, x, min, mout, bare, proper, mq, i);
        let k = rewired_from(r, mout, i);
        assert(ps[k].contains(mq));
        assert forall|j: int| 0 <= j < f.len() && #[trigger] f[j].contains(mq) implies j == i by {
            lemma_rewired_old_row(ps, r, me, x, min, mout, bare, proper, mq, j);
            let kj = rewired_from(r, mout, j);
            assert(ps[kj].contains(mq));
            assert(kj == k);
        }
        assert forall|c: Column| #[trigger] f[i].contains(c) && other2.contains(c) implies c == mq by {
            assert(ps[k].contains(c) && other.contains(c));
        }
    }
}

/// The memory column of an optional edge.
pub open spec fn memory_of(e: Option<u32>) -> Option<Column> {
    match e {
        Some(k) => Some(Column::Memory(k)),
        None => None,
    }
}

/// One parent of `node` rewired for its edge `edge` (`st_a` before, `st_f`
/// after): every node keeps its value, when the value of `node` is the leaf
/// times the values of the new node `in_node` (reached by the new edge
/// `min`) and of the bare minterms, plus the value of the node that the new
/// edge `mout` reaches.
pub proof fn lemma_rewire_values(st_a: ReactiveCircuit, st_f: ReactiveCircuit, rank: Map<u32, nat>,
    val: spec_fn(u32) -> int, parent: u32, node: u32, edge: u32, row: int, x: u32, min: u32, mout: Option<u32>,
    in_node: u32, bare: nat, proper: bool)
    requires
        st_a.wf(),
        st_f.wf(),
        ranked(st_a.edges(), rank),
        ranked(st_f.edges(), rank),
        st_a.edges().contains_key(edge),
        st_a.edges()[edge] == (parent, node),
        st_f.nodes().dom() == st_a.nodes().dom(),
        forall|n: u32| #[trigger] st_a.nodes().contains_key(n) && n != parent ==> st_f.nodes()[n] == st_a.nodes()[n],
        forall|e: u32| #[trigger] st_a.edges().contains_key(e) && e != edge ==> st_f.edges().contains_key(e)
            && st_f.edges()[e] == st_a.edges()[e],
        proper ==> st_f.edges().contains_key(min) && st_f.edges()[min] == (parent, in_node)
            && (st_a.edges().contains_key(min) ==> min == edge),
        mout matches Some(eo) ==> st_f.edges().contains_key(eo) && st_f.edges()[eo].0 == parent
            && (st_a.edges().contains_key(eo) ==> eo == edge) && st_a.nodes().contains_key(st_f.edges()[eo].1)
            && rank[st_f.edges()[eo].1] == rank[node],
        proper ==> st_a.nodes().contains_key(in_node) && rank[in_node] == rank[node],
        0 <= row < st_a.nodes()[parent].products().len(),
        st_a.nodes()[parent].products()[row].contains(Column::Memory(edge)),
        edge_ready(st_a.nodes()[parent].products(), Column::Memory(edge), Column::Leaf(x), Set::empty()),
        st_f.nodes()[parent].products() == rewired(st_a.nodes()[parent].products(), row, Column::Memory(edge),
            Column::Leaf(x), Column::Memory(min), memory_of(mout), bare, proper),
        st_a.value(rank, val, node) == val(x) * ((if proper { st_a.value(rank, val, in_node) } else { 0 }) + bare)
            + (match mout { Some(eo) => st_a.value(rank, val, st_f.edges()[eo].1), None => 0 }),
    ensures
        forall|m: u32| #[trigger] st_a.nodes().contains_key(m) ==> st_f.value(rank, val, m) == st_a.value(rank, val, m),
{
    let below = |n: u32| st_a.nodes().contains_key(n) && n != parent && rank[n] < rank[parent];
    let none = |n: u32| false;
    assert(agrees_on(st_a, st_f, below, none)) by {
        assert forall|n: u32| #[trigger] below(n) implies {
            &&& st_a.nodes().contains_key(n)
            &&& st_f.nodes().contains_key(n)
            &&& st_f.nodes()[n] == st_a.nodes()[n]
            &&& forall|k: u32| #[trigger] st_a.nodes()[n].cols().contains(Column::Memory(k))
                ==> st_f.edges().contains_key(k) && st_f.edges()[k] == st_a.edges()[k]
                    && (below(st_a.edges()[k].1) || none(st_a.edges()[k].1))
        } by {
            assert forall|k: u32| #[trigger] st_a.nodes()[n].cols().contains(Column::Memory(k))
                implies st_f.edges().contains_key(k) && st_f.edges()[k] == st_a.edges()[k]
                    && (below(st_a.edges()[k].1) || none(st_a.edges()[k].1)) by {
                assert(st_a.edges().contains_key(k) && st_a.edges()[k].0 == n);
                let t = st_a.edges()[k].1;
                assert(rank[t] < rank[n]);
                assert(st_a.nodes().contains_key(t));
            }
        }
    }
    assert forall|n: u32| below(n) implies #[trigger] st_f.value(rank, val, n) == st_a.value(rank, val, n) by {
        lemma_values_agree(st_a, st_f, rank, val, below, none, n);
    }
    let ps = st_a.nodes()[parent].products();
    let pac = st_a.nodes()[parent];
    let a_old = atom_value(st_a.nodes(), st_a.edges(), rank, val, parent);
    let a_new = atom_value(st_f.nodes(), st_f.edges(), rank, val, parent);
    assert(st_a.nodes().contains_key(parent));
    assert(rank[node] < rank[parent]);
    assert forall|i: int, c: Column| 0 <= i < ps.len() && #[trigger] ps[i].contains(c) && c != Column::Memory(edge)
        implies a_new(c) == a_old(c) by {
        crate::circuit::pruning::lemma_products_in_cols(pac, i);
        if let Column::Memory(k) = c {
            assert(pac.cols().contains(c));
            assert(st_a.edges().contains_key(k) && st_a.edges()[k].0 == parent);
            let t = st_a.edges()[k].1;
            assert(st_a.nodes().contains_key(t));
            assert(k != edge);
            assert(st_f.edges().contains_key(k) && st_f.edges()[k] == st_a.edges()[k]);
            if rank[t] < rank[parent] {
                assert(below(t));
                assert(st_f.value(rank, val, t) == st_a.value(rank, val, t));
                assert(a_new(c) == st_f.value(rank, val, t));
                assert(a_old(c) == st_a.value(rank, val, t));
            } else {
                assert(a_new(c) == 0);
                assert(a_old(c) == 0);
            }
        }
    }
    assert forall|i: int, c: Column| 0 <= i < ps.len() && i != row && #[trigger] ps[i].contains(c)
        implies a_new(c) == a_old(c) by {
        if c == Column::Memory(edge) {
            assert(ps[row].contains(Column::Memory(edge)));
        }
    }
    assert forall|i: int| 0 <= i < ps.len() implies (#[trigger] ps[i]).finite() by {
        crate::circuit::pruning::lemma_products_in_cols(pac, i);
    }
    crate::circuit::pruning::lemma_products_in_cols(pac, row);
    assert(proper ==> !ps[row].remove(Column::Memory(edge)).contains(Column::Memory(min))) by {
        if proper && ps[row].remove(Column::Memory(edge)).contains(Column::Memory(min)) {
            assert(pac.cols().contains(Column::Memory(min)));
        }
    }
    assert(mout matches Some(eo) ==> !ps[row].remove(Column::Memory(edge)).contains(Column::Memory(eo))) by {
        if let Some(eo) = mout {
            if ps[row].remove(Column::Memory(edge)).contains(Column::Memory(eo)) {
                assert(pac.cols().contains(Column::Memory(eo)));
            }
        }
    }
    assert(!ps[row].contains(Column::Leaf(x)));
    assert(a_old(Column::Memory(edge)) == st_a.value(rank, val, node));
    if proper {
        assert(st_a.nodes().contains_key(in_node));
        assert(below(in_node));
        assert(a_new(Column::Memory(min)) == st_f.value(rank, val, in_node));
    }
    if let Some(eo) = mout {
        let o = st_f.edges()[eo].1;
        assert(below(o));
        assert(a_new(Column::Memory(eo)) == st_f.value(rank, val, o));
    }
    assert(a_new(Column::Leaf(x)) == val(x));
    let vi: int = if proper { st_a.value(rank, val, in_node) } else { 0 };
    let vo: int = match mout { Some(eo) => st_a.value(rank, val, st_f.edges()[eo].1), None => 0 };
    lemma_rewired_sum(ps, row, Column::Memory(edge), Column::Leaf(x), Column::Memory(min), memory_of(mout), bare, proper,
        a_old, a_new, st_a.value(rank, val, node), st_a.value(rank, val, in_node),
        match mout { Some(eo) => st_a.value(rank, val, st_f.edges()[eo].1), None => 0 });
    assert(st_f.value(rank, val, parent) == st_a.value(rank, val, parent));
    let others = |n: u32| st_a.nodes().contains_key(n) && n != parent;
    let par = |n: u32| n == parent;
    assert(agrees_on(st_a, st_f, others, par)) by {
        assert forall|n: u32| #[trigger] others(n) implies {
            &&& st_a.nodes().contains_key(n)
            &&& st_f.nodes().contains_key(n)
            &&& st_f.nodes()[n] == st_a.nodes()[n]
            &&& forall|k: u32| #[trigger] st_a.nodes()[n].cols().contains(Column::Memory(k))
                ==> st_f.edges().contains_key(k) && st_f.edges()[k] == st_a.edges()[k]
                    && (others(st_a.edges()[k].1) || par(st_a.edges()[k].1))
        } by {
            assert forall|k: u32| #[trigger] st_a.nodes()[n].cols().contains(Column::Memory(k))
                implies st_f.edges().contains_key(k) && st_f.edges()[k] == st_a.edges()[k]
                    && (others(st_a.edges()[k].1) || par(st_a.edges()[k].1)) by {
                assert(st_a.edges().contains_key(k) && st_a.edges()[k].0 == n);
                assert(st_a.nodes().contains_key(st_a.edges()[k].1));
            }
        }
    }
    assert forall|m: u32| #[trigger] st_a.nodes().contains_key(m) implies st_f.value(rank, val, m) == st_a.value(rank, val, m) by {
        if m != parent {
            lemma_values_agree(st_a, st_f, rank, val, others, par, m);
        }
    }
}

/// Readiness for fewer other variables.
pub proof fn lemma_edge_ready_weaken(ps: Seq<Set<Column>>, me: Column, x: Column, other: Set<Column>, other2: Set<Column>)
    requires
        edge_ready(ps, me, x, other),
        other2.subset_of(other),
    ensures
        edge_ready(ps, me, x, other2),
{
}

/// A parent whose edge `edge` was removed with its memory, which no minterm
/// held (`st_a` before, `st_f` after): every node keeps its value.
pub proof fn lemma_detached_values(st_a: ReactiveCircuit, st_f: ReactiveCircuit, rank: Map<u32, nat>,
    val: spec_fn(u32) -> int, parent: u32, edge: u32)
    requires
        st_a.wf(),
        st_f.wf(),
        ranked(st_a.edges(), rank),
        ranked(st_f.edges(), rank),
        st_a.edges().contains_key(edge),
        st_a.edges()[edge].0 == parent,
        st_f.nodes().dom() == st_a.nodes().dom(),
        forall|n: u32| #[trigger] st_a.nodes().contains_key(n) && n != parent ==> st_f.nodes()[n] == st_a.nodes()[n],
        forall|e: u32| #[trigger] st_a.edges().contains_key(e) && e != edge ==> st_f.edges().contains_key(e)
            && st_f.edges()[e] == st_a.edges()[e],
        st_f.nodes()[parent].products() == st_a.nodes()[parent].products(),
        forall|i: int| 0 <= i < st_a.nodes()[parent].products().len()
            ==> !(#[trigger] st_a.nodes()[parent].products()[i]).contains(Column::Memory(edge)),
    ensures
        forall|m: u32| #[trigger] st_a.nodes().contains_key(m) ==> st_f.value(rank, val, m) == st_a.value(rank, val, m),
{
    let below = |n: u32| st_a.nodes().contains_key(n) && n != parent && rank[n] < rank[parent];
    let none = |n: u32| false;
    assert(agrees_on(st_a, st_f, below, none)) by {
        assert forall|n: u32| #[trigger] below(n) implies {
            &&& st_a.nodes().contains_key(n)
            &&& st_f.nodes().contains_key(n)
            &&& st_f.nodes()[n] == st_a.nodes()[n]
            &&& forall|k: u32| #[trigger] st_a.nodes()[n].cols().contains(Column::Memory(k))
                ==> st_f.edges().contains_key(k) && st_f.edges()[k] == st_a.edges()[k]
                    && (below(st_a.edges()[k].1) || none(st_a.edges()[k].1))
        } by {
            assert forall|k: u32| #[trigger] st_a.nodes()[n].cols().contains(Column::Memory(k))
                implies st_f.edges().contains_key(k) && st_f.edges()[k] == st_a.edges()[k]
                    && (below(st_a.edges()[k].1) || none(st_a.edges()[k].1)) by {
                assert(st_a.edges().contains_key(k) && st_a.edges()[k].0 == n);
                assert(st_a.nodes().contains_key(st_a.edges()[k].1));
            }
        }
    }
    let ps = st_a.nodes()[parent].products();
    let pac = st_a.nodes()[parent];
    let a_old = atom_value(st_a.nodes(), st_a.edges(), rank, val, parent);
    let a_new = atom_value(st_f.nodes(), st_f.edges(), rank, val, parent);
    assert(st_a.nodes().contains_key(parent));
    assert forall|i: int| 0 <= i < ps.len() implies set_product(#[trigger] ps[i], a_new) == set_product(ps[i], a_old) by {
        crate::circuit::pruning::lemma_products_in_cols(pac, i);
        assert forall|c: Column| #[trigger] ps[i].contains(c) implies a_new(c) == a_old(c) by {
            if let Column::Memory(k) = c {
                assert(pac.cols().contains(c));
                assert(st_a.edges().contains_key(k) && st_a.edges()[k].0 == parent);
                let t = st_a.edges()[k].1;
                assert(st_a.nodes().contains_key(t));
                assert(k != edge);
                assert(st_f.edges().contains_key(k) && st_f.edges()[k] == st_a.edges()[k]);
                if rank[t] < rank[parent] {
                    lemma_values_agree(st_a, st_f, rank, val, below, none, t);
                    assert(a_new(c) == st_f.value(rank, val, t));
                    assert(a_old(c) == st_a.value(rank, val, t));
                } else {
                    assert(a_new(c) == 0);
                    assert(a_old(c) == 0);
                }
            }
        }
        lemma_set_product_agree(ps[i], a_new, a_old);
    }
    lemma_sum_pointwise(ps, ps, a_new, a_old);
    assert(st_f.value(rank, val, parent) == st_a.value(rank, val, parent));
    let others = |n: u32| st_a.nodes().contains_key(n) && n != parent;
    let par = |n: u32| n == parent;
    assert(agrees_on(st_a, st_f, others, par)) by {
        assert forall|n: u32| #[trigger] others(n) implies {
            &&& st_a.nodes().contains_key(n)
            &&& st_f.nodes().contains_key(n)
            &&& st_f.nodes()[n] == st_a.nodes()[n]
            &&& forall|k: u32| #[trigger] st_a.nodes()[n].cols().contains(Column::Memory(k))
                ==> st_f.edges().contains_key(k) && st_f.edges()[k] == st_a.edges()[k]
                    && (others(st_a.edges()[k].1) || par(st_a.edges()[k].1))
        } by {
            assert forall|k: u32| #[trigger] st_a.nodes()[n].cols().contains(Column::Memory(k))
                implies st_f.edges().contains_key(k) && st_f.edges()[k] == st_a.edges()[k]
                    && (others(st_a.edges()[k].1) || par(st_a.edges()[k].1)) by {
                assert(st_a.edges().contains_key(k) && st_a.edges()[k].0 == n);
                assert(st_a.nodes().contains_key(st_a.edges()[k].1));
            }
        }
    }
    assert forall|m: u32| #[trigger] st_a.nodes().contains_key(m) implies st_f.value(rank, val, m) == st_a.value(rank, val, m) by {
        if m != parent {
            lemma_values_agree(st_a, st_f, rank, val, others, par, m);
        }
    }
}

/// Whether node `nn` of `st` holds circuit `c` without leaf `x`, its
/// memories moved to edges of its own (`e0` the edges before the move, `e1`
/// after), which `st` still has.
pub open spec fn moved_node(st: ReactiveCircuit, nn: u32, c: AlgebraicCircuit, x: u32, e0: Map<u32, (u32, u32)>,
    e1: Map<u32, (u32, u32)>) -> bool {
    &&& st.nodes().contains_key(nn)
    &&& st.nodes()[nn].rows() == strip_leaf(c, x).1
    &&& st.nodes()[nn].cols().len() == strip_leaf(c, x).0.len()
    &&& strip_leaf(c, x).0.no_duplicates()
    &&& forall|i: int| 0 <= i < strip_leaf(c, x).1.len() ==> row_ok(#[trigger] strip_leaf(c, x).1[i], strip_leaf(c, x).0.len())
    &&& strip_leaf(c, x).1.map_values(|r: Seq<usize>| row_vars(r, strip_leaf(c, x).0)) == stripped_products(c, x)
    &&& forall|q: int| 0 <= q < strip_leaf(c, x).0.len() ==> moved_column(#[trigger] strip_leaf(c, x).0[q],
        st.nodes()[nn].cols()[q], nn, e0, e1)
    &&& forall|m: u32| #[trigger] e1.contains_key(m) && !e0.contains_key(m) && e1[m].0 == nn
        ==> st.edges().contains_key(m) && st.edges()[m] == e1[m]
}

/// The columns of a circuit without a leaf are some of its columns.
pub proof fn lemma_strip_cols(c: AlgebraicCircuit, x: u32, v: Column)
    requires
        strip_leaf(c, x).0.contains(v),
    ensures
        c.cols().contains(v),
{
    match find_column(c.cols(), Column::Leaf(x)) {
        Some(k) => {
            let q = choose|q: int| 0 <= q < strip_leaf(c, x).0.len() && strip_leaf(c, x).0[q] == v;
            if q < k { assert(c.cols()[q] == v); } else { assert(c.cols()[q + 1] == v); }
        },
        None => {},
    }
}

/// A moved node at the rank of node `n`, whose old memories were edges of
/// `st` out of `n`, has the value of its stripped products valued at `n`.
pub proof fn lemma_moved_value(st: ReactiveCircuit, rank: Map<u32, nat>, val: spec_fn(u32) -> int, n: u32, nn: u32,
    c: AlgebraicCircuit, x: u32, e0: Map<u32, (u32, u32)>, e1: Map<u32, (u32, u32)>)
    requires
        st.wf(),
        moved_node(st, nn, c, x, e0, e1),
        rank[nn] == rank[n],
        forall|k: u32| #[trigger] c.cols().contains(Column::Memory(k)) ==> st.edges().contains_key(k)
            && e0.contains_key(k) && st.edges()[k] == e0[k],
    ensures
        st.value(rank, val, nn) == sum_products(stripped_products(c, x), atom_value(st.nodes(), st.edges(), rank, val, n)),
{
    let cols_src = strip_leaf(c, x).0;
    assert forall|k: u32| #[trigger] cols_src.contains(Column::Memory(k)) implies st.edges().contains_key(k)
        && e0.contains_key(k) && st.edges()[k] == e0[k] by {
        lemma_strip_cols(c, x, Column::Memory(k));
    }
    lemma_moved_atoms(st, rank, val, n, nn, cols_src, st.nodes()[nn].cols(), e0, e1);
    lemma_renamed_sum(st, rank, val, n, nn, cols_src, stripped_products(c, x));
}

/// The value of the lifted node before its parents are rewired: the leaf
/// times the values of the node of the minterms that held it (when some
/// were not the leaf alone) and of the bare minterms, plus the value of the
/// node of the other minterms.
pub proof fn lemma_lifted_identity(st: ReactiveCircuit, rank: Map<u32, nat>, val: spec_fn(u32) -> int, node: u32, x: u32,
    in_c: AlgebraicCircuit, out_c: Option<AlgebraicCircuit>, in_node: u32, out_node: Option<u32>, proper: bool,
    bare: nat, xc: usize, ei0: Map<u32, (u32, u32)>, ei1: Map<u32, (u32, u32)>, eo0: Map<u32, (u32, u32)>,
    eo1: Map<u32, (u32, u32)>)
    requires
        st.wf(),
        st.nodes().contains_key(node),
        st.nodes()[node].cols().contains(Column::Leaf(x)),
        split_part(st.nodes()[node], Some(in_c), has_var(Column::Leaf(x), true)),
        split_part(st.nodes()[node], out_c, has_var(Column::Leaf(x), false)),
        xc < in_c.cols().len(),
        in_c.cols()[xc as int] == Column::Leaf(x),
        bare == in_c.rows().filter(|r: Seq<usize>| r == seq![xc]).len(),
        strip_leaf(in_c, x).1.map_values(|r: Seq<usize>| row_vars(r, strip_leaf(in_c, x).0)) == stripped_products(in_c, x),
        proper ==> moved_node(st, in_node, in_c, x, ei0, ei1) && rank[in_node] == rank[node],
        !proper ==> strip_leaf(in_c, x).1.len() == 0,
        out_c matches Some(oc) ==> out_node matches Some(on) && moved_node(st, on, oc, x, eo0, eo1) && rank[on] == rank[node],
        out_c is None ==> out_node is None,
        forall|k: u32| #[trigger] st.nodes()[node].cols().contains(Column::Memory(k)) ==> st.edges().contains_key(k)
            && ei0.contains_key(k) && st.edges()[k] == ei0[k] && eo0.contains_key(k) && st.edges()[k] == eo0[k],
    ensures
        st.value(rank, val, node) == val(x) * ((if proper { st.value(rank, val, in_node) } else { 0 }) + bare)
            + (match out_node { Some(on) => st.value(rank, val, on), None => 0 }),
{
    let whole = st.nodes()[node];
    let a = atom_value(st.nodes(), st.edges(), rank, val, node);
    let ins = whole.products().filter(has_var(Column::Leaf(x), true));
    let outs = whole.products().filter(has_var(Column::Leaf(x), false));
    assert(in_c.products() == ins);
    assert(in_c.cols().contains(Column::Leaf(x)));
    let inner = ins.map_values(|p: Set<Column>| p.remove(Column::Leaf(x)));
    assert(stripped_products(in_c, x) == inner.filter(|p: Set<Column>| p.len() > 0));
    let vin = sum_products(inner.filter(|p: Set<Column>| p.len() > 0), a);
    assert forall|k: u32| #[trigger] in_c.cols().contains(Column::Memory(k)) implies whole.cols().contains(Column::Memory(k)) by {
        let q = choose|q: int| 0 <= q < in_c.cols().len() && in_c.cols()[q] == Column::Memory(k);
        crate::lemmas::lemma_filter_elem(whole.cols(), occurs(in_c.products()), q);
    }
    if proper {
        lemma_moved_value(st, rank, val, node, in_node, in_c, x, ei0, ei1);
    } else {
        assert(stripped_products(in_c, x).len() == 0);
        assert(stripped_products(in_c, x) =~= Seq::<Set<Column>>::empty());
    }
    let vout: int = match out_node { Some(on) => st.value(rank, val, on), None => 0 };
    match out_c {
        Some(oc) => {
            let on = out_node->0;
            assert(oc.products() == outs);
            assert(!oc.cols().contains(Column::Leaf(x))) by {
                if oc.cols().contains(Column::Leaf(x)) {
                    let q = choose|q: int| 0 <= q < oc.cols().len() && oc.cols()[q] == Column::Leaf(x);
                    crate::lemmas::lemma_filter_elem(whole.cols(), occurs(oc.products()), q);
                    let i = choose|i: int| 0 <= i < oc.products().len() && #[trigger] oc.products()[i].contains(Column::Leaf(x));
                    whole.products().lemma_filter_pred(has_var(Column::Leaf(x), false), i);
                }
            }
            assert(stripped_products(oc, x) == outs);
            assert forall|k: u32| #[trigger] oc.cols().contains(Column::Memory(k)) implies st.edges().contains_key(k)
                && eo0.contains_key(k) && st.edges()[k] == eo0[k] by {
                let q = choose|q: int| 0 <= q < oc.cols().len() && oc.cols()[q] == Column::Memory(k);
                crate::lemmas::lemma_filter_elem(whole.cols(), occurs(oc.products()), q);
            }
            lemma_moved_value(st, rank, val, node, on, oc, x, eo0, eo1);
            assert(vout == sum_products(outs, a));
        },
        None => {
            assert(outs.len() == 0);
            assert(outs =~= Seq::<Set<Column>>::empty());
            assert(vout == sum_products(outs, a));
        },
    }
    assert forall|i: int| 0 <= i < in_c.products().len() implies (#[trigger] in_c.products()[i]).contains(in_c.cols()[xc as int]) by {
        whole.products().lemma_filter_pred(has_var(Column::Leaf(x), true), i);
    }
    lemma_bare_count(in_c, xc);
    lemma_split_value(st, rank, val, node, x, vin, vout, bare as int);
}

/// A circuit keeps its own values.
pub proof fn lemma_keeps_common_same(rc: ReactiveCircuit)
    requires
        rc.wf(),
    ensures
        keeps_common_values(rc, rc),
{
    assert forall|rank: Map<u32, nat>, rank2: Map<u32, nat>, val: spec_fn(u32) -> int, m: u32|
        ranked(rc.edges(), rank) && ranked(rc.edges(), rank2) && rc.nodes().contains_key(m) && rc.nodes().contains_key(m)
        implies #[trigger] rc.value(rank2, val, m) == #[trigger] rc.value(rank, val, m) by {
        crate::circuit::semantics::lemma_rank_free(rc, rank, rank2, val, m);
    }
}

/// Adding nodes and edges keeps the values of the nodes there were.
pub proof fn lemma_extension_values(a: ReactiveCircuit, b: ReactiveCircuit, rank: Map<u32, nat>, val: spec_fn(u32) -> int,
    m: u32)
    requires
        a.wf(),
        b.wf(),
        ranked(b.edges(), rank),
        forall|n: u32| #[trigger] a.nodes().contains_key(n) ==> b.nodes().contains_key(n) && b.nodes()[n] == a.nodes()[n],
        forall|e: u32| #[trigger] a.edges().contains_key(e) ==> b.edges().contains_key(e) && b.edges()[e] == a.edges()[e],
        a.nodes().contains_key(m),
    ensures
        ranked(a.edges(), rank),
        b.value(rank, val, m) == a.value(rank, val, m),
{
    assert forall|e: u32| #[trigger] a.edges().contains_key(e) implies rank[a.edges()[e].1] < rank[a.edges()[e].0] by {
        assert(b.edges().contains_key(e));
    }
    let kept = |n: u32| a.nodes().contains_key(n);
    let none = |n: u32| false;
    assert(agrees_on(a, b, kept, none)) by {
        assert forall|n: u32| #[trigger] kept(n) implies {
            &&& a.nodes().contains_key(n)
            &&& b.nodes().contains_key(n)
            &&& b.nodes()[n] == a.nodes()[n]
            &&& forall|k: u32| #[trigger] a.nodes()[n].cols().contains(Column::Memory(k))
                ==> b.edges().contains_key(k) && b.edges()[k] == a.edges()[k]
                    && (kept(a.edges()[k].1) || none(a.edges()[k].1))
        } by {
            assert forall|k: u32| #[trigger] a.nodes()[n].cols().contains(Column::Memory(k))
                implies b.edges().contains_key(k) && b.edges()[k] == a.edges()[k]
                    && (kept(a.edges()[k].1) || none(a.edges()[k].1)) by {
                assert(a.edges().contains_key(k));
                assert(a.nodes().contains_key(a.edges()[k].1));
            }
        }
    }
    lemma_values_agree(a, b, rank, val, kept, none, m);
}

/// Adding nodes and edges keeps the values of the nodes there were, under
/// any rankings.
pub proof fn lemma_extension_keeps(a: ReactiveCircuit, b: ReactiveCircuit)
    requires
        a.wf(),
        b.wf(),
        forall|n: u32| #[trigger] a.nodes().contains_key(n) ==> b.nodes().contains_key(n) && b.nodes()[n] == a.nodes()[n],
        forall|e: u32| #[trigger] a.edges().contains_key(e) ==> b.edges().contains_key(e) && b.edges()[e] == a.edges()[e],
    ensures
        keeps_common_values(a, b),
{
    assert forall|rank: Map<u32, nat>, rank2: Map<u32, nat>, val: spec_fn(u32) -> int, m: u32|
        ranked(a.edges(), rank) && ranked(b.edges(), rank2) && a.nodes().contains_key(m) && b.nodes().contains_key(m)
        implies #[trigger] b.value(rank2, val, m) == #[trigger] a.value(rank, val, m) by {
        lemma_extension_values(a, b, rank2, val, m);
        crate::circuit::semantics::lemma_rank_free(a, rank, rank2, val, m);
    }
}

/// The lifted ranking ranks the graph with the new parent (`above`) and
/// the new nodes of the split (`below`).
pub proof fn lemma_lift_ranked(o: ReactiveCircuit, mid: ReactiveCircuit, ready: ReactiveCircuit, rank: Map<u32, nat>,
    node: u32, above: Set<u32>, below: Set<u32>)
    requires
        o.wf(),
        ranked(o.edges(), rank),
        o.nodes().contains_key(node),
        !above.contains(node),
        !below.contains(node),
        forall|n: u32| #[trigger] o.nodes().contains_key(n) ==> !above.contains(n) && !below.contains(n),
        forall|e: u32| #[trigger] mid.edges().contains_key(e) ==> (o.edges().contains_key(e) && mid.edges()[e] == o.edges()[e])
            || (mid.edges()[e].1 == node && above.contains(mid.edges()[e].0)),
        forall|e: u32| #[trigger] ready.edges().contains_key(e) ==> (mid.edges().contains_key(e)
            && ready.edges()[e] == mid.edges()[e]) || (below.contains(ready.edges()[e].0)
            && exists|k: u32| #[trigger] o.edges().contains_key(k) && o.edges()[k] == (node, ready.edges()[e].1)),
    ensures
        ranked(o.edges(), lift_rank(rank, node, above, below)),
        ranked(mid.edges(), lift_rank(rank, node, above, below)),
        ranked(ready.edges(), lift_rank(rank, node, above, below)),
{
    let rho = lift_rank(rank, node, above, below);
    assert forall|e: u32| #[trigger] o.edges().contains_key(e) implies rho[o.edges()[e].1] < rho[o.edges()[e].0] by {
        assert(o.nodes().contains_key(o.edges()[e].0) && o.nodes().contains_key(o.edges()[e].1));
    }
    assert forall|e: u32| #[trigger] mid.edges().contains_key(e) implies rho[mid.edges()[e].1] < rho[mid.edges()[e].0] by {
        if o.edges().contains_key(e) && mid.edges()[e] == o.edges()[e] {
            assert(rho[o.edges()[e].1] < rho[o.edges()[e].0]);
        }
    }
    assert forall|e: u32| #[trigger] ready.edges().contains_key(e) implies rho[ready.edges()[e].1] < rho[ready.edges()[e].0] by {
        if mid.edges().contains_key(e) && ready.edges()[e] == mid.edges()[e] {
            assert(rho[mid.edges()[e].1] < rho[mid.edges()[e].0]);
        } else {
            let k = choose|k: u32| #[trigger] o.edges().contains_key(k) && o.edges()[k] == (node, ready.edges()[e].1);
            assert(rho[o.edges()[k].1] < rho[o.edges()[k].0]);
        }
    }
}

/// Making sure that `node` has a parent keeps the lift ready: either the
/// graph is unchanged, or a new parent `p` with the single minterm of the
/// memory of a new edge `e` to `node` is added to a node that had none.
pub proof fn lemma_parent_made_ready(o: ReactiveCircuit, mid: ReactiveCircuit, node: u32, x: u32, p: u32, e: u32,
    had_parents: bool)
    requires
        o.wf(),
        mid.wf(),
        o.nodes().contains_key(node),
        had_parents <==> exists|f: u32| #[trigger] o.edges().contains_key(f) && o.edges()[f].1 == node,
        had_parents ==> mid.nodes() == o.nodes() && mid.edges() == o.edges(),
        !had_parents ==> {
            &&& !o.nodes().contains_key(p)
            &&& !o.edges().contains_key(e)
            &&& mid.nodes().remove(p) == o.nodes()
            &&& mid.edges() == o.edges().insert(e, (p, node))
            &&& mid.nodes()[p].cols() == seq![Column::Memory(e)]
            &&& mid.nodes()[p].rows() == seq![seq![0usize]]
        },
        lift_ready(o, node, x),
    ensures
        lift_ready(mid, node, x),
{
    if !had_parents {
        assert forall|f: u32| #[trigger] mid.edges().contains_key(f) && mid.edges()[f].1 == node
            implies edge_ready(mid.nodes()[mid.edges()[f].0].products(), Column::Memory(f), Column::Leaf(x),
                memories_into(mid, node)) by {
            if f != e {
                assert(o.edges().contains_key(f) && o.edges()[f].1 == node);
            }
            let ps = mid.nodes()[p].products();
            assert(mid.nodes()[p].rows()[0] == seq![0usize]);
            assert(ps[0] == row_vars(seq![0usize], seq![Column::Memory(e)]));
            assert(ps[0] =~= set![Column::Memory(e)]) by {
                assert forall|v: Column| ps[0].contains(v) <==> v == Column::Memory(e) by {
                    if ps[0].contains(v) {
                        let c = choose|c: usize| seq![0usize].to_set().contains(c) && seq![Column::Memory(e)][c as int] == v;
                        let i = choose|i: int| 0 <= i < 1 && seq![0usize][i] == c;
                    }
                    if v == Column::Memory(e) {
                        assert(seq![0usize][0] == 0usize);
                        assert(seq![0usize][0] == 0usize);
        assert(seq![0usize].contains(0usize));
        assert(seq![0usize].to_set().contains(0usize));
                    }
                }
            }
            assert forall|c: Column| #[trigger] ps[0].contains(c) && memories_into(mid, node).contains(c)
                implies c == Column::Memory(e) by {}
        }
    }
}

/// The memories of the edges `parents[q].1` from position `j` on.
pub open spec fn pending_memories(parents: Seq<(u32, u32)>, j: int) -> Set<Column> {
    Set::new(|c: Column| exists|q: int| j <= q < parents.len() && c == Column::Memory(#[trigger] parents[q].1))
}

/// What rewiring parent `parent` for its edge `edge` into `node` did
/// (`st_a` before, `st_f` after; `res` the minterm and the new edges).
pub open spec fn rewired_step(st_a: ReactiveCircuit, st_f: ReactiveCircuit, parent: u32, node: u32, edge: u32, x: u32,
    in_node: u32, out_node: Option<u32>, proper: bool, bare: nat, res: Option<(int, u32, Option<u32>)>) -> bool {
    let ps = st_a.nodes()[parent].products();
    &&& st_f.nodes().dom() == st_a.nodes().dom()
    &&& forall|n: u32| #[trigger] st_a.nodes().contains_key(n) && n != parent ==> st_f.nodes()[n] == st_a.nodes()[n]
    &&& forall|e: u32| #[trigger] st_a.edges().contains_key(e) && e != edge
        ==> st_f.edges().contains_key(e) && st_f.edges()[e] == st_a.edges()[e]
    &&& forall|e: u32| #[trigger] st_f.edges().contains_key(e) ==> (st_a.edges().contains_key(e)
        && e != edge && st_f.edges()[e] == st_a.edges()[e]) || (st_f.edges()[e].0 == parent
        && ((proper && st_f.edges()[e].1 == in_node) || out_node == Some(st_f.edges()[e].1)))
    &&& res is None ==> st_f.nodes()[parent].products() == ps
    &&& res is None ==> forall|i: int| 0 <= i < ps.len() ==> !(#[trigger] ps[i]).contains(Column::Memory(edge))
    &&& res matches Some((row, min, mout)) ==> {
        &&& 0 <= row < ps.len()
        &&& ps[row].contains(Column::Memory(edge))
        &&& edge_ready(ps, Column::Memory(edge), Column::Leaf(x), Set::empty())
            ==> st_f.nodes()[parent].products() == rewired(ps, row, Column::Memory(edge), Column::Leaf(x),
                Column::Memory(min), memory_of(mout), bare, proper)
        &&& proper ==> st_f.edges().contains_key(min) && st_f.edges()[min] == (parent, in_node)
            && (st_a.edges().contains_key(min) ==> min == edge)
        &&& mout is Some <==> out_node is Some
        &&& mout matches Some(eo) ==> st_f.edges().contains_key(eo) && st_f.edges()[eo] == (parent, out_node->0)
            && (st_a.edges().contains_key(eo) ==> eo == edge)
    }
}

/// One parent rewired keeps the lifted ranking and the values.
pub proof fn lemma_lift_step_values(st_a: ReactiveCircuit, st_f: ReactiveCircuit, o: ReactiveCircuit, ready: ReactiveCircuit,
    node: u32, parent: u32, edge: u32, x: u32, in_node: u32, out_node: Option<u32>, proper: bool, bare: nat,
    above: Set<u32>, below: Set<u32>, res: Option<(int, u32, Option<u32>)>)
    requires
        st_a.wf(),
        st_f.wf(),
        st_a.edges().contains_key(edge),
        st_a.edges()[edge] == (parent, node),
        st_a.nodes().dom() == ready.nodes().dom(),
        proper ==> st_a.nodes().contains_key(in_node) && below.contains(in_node),
        out_node matches Some(on) ==> st_a.nodes().contains_key(on) && below.contains(on),
        !above.contains(node),
        !below.contains(node),
        forall|n: u32| #[trigger] below.contains(n) ==> !above.contains(n),
        forall|r: Map<u32, nat>| ranked(o.edges(), r) ==> #[trigger] ranked(st_a.edges(), lift_rank(r, node, above, below)),
        forall|r: Map<u32, nat>, val: spec_fn(u32) -> int, m: u32| ranked(o.edges(), r) && ready.nodes().contains_key(m)
            ==> #[trigger] st_a.value(lift_rank(r, node, above, below), val, m) == ready.value(lift_rank(r, node, above, below), val, m),
        forall|r: Map<u32, nat>, val: spec_fn(u32) -> int| ranked(o.edges(), r) ==>
            #[trigger] ready.value(lift_rank(r, node, above, below), val, node) == val(x) * ((if proper {
                ready.value(lift_rank(r, node, above, below), val, in_node) } else { 0 }) + bare)
                + (match out_node { Some(on) => ready.value(lift_rank(r, node, above, below), val, on), None => 0 }),
        edge_ready(st_a.nodes()[parent].products(), Column::Memory(edge), Column::Leaf(x), Set::empty()),
        rewired_step(st_a, st_f, parent, node, edge, x, in_node, out_node, proper, bare, res),
    ensures
        forall|r: Map<u32, nat>| ranked(o.edges(), r) ==> #[trigger] ranked(st_f.edges(), lift_rank(r, node, above, below)),
        forall|r: Map<u32, nat>, val: spec_fn(u32) -> int, m: u32| ranked(o.edges(), r) && ready.nodes().contains_key(m)
            ==> #[trigger] st_f.value(lift_rank(r, node, above, below), val, m) == ready.value(lift_rank(r, node, above, below), val, m),
{
    assert forall|r: Map<u32, nat>| ranked(o.edges(), r) implies #[trigger] ranked(st_f.edges(), lift_rank(r, node, above, below)) by {
        let rho = lift_rank(r, node, above, below);
        assert(ranked(st_a.edges(), rho));
        assert(rho[node] < rho[parent]);
        assert forall|e: u32| #[trigger] st_f.edges().contains_key(e) implies rho[st_f.edges()[e].1] < rho[st_f.edges()[e].0] by {
            if !(st_a.edges().contains_key(e) && e != edge && st_f.edges()[e] == st_a.edges()[e]) {
                assert(st_f.edges()[e].0 == parent);
            }
        }
    }
    assert forall|r: Map<u32, nat>, val: spec_fn(u32) -> int, m: u32| ranked(o.edges(), r) && ready.nodes().contains_key(m)
        implies #[trigger] st_f.value(lift_rank(r, node, above, below), val, m) == ready.value(lift_rank(r, node, above, below), val, m) by {
        let rho = lift_rank(r, node, above, below);
        assert(ranked(st_a.edges(), rho));
        assert(ranked(st_f.edges(), rho));
        assert(st_a.nodes().contains_key(m));
        match res {
            None => {
                lemma_detached_values(st_a, st_f, rho, val, parent, edge);
            },
            Some((row, min, mout)) => {
                assert(st_a.value(rho, val, node) == ready.value(rho, val, node));
                if proper {
                    assert(st_a.value(rho, val, in_node) == ready.value(rho, val, in_node));
                }
                if let Some(eo) = mout {
                    let on = out_node->0;
                    assert(st_f.edges()[eo].1 == on);
                    assert(st_a.value(rho, val, on) == ready.value(rho, val, on));
                    assert(rho[on] == r[node]);
                    assert(rho[node] == r[node]);
                    assert(st_a.nodes().contains_key(st_f.edges()[eo].1));
                }
                if proper {
                    assert(rho[in_node] == r[node]);
                    assert(rho[node] == r[node]);
                }
                lemma_rewire_values(st_a, st_f, rho, val, parent, node, edge, row, x, min, mout, in_node, bare, proper);
            },
        }
        assert(st_f.value(rho, val, m) == st_a.value(rho, val, m));
    }
}

/// One parent rewired keeps the other pending edges into `node` ready.
pub proof fn lemma_lift_step_ready(st_a: ReactiveCircuit, st_f: ReactiveCircuit, parents: Seq<(u32, u32)>, j: int, node: u32,
    parent: u32, edge: u32, x: u32, in_node: u32, out_node: Option<u32>, proper: bool, bare: nat,
    res: Option<(int, u32, Option<u32>)>)
    requires
        st_a.wf(),
        st_f.wf(),
        0 <= j < parents.len(),
        parents[j] == (parent, edge),
        parents.map_values(|p: (u32, u32)| p.1).no_duplicates(),
        forall|q: int| j <= q < parents.len() ==> st_a.edges().contains_key(#[trigger] parents[q].1)
            && st_a.edges()[parents[q].1] == (parents[q].0, node),
        forall|q: int| j <= q < parents.len() ==> #[trigger] edge_ready(
            st_a.nodes()[parents[q].0].products(), Column::Memory(parents[q].1), Column::Leaf(x),
            pending_memories(parents, j)),
        rewired_step(st_a, st_f, parent, node, edge, x, in_node, out_node, proper, bare, res),
        st_a.nodes().contains_key(parent),
    ensures
        forall|q: int| j + 1 <= q < parents.len() ==> #[trigger] edge_ready(
            st_f.nodes()[parents[q].0].products(), Column::Memory(parents[q].1), Column::Leaf(x),
            pending_memories(parents, j + 1)),
{
    let pj = pending_memories(parents, j);
    let pj1 = pending_memories(parents, j + 1);
    assert(pj1.subset_of(pj)) by {
        assert forall|c: Column| #[trigger] pj1.contains(c) implies pj.contains(c) by {
            let q = choose|q: int| j + 1 <= q < parents.len() && c == Column::Memory(#[trigger] parents[q].1);
        }
    }
    assert(edge_ready(st_a.nodes()[parents[j].0].products(), Column::Memory(parents[j].1), Column::Leaf(x), pj));
    lemma_edge_ready_weaken(st_a.nodes()[parent].products(), Column::Memory(edge), Column::Leaf(x), pj, Set::empty());
    assert forall|q: int| j + 1 <= q < parents.len() implies #[trigger] edge_ready(
        st_f.nodes()[parents[q].0].products(), Column::Memory(parents[q].1), Column::Leaf(x), pj1) by {
        let pq = parents[q].0;
        let eq = parents[q].1;
        assert(edge_ready(st_a.nodes()[pq].products(), Column::Memory(eq), Column::Leaf(x), pj));
        assert(parents.map_values(|p: (u32, u32)| p.1)[q] != parents.map_values(|p: (u32, u32)| p.1)[j]);
        assert(eq != edge);
        assert(st_a.edges().contains_key(eq));
        if pq != parent {
            assert(st_a.nodes().contains_key(pq));
            lemma_edge_ready_weaken(st_a.nodes()[pq].products(), Column::Memory(eq), Column::Leaf(x), pj, pj1);
        } else {
            match res {
                None => {
                    lemma_edge_ready_weaken(st_a.nodes()[pq].products(), Column::Memory(eq), Column::Leaf(x), pj, pj1);
                },
                Some((row, min, mout)) => {
                    assert(pj.contains(Column::Memory(eq)));
                    assert(pj.contains(Column::Memory(edge)));
                    lemma_rewired_keeps_ready(st_a.nodes()[parent].products(), row, Column::Memory(edge), Column::Leaf(x),
                        Column::Memory(min), memory_of(mout), bare, proper, Column::Memory(eq), pj, pj1);
                },
            }
        }
    }
}

/// The lift as a whole: from `o` a parent was made (`mid`), the split
/// nodes added (`ready`), the parents rewired (`st_end`) and the lifted
/// node removed (`fin`); every node of `o` still in `fin` keeps its value.
pub proof fn lemma_lift_final_values(o: ReactiveCircuit, mid: ReactiveCircuit, ready: ReactiveCircuit, st_end: ReactiveCircuit,
    fin: ReactiveCircuit, node: u32, above: Set<u32>, below: Set<u32>)
    requires
        o.wf(),
        mid.wf(),
        ready.wf(),
        st_end.wf(),
        fin.wf(),
        forall|n: u32| #[trigger] o.nodes().contains_key(n) ==> mid.nodes().contains_key(n) && mid.nodes()[n] == o.nodes()[n],
        forall|e: u32| #[trigger] o.edges().contains_key(e) ==> mid.edges().contains_key(e) && mid.edges()[e] == o.edges()[e],
        forall|n: u32| #[trigger] mid.nodes().contains_key(n) ==> ready.nodes().contains_key(n) && ready.nodes()[n] == mid.nodes()[n],
        forall|e: u32| #[trigger] mid.edges().contains_key(e) ==> ready.edges().contains_key(e) && ready.edges()[e] == mid.edges()[e],
        forall|r: Map<u32, nat>| ranked(o.edges(), r) ==> #[trigger] ranked(ready.edges(), lift_rank(r, node, above, below)),
        forall|r: Map<u32, nat>| ranked(o.edges(), r) ==> #[trigger] ranked(st_end.edges(), lift_rank(r, node, above, below)),
        forall|r: Map<u32, nat>, val: spec_fn(u32) -> int, m: u32| ranked(o.edges(), r) && ready.nodes().contains_key(m)
            ==> #[trigger] st_end.value(lift_rank(r, node, above, below), val, m) == ready.value(lift_rank(r, node, above, below), val, m),
        fin.nodes() == st_end.nodes().remove(node),
        forall|e: u32| #[trigger] fin.edges().contains_key(e) <==> st_end.edges().contains_key(e) && st_end.edges()[e].0 != node,
        forall|e: u32| #[trigger] fin.edges().contains_key(e) ==> fin.edges()[e] == st_end.edges()[e],
        forall|e: u32| #[trigger] st_end.edges().contains_key(e) ==> st_end.edges()[e].1 != node,
    ensures
        keeps_common_values(o, fin),
{
    assert forall|r: Map<u32, nat>, r2: Map<u32, nat>, val: spec_fn(u32) -> int, m: u32|
        ranked(o.edges(), r) && ranked(fin.edges(), r2) && o.nodes().contains_key(m) && fin.nodes().contains_key(m)
        implies #[trigger] fin.value(r2, val, m) == #[trigger] o.value(r, val, m) by {
        let rho = lift_rank(r, node, above, below);
        assert(ranked(st_end.edges(), rho));
        assert(ranked(fin.edges(), rho)) by {
            assert forall|e: u32| #[trigger] fin.edges().contains_key(e) implies rho[fin.edges()[e].1] < rho[fin.edges()[e].0] by {
                assert(st_end.edges().contains_key(e));
            }
        }
        crate::circuit::semantics::lemma_rank_free(fin, r2, rho, val, m);
        let kept = |n: u32| fin.nodes().contains_key(n);
        let none = |n: u32| false;
        assert(agrees_on(st_end, fin, kept, none)) by {
            assert forall|n: u32| #[trigger] kept(n) implies {
                &&& st_end.nodes().contains_key(n)
                &&& fin.nodes().contains_key(n)
                &&& fin.nodes()[n] == st_end.nodes()[n]
                &&& forall|k: u32| #[trigger] st_end.nodes()[n].cols().contains(Column::Memory(k))
                    ==> fin.edges().contains_key(k) && fin.edges()[k] == st_end.edges()[k]
                        && (kept(st_end.edges()[k].1) || none(st_end.edges()[k].1))
            } by {
                assert forall|k: u32| #[trigger] st_end.nodes()[n].cols().contains(Column::Memory(k))
                    implies fin.edges().contains_key(k) && fin.edges()[k] == st_end.edges()[k]
                        && (kept(st_end.edges()[k].1) || none(st_end.edges()[k].1)) by {
                    assert(st_end.edges().contains_key(k) && st_end.edges()[k].0 == n);
                    assert(n != node);
                    assert(fin.edges().contains_key(k));
                    assert(fin.nodes().contains_key(fin.edges()[k].1));
                }
            }
        }
        lemma_values_agree(st_end, fin, rho, val, kept, none, m);
        assert(mid.nodes().contains_key(m));
        assert(ready.nodes().contains_key(m));
        assert(st_end.value(rho, val, m) == ready.value(rho, val, m));
        lemma_extension_values(mid, ready, rho, val, m);
        lemma_extension_values(o, mid, rho, val, m);
        crate::circuit::semantics::lemma_rank_free(o, rho, r, val, m);
    }
}

/// A node whose one minterm is the memory of edge `e` has the value of the
/// child that `e` leads to.
pub proof fn lemma_single_memory_value(f: ReactiveCircuit, rank: Map<u32, nat>, val: spec_fn(u32) -> int, d: u32, e: u32)
    requires
        f.nodes()[d].cols() == seq![Column::Memory(e)],
        f.nodes()[d].rows() == seq![seq![0usize]],
        f.edges().contains_key(e),
        f.edges()[e].0 == d,
        ranked(f.edges(), rank),
    ensures
        f.value(rank, val, d) == f.value(rank, val, f.edges()[e].1),
{
    let a = crate::circuit::semantics::atom_value(f.nodes(), f.edges(), rank, val, d);
    let ps = f.nodes()[d].products();
    assert(row_vars(seq![0usize], seq![Column::Memory(e)]) =~= set![Column::Memory(e)]) by {
        assert(seq![0usize][0] == 0usize);
        assert(seq![0usize].contains(0usize));
        assert(seq![0usize].to_set().contains(0usize));
        assert forall|c: Column| #[trigger] row_vars(seq![0usize], seq![Column::Memory(e)]).contains(c)
            implies c == Column::Memory(e) by {
            let i = choose|i: usize| seq![0usize].to_set().contains(i) && c == seq![Column::Memory(e)][i as int];
            assert(seq![0usize].contains(i));
        }
    }
    assert(ps =~= seq![set![Column::Memory(e)]]);
    assert(ps.drop_last() =~= Seq::<Set<Column>>::empty());
    crate::circuit::semantics::lemma_set_product_empty(a);
    assert(set![Column::Memory(e)] =~= Set::<Column>::empty().insert(Column::Memory(e)));
    crate::circuit::semantics::lemma_set_product_insert(Set::<Column>::empty(), Column::Memory(e), a);
    assert(ps.last() == set![Column::Memory(e)]);
    assert(rank[f.edges()[e].1] < rank[f.edges()[e].0]);
    assert(a(Column::Memory(e)) == f.value(rank, val, f.edges()[e].1));
    assert(sum_products(ps.drop_last(), a) == 0);
    assert(set_product(ps.last(), a) == a(Column::Memory(e)));
    assert(f.value(rank, val, d) == sum_products(ps, a));
}

/// After a lift out of `node` that gave it the new parent `p` (through the
/// edge `e`), `p` has the value that `node` had.
pub proof fn lemma_lift_parent_value(o: ReactiveCircuit, mid: ReactiveCircuit, ready: ReactiveCircuit, st_end: ReactiveCircuit,
    fin: ReactiveCircuit, node: u32, above: Set<u32>, below: Set<u32>, p: u32, e: u32)
    requires
        o.wf(),
        mid.wf(),
        ready.wf(),
        st_end.wf(),
        fin.wf(),
        o.nodes().contains_key(node),
        !o.nodes().contains_key(p),
        !o.edges().contains_key(e),
        mid.nodes().contains_key(p),
        mid.nodes().remove(p) == o.nodes(),
        mid.edges() == o.edges().insert(e, (p, node)),
        mid.nodes()[p].cols() == seq![Column::Memory(e)],
        mid.nodes()[p].rows() == seq![seq![0usize]],
        forall|n: u32| #[trigger] o.nodes().contains_key(n) ==> mid.nodes().contains_key(n) && mid.nodes()[n] == o.nodes()[n],
        forall|n: u32| #[trigger] mid.nodes().contains_key(n) ==> ready.nodes().contains_key(n) && ready.nodes()[n] == mid.nodes()[n],
        forall|f: u32| #[trigger] mid.edges().contains_key(f) ==> ready.edges().contains_key(f) && ready.edges()[f] == mid.edges()[f],
        forall|r: Map<u32, nat>| ranked(o.edges(), r) ==> #[trigger] ranked(ready.edges(), lift_rank(r, node, above, below)),
        forall|r: Map<u32, nat>| ranked(o.edges(), r) ==> #[trigger] ranked(st_end.edges(), lift_rank(r, node, above, below)),
        forall|r: Map<u32, nat>, val: spec_fn(u32) -> int, m: u32| ranked(o.edges(), r) && ready.nodes().contains_key(m)
            ==> #[trigger] st_end.value(lift_rank(r, node, above, below), val, m) == ready.value(lift_rank(r, node, above, below), val, m),
        fin.nodes() == st_end.nodes().remove(node),
        st_end.nodes().dom() == ready.nodes().dom(),
        forall|f: u32| #[trigger] fin.edges().contains_key(f) <==> st_end.edges().contains_key(f) && st_end.edges()[f].0 != node,
        forall|f: u32| #[trigger] fin.edges().contains_key(f) ==> fin.edges()[f] == st_end.edges()[f],
        forall|f: u32| #[trigger] st_end.edges().contains_key(f) ==> st_end.edges()[f].1 != node,
    ensures
        fin.nodes().contains_key(p),
        forall|r: Map<u32, nat>, r2: Map<u32, nat>, val: spec_fn(u32) -> int|
            ranked(o.edges(), r) && ranked(fin.edges(), r2) ==> #[trigger] fin.value(r2, val, p) == #[trigger] o.value(r, val, node),
{
    assert(p != node);
    assert(ready.nodes().contains_key(p));
    assert(fin.nodes().contains_key(p));
    assert forall|r: Map<u32, nat>, r2: Map<u32, nat>, val: spec_fn(u32) -> int|
        ranked(o.edges(), r) && ranked(fin.edges(), r2) implies #[trigger] fin.value(r2, val, p) == #[trigger] o.value(r, val, node) by {
        let rho = lift_rank(r, node, above, below);
        assert(ranked(st_end.edges(), rho));
        assert(ranked(fin.edges(), rho)) by {
            assert forall|f: u32| #[trigger] fin.edges().contains_key(f) implies rho[fin.edges()[f].1] < rho[fin.edges()[f].0] by {
                assert(st_end.edges().contains_key(f));
            }
        }
        crate::circuit::semantics::lemma_rank_free(fin, r2, rho, val, p);
        let kept = |n: u32| fin.nodes().contains_key(n);
        let none = |n: u32| false;
        assert(agrees_on(st_end, fin, kept, none)) by {
            assert forall|n: u32| #[trigger] kept(n) implies {
                &&& st_end.nodes().contains_key(n)
                &&& fin.nodes().contains_key(n)
                &&& fin.nodes()[n] == st_end.nodes()[n]
                &&& forall|k: u32| #[trigger] st_end.nodes()[n].cols().contains(Column::Memory(k))
                    ==> fin.edges().contains_key(k) && fin.edges()[k] == st_end.edges()[k]
                        && (kept(st_end.edges()[k].1) || none(st_end.edges()[k].1))
            } by {
                assert forall|k: u32| #[trigger] st_end.nodes()[n].cols().contains(Column::Memory(k))
                    implies fin.edges().contains_key(k) && fin.edges()[k] == st_end.edges()[k]
                        && (kept(st_end.edges()[k].1) || none(st_end.edges()[k].1)) by {
                    assert(st_end.edges().contains_key(k) && st_end.edges()[k].0 == n);
                    assert(n != node);
                    assert(fin.edges().contains_key(k));
                    assert(fin.nodes().contains_key(fin.edges()[k].1));
                }
            }
        }
        lemma_values_agree(st_end, fin, rho, val, kept, none, p);
        assert(st_end.value(rho, val, p) == ready.value(rho, val, p));
        lemma_extension_values(mid, ready, rho, val, p);
        assert(mid.edges().contains_key(e) && mid.edges()[e] == (p, node));
        lemma_single_memory_value(mid, rho, val, p, e);
        lemma_extension_values(o, mid, rho, val, node);
        crate::circuit::semantics::lemma_rank_free(o, rho, r, val, node);
    }
}

/// Whether target `i` of `after` is on a node that has, under any rankings
/// of the two graphs, the value that the node of target `i` of `before` had.
pub open spec fn target_value_kept(before: ReactiveCircuit, after: ReactiveCircuit, i: int) -> bool {
    let n = before.target_list()[i].1;
    let m = after.target_list()[i].1;
    &&& after.nodes().contains_key(m)
    &&& forall|r: Map<u32, nat>, r2: Map<u32, nat>, val: spec_fn(u32) -> int|
        ranked(before.edges(), r) && ranked(after.edges(), r2) ==> #[trigger] after.value(r2, val, m) == #[trigger] before.value(r, val, n)
}

/// Whether target `i` is on a node that, where it holds leaf `x`, has no
/// parent: a lift then moves the target to the new parent.
pub open spec fn target_liftable(rc: ReactiveCircuit, i: int, x: u32) -> bool {
    let n = rc.target_list()[i].1;
    &&& rc.nodes().contains_key(n)
    &&& crate::circuit::semantics::holds_leaf(rc, n, x)
        ==> !(exists|e: u32| #[trigger] rc.edges().contains_key(e) && rc.edges()[e].1 == n)
}

/// A circuit keeps the values of its targets, as does one with the same
/// circuits, edges and targets.
pub proof fn lemma_targets_same(o: ReactiveCircuit, f: ReactiveCircuit)
    requires
        o.wf(),
        f.nodes() == o.nodes(),
        f.edges() == o.edges(),
        f.target_list() == o.target_list(),
    ensures
        forall|i: int| 0 <= i < o.target_list().len() && o.nodes().contains_key(o.target_list()[i].1)
            ==> #[trigger] target_value_kept(o, f, i),
{
    assert forall|i: int| 0 <= i < o.target_list().len() && o.nodes().contains_key(o.target_list()[i].1)
        implies #[trigger] target_value_kept(o, f, i) by {
        let n = o.target_list()[i].1;
        assert forall|r: Map<u32, nat>, r2: Map<u32, nat>, val: spec_fn(u32) -> int|
            ranked(o.edges(), r) && ranked(f.edges(), r2) implies #[trigger] f.value(r2, val, n) == #[trigger] o.value(r, val, n) by {
            crate::circuit::semantics::lemma_rank_free(o, r, r2, val, n);
        }
    }
}

/// Adding a parent `p` to a node without parents, with the one minterm
/// `p = node`, and moving the targets of `node` to `p` keeps the values of
/// the targets.
pub proof fn lemma_targets_after_parent(o: ReactiveCircuit, mid: ReactiveCircuit, node: u32, p: u32, e: u32)
    requires
        o.wf(),
        mid.wf(),
        o.nodes().contains_key(node),
        mid.nodes().contains_key(p),
        !o.nodes().contains_key(p),
        !o.edges().contains_key(e),
        mid.nodes().remove(p) == o.nodes(),
        mid.edges() == o.edges().insert(e, (p, node)),
        mid.nodes()[p].cols() == seq![Column::Memory(e)],
        mid.nodes()[p].rows() == seq![seq![0usize]],
        forall|n: u32| #[trigger] o.nodes().contains_key(n) ==> mid.nodes().contains_key(n) && mid.nodes()[n] == o.nodes()[n],
        mid.target_list() == o.target_list().map_values(|t: (Seq<char>, u32)| if t.1 == node { (t.0, p) } else { t }),
    ensures
        forall|i: int| 0 <= i < o.target_list().len() && o.nodes().contains_key(o.target_list()[i].1)
            ==> #[trigger] target_value_kept(o, mid, i),
{
    assert forall|f: u32| #[trigger] o.edges().contains_key(f) implies mid.edges().contains_key(f) && mid.edges()[f] == o.edges()[f] by {
        assert(f != e);
    }
    assert forall|i: int| 0 <= i < o.target_list().len() && o.nodes().contains_key(o.target_list()[i].1)
        implies #[trigger] target_value_kept(o, mid, i) by {
        let n = o.target_list()[i].1;
        let m = mid.target_list()[i].1;
        assert forall|r: Map<u32, nat>, r2: Map<u32, nat>, val: spec_fn(u32) -> int|
            ranked(o.edges(), r) && ranked(mid.edges(), r2) implies #[trigger] mid.value(r2, val, m) == #[trigger] o.value(r, val, n) by {
            if n == node {
                assert(m == p);
                assert(mid.edges().contains_key(e) && mid.edges()[e] == (p, node));
                lemma_single_memory_value(mid, r2, val, p, e);
            }
            lemma_extension_values(o, mid, r2, val, n);
            crate::circuit::semantics::lemma_rank_free(o, r2, r, val, n);
        }
    }
}

/// Whether some ranking puts the target of every edge below its source.
pub open spec fn rankable(edges: Map<u32, (u32, u32)>) -> bool {
    exists|r: Map<u32, nat>| #[trigger] ranked(edges, r)
}

/// A new parent `p` above node `node`, with its edge `e`, keeps the graph
/// rankable.
pub proof fn lemma_parent_rankable(o: ReactiveCircuit, mid: ReactiveCircuit, node: u32, p: u32, e: u32)
    requires
        o.wf(),
        o.nodes().contains_key(node),
        !o.nodes().contains_key(p),
        mid.edges() == o.edges().insert(e, (p, node)),
        rankable(o.edges()),
    ensures
        rankable(mid.edges()),
{
    let r = choose|r: Map<u32, nat>| #[trigger] ranked(o.edges(), r);
    let r2 = r.insert(p, r[node] + 1);
    assert forall|f: u32| #[trigger] mid.edges().contains_key(f) implies r2[mid.edges()[f].1] < r2[mid.edges()[f].0] by {
        if f != e {
            assert(o.edges().contains_key(f));
            assert(o.nodes().contains_key(o.edges()[f].0) && o.nodes().contains_key(o.edges()[f].1));
        }
    }
    assert(ranked(mid.edges(), r2));
}

/// Keeping the value of target `i` from `a` to `b` and from `b` to `c`
/// keeps it from `a` to `c`, when `b` can be ranked.
pub proof fn lemma_target_kept_trans(a: ReactiveCircuit, b: ReactiveCircuit, c: ReactiveCircuit, i: int)
    requires
        target_value_kept(a, b, i),
        target_value_kept(b, c, i),
        rankable(b.edges()),
    ensures
        target_value_kept(a, c, i),
{
    let rb = choose|r: Map<u32, nat>| #[trigger] ranked(b.edges(), r);
    let na = a.target_list()[i].1;
    let nb = b.target_list()[i].1;
    let nc = c.target_list()[i].1;
    assert forall|r: Map<u32, nat>, r2: Map<u32, nat>, val: spec_fn(u32) -> int|
        ranked(a.edges(), r) && ranked(c.edges(), r2) implies #[trigger] c.value(r2, val, nc) == #[trigger] a.value(r, val, na) by {
        assert(c.value(r2, val, nc) == b.value(rb, val, nb));
        assert(b.value(rb, val, nb) == a.value(r, val, na));
    }
}

/// Whether lifting leaf `x` out of the nodes `listed`, one after the other,
/// keeps the values: every listed node is a node; at most one of them holds
/// the leaf, that one is ready for the lift (`lift_ready`), and no node
/// listed after it is one of its parents.
pub open spec fn lift_leaf_ready(rc: ReactiveCircuit, x: u32, listed: Seq<u32>) -> bool {
    &&& forall|i: int| 0 <= i < listed.len() ==> rc.nodes().contains_key(#[trigger] listed[i])
    &&& forall|i: int, j: int| 0 <= i < listed.len() && 0 <= j < listed.len()
        && crate::circuit::semantics::holds_leaf(rc, #[trigger] listed[i], x)
        && crate::circuit::semantics::holds_leaf(rc, #[trigger] listed[j], x) ==> listed[i] == listed[j]
    &&& forall|i: int| 0 <= i < listed.len() && crate::circuit::semantics::holds_leaf(rc, #[trigger] listed[i], x) ==> {
        &&& lift_ready(rc, listed[i], x)
        &&& forall|j: int| #![trigger listed[j]] i < j < listed.len() ==> !(exists|e: u32| #[trigger] rc.edges().contains_key(e)
            && rc.edges()[e] == (listed[j], listed[i]))
    }
}

/// Values are a function of the circuits and the edges.
pub proof fn lemma_keeps_common_same_graph(before: ReactiveCircuit, mid: ReactiveCircuit, after: ReactiveCircuit)
    requires
        keeps_common_values(before, mid),
        after.nodes() == mid.nodes(),
        after.edges() == mid.edges(),
    ensures
        keeps_common_values(before, after),
{
    assert forall|rank: Map<u32, nat>, rank2: Map<u32, nat>, val: spec_fn(u32) -> int, m: u32|
        ranked(before.edges(), rank) && ranked(after.edges(), rank2) && before.nodes().contains_key(m)
        && after.nodes().contains_key(m)
        implies #[trigger] after.value(rank2, val, m) == #[trigger] before.value(rank, val, m) by {
        assert(after.value(rank2, val, m) == mid.value(rank2, val, m));
    }
}

/// Values are a function of the circuits and the edges.
pub proof fn lemma_keeps_common_same_start(before: ReactiveCircuit, mid: ReactiveCircuit, after: ReactiveCircuit)
    requires
        keeps_common_values(mid, after),
        before.nodes() == mid.nodes(),
        before.edges() == mid.edges(),
    ensures
        keeps_common_values(before, after),
{
    assert forall|rank: Map<u32, nat>, rank2: Map<u32, nat>, val: spec_fn(u32) -> int, m: u32|
        ranked(before.edges(), rank) && ranked(after.edges(), rank2) && before.nodes().contains_key(m)
        && after.nodes().contains_key(m)
        implies #[trigger] after.value(rank2, val, m) == #[trigger] before.value(rank, val, m) by {
        assert(before.value(rank, val, m) == mid.value(rank, val, m));
    }
}

/// The tokens of the targets, in order.
pub open spec fn target_tokens(rc: ReactiveCircuit) -> Seq<Seq<char>> {
    rc.target_list().map_values(|t: (Seq<char>, u32)| t.0)
}

/// Whether the `u32` node and edge indices have room for a lift out of
/// node `n`: one new node, and new edges for the columns of `n`, twice, and
/// for each parent of `n`, of which there are at most as many as edges.
pub open spec fn lift_room(rc: ReactiveCircuit, n: u32) -> bool {
    &&& rc.nodes().dom().len() + 1 < 0xffff_fff0
    &&& 2 * rc.edges().dom().len() + 2 * rc.nodes()[n].cols().len() + 2 < 0xffff_fff0
}

/// Whether a minterm of node `n` holds leaf `x`.
pub open spec fn minterm_holds(rc: ReactiveCircuit, n: u32, x: u32) -> bool {
    exists|i: int| 0 <= i < rc.nodes()[n].products().len() && #[trigger] rc.nodes()[n].products()[i].contains(Column::Leaf(x))
}

/// Retargeting keeps the tokens.
pub proof fn lemma_retarget_tokens(a: Seq<(Seq<char>, u32)>, from: u32, to: u32)
    ensures
        a.map_values(|t: (Seq<char>, u32)| if t.1 == from { (t.0, to) } else { t }).map_values(|t: (Seq<char>, u32)| t.0)
            == a.map_values(|t: (Seq<char>, u32)| t.0),
{
    assert(a.map_values(|t: (Seq<char>, u32)| if t.1 == from { (t.0, to) } else { t }).map_values(|t: (Seq<char>, u32)| t.0)
        =~= a.map_values(|t: (Seq<char>, u32)| t.0));
}

/// Distinct edges of a graph are at most as many as its edges.
pub proof fn lemma_distinct_edges_len(s: Seq<u32>, dom: Set<u32>)
    requires
        s.no_duplicates(),
        dom.finite(),
        forall|i: int| 0 <= i < s.len() ==> dom.contains(#[trigger] s[i]),
    ensures
        s.len() <= dom.len(),
{
    s.unique_seq_to_set();
    assert(s.to_set().subset_of(dom));
    vstd::set_lib::lemma_len_subset(s.to_set(), dom);
}

} // verus!
