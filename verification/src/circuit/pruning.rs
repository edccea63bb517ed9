use vstd::prelude::*;
use crate::circuit::algebraic::{row_ok, row_vars, AlgebraicCircuit, Column};
use crate::circuit::reactive::{
    graph_edges_directed, graph_node, graph_node_indices, graph_remove_edge, lemma_remove_col_contains, ReactiveCircuit,
};

verus! {

/// Keeps every column but the memories of the edges `removed`.
pub open spec fn kept_column(removed: Set<u32>) -> spec_fn(Column) -> bool {
    |c: Column| match c {
        Column::Memory(k) => !removed.contains(k),
        Column::Leaf(_) => true,
    }
}

/// The memory variables of the edges `removed`.
pub open spec fn memory_vars(removed: Set<u32>) -> Set<Column> {
    Set::new(|c: Column| !kept_column(removed)(c))
}

/// The nodes whose circuit has no variable.
pub open spec fn empty_nodes(nodes: Map<u32, AlgebraicCircuit>) -> Set<u32> {
    Set::new(|n: u32| nodes.contains_key(n) && nodes[n].cols().len() == 0)
}

/// The edges into the nodes `gone`.
pub open spec fn edges_into(edges: Map<u32, (u32, u32)>, gone: Set<u32>) -> Set<u32> {
    Set::new(|k: u32| edges.contains_key(k) && gone.contains(edges[k].1))
}

/// Filtering by two predicates that agree on the elements gives the same.
proof fn lemma_filter_same<A>(s: Seq<A>, p1: spec_fn(A) -> bool, p2: spec_fn(A) -> bool)
    requires
        forall|i: int| 0 <= i < s.len() ==> p1(#[trigger] s[i]) == p2(s[i]),
    ensures
        s.filter(p1) == s.filter(p2),
    decreases s.len(),
{
    reveal_with_fuel(Seq::filter, 1);
    if s.len() > 0 {
        let t = s.drop_last();
        assert forall|i: int| 0 <= i < t.len() implies p1(#[trigger] t[i]) == p2(t[i]) by {
            assert(t[i] == s[i]);
        }
        lemma_filter_same(t, p1, p2);
        assert(p1(s[s.len() - 1]) == p2(s[s.len() - 1]));
    }
}

/// Removing the memory of edge `e` from the columns kept after removing the
/// memories of `removed` keeps the columns after removing those of both.
proof fn lemma_remove_kept(s: Seq<Column>, removed: Set<u32>, e: u32, c: int)
    requires
        s.no_duplicates(),
        0 <= c < s.filter(kept_column(removed)).len(),
        s.filter(kept_column(removed))[c] == Column::Memory(e),
    ensures
        s.filter(kept_column(removed)).remove(c) == s.filter(kept_column(removed.insert(e))),
    decreases s.len(),
{
    reveal_with_fuel(Seq::filter, 1);
    let t = s.drop_last();
    let x = s.last();
    let k1 = kept_column(removed);
    let k2 = kept_column(removed.insert(e));
    assert(t.no_duplicates());
    if k1(x) {
        let ft = t.filter(k1);
        assert(s.filter(k1) == ft.push(x));
        if c == ft.len() {
            assert(x == Column::Memory(e));
            assert(!k2(x));
            assert forall|i: int| 0 <= i < t.len() implies k1(#[trigger] t[i]) == k2(t[i]) by {
                assert(t[i] == s[i]);
                assert(s[i] != s[s.len() - 1]);
            }
            lemma_filter_same(t, k1, k2);
            assert(s.filter(k1).remove(c) =~= ft);
        } else {
            assert(ft[c] == Column::Memory(e));
            lemma_remove_kept(t, removed, e, c);
            crate::lemmas::lemma_filter_elem(t, k1, c);
            assert(x != Column::Memory(e)) by {
                let q = choose|q: int| 0 <= q < t.len() && t[q] == ft[c];
                assert(s[q] == t[q]);
                assert(s[q] != s[s.len() - 1]);
            }
            assert(k2(x));
            assert(s.filter(k2) == t.filter(k2).push(x));
            assert(s.filter(k1).remove(c) =~= ft.remove(c).push(x));
        }
    } else {
        assert(s.filter(k1) == t.filter(k1));
        lemma_remove_kept(t, removed, e, c);
        assert(!k2(x));
        assert(s.filter(k2) == t.filter(k2));
    }
}

/// Mapping `f`, dropping empty sets, mapping `g` and dropping empty sets
/// again is mapping `g` after `f` and dropping empty sets, when `g` leaves
/// no element of an empty set.
proof fn lemma_map_filter_twice(s: Seq<Set<Column>>, f: spec_fn(Set<Column>) -> Set<Column>, g: spec_fn(Set<Column>) -> Set<Column>)
    requires
        forall|i: int| 0 <= i < s.len() ==> #[trigger] g(f(s[i])).len() > 0 ==> f(s[i]).len() > 0,
    ensures
        s.map_values(f).filter(|p: Set<Column>| p.len() > 0).map_values(g).filter(|p: Set<Column>| p.len() > 0)
            == s.map_values(|p: Set<Column>| g(f(p))).filter(|p: Set<Column>| p.len() > 0),
    decreases s.len(),
{
    reveal_with_fuel(Seq::filter, 1);
    let ne = |p: Set<Column>| p.len() > 0;
    let h = |p: Set<Column>| g(f(p));
    if s.len() == 0 {
        assert(s.map_values(f) =~= Seq::<Set<Column>>::empty());
        assert(s.map_values(h) =~= Seq::<Set<Column>>::empty());
        assert(s.map_values(f).filter(ne) =~= Seq::<Set<Column>>::empty());
        assert(s.map_values(f).filter(ne).map_values(g) =~= Seq::<Set<Column>>::empty());
    } else {
        let t = s.drop_last();
        let x = s.last();
        assert forall|i: int| 0 <= i < t.len() implies #[trigger] g(f(t[i])).len() > 0 ==> f(t[i]).len() > 0 by {
            assert(t[i] == s[i]);
        }
        lemma_map_filter_twice(t, f, g);
        assert(g(f(s[s.len() - 1])).len() > 0 ==> f(s[s.len() - 1]).len() > 0);
        assert(s.map_values(f) =~= t.map_values(f).push(f(x)));
        assert(s.map_values(f).drop_last() =~= t.map_values(f));
        assert(s.map_values(h) =~= t.map_values(h).push(h(x)));
        assert(s.map_values(h).drop_last() =~= t.map_values(h));
        let a = t.map_values(f).filter(ne);
        if ne(f(x)) {
            assert(s.map_values(f).filter(ne) == a.push(f(x)));
            assert(a.push(f(x)).map_values(g) =~= a.map_values(g).push(g(f(x))));
            assert(a.push(f(x)).map_values(g).drop_last() =~= a.map_values(g));
        } else {
            assert(s.map_values(f).filter(ne) == a);
        }
    }
}

/// The variables of every product of a well-formed circuit are among its
/// columns, and there are finitely many.
pub(crate) proof fn lemma_products_in_cols(ac: AlgebraicCircuit, i: int)
    requires
        ac.wf(),
        0 <= i < ac.products().len(),
    ensures
        ac.products()[i].finite(),
        forall|v: Column| #[trigger] ac.products()[i].contains(v) ==> ac.cols().contains(v),
{
    ac.lemma_wf();
    let r = ac.rows()[i];
    assert(row_ok(r, ac.cols().len()));
    assert(ac.products()[i] == row_vars(r, ac.cols()));
    vstd::seq_lib::seq_to_set_is_finite(r);
    r.to_set().lemma_map_finite(|c: usize| ac.cols()[c as int]);
    assert forall|v: Column| #[trigger] ac.products()[i].contains(v) implies ac.cols().contains(v) by {
        let c = choose|c: usize| r.to_set().contains(c) && ac.cols()[c as int] == v;
        let q = choose|q: int| 0 <= q < r.len() && r[q] == c;
        assert(c < ac.cols().len());
    }
}

/// Filtering by a predicate that every element meets keeps everything.
pub(crate) proof fn lemma_filter_all<A>(s: Seq<A>, p: spec_fn(A) -> bool)
    requires
        forall|i: int| 0 <= i < s.len() ==> p(#[trigger] s[i]),
    ensures
        s.filter(p) == s,
    decreases s.len(),
{
    reveal_with_fuel(Seq::filter, 1);
    if s.len() > 0 {
        let t = s.drop_last();
        assert forall|i: int| 0 <= i < t.len() implies p(#[trigger] t[i]) by { assert(t[i] == s[i]); }
        lemma_filter_all(t, p);
        assert(p(s[s.len() - 1]));
        assert(t.push(s.last()) =~= s);
    } else {
        assert(s.filter(p) =~= s);
    }
}

/// The edges of `removed` that leave node `n`.
pub open spec fn removed_from(edges: Map<u32, (u32, u32)>, n: u32, removed: Set<u32>) -> Set<u32> {
    Set::new(|k: u32| removed.contains(k) && edges.contains_key(k) && edges[k].0 == n)
}

/// Whether `after` is `before` with the edges `removed` cut: they are gone,
/// and so are the memory columns that referred to them, with the minterms
/// that held nothing else; a node that lost no edge is unchanged.
pub open spec fn cut_edges(before: ReactiveCircuit, after: ReactiveCircuit, removed: Set<u32>) -> bool {
    &&& forall|e: u32| #[trigger] after.edges().contains_key(e) <==> before.edges().contains_key(e) && !removed.contains(e)
    &&& forall|e: u32| #[trigger] after.edges().contains_key(e) ==> after.edges()[e] == before.edges()[e]
    &&& forall|n: u32| #[trigger] after.nodes().contains_key(n) ==> {
        let r = removed_from(before.edges(), n, removed);
        &&& before.nodes().contains_key(n)
        &&& after.nodes()[n].cols() == before.nodes()[n].cols().filter(kept_column(r))
        &&& after.nodes()[n].size() == before.nodes()[n].size()
        &&& r.len() > 0 ==> after.nodes()[n].products() == before.nodes()[n].products().map_values(
            |p: Set<Column>| p.difference(memory_vars(r))).filter(|p: Set<Column>| p.len() > 0)
        &&& r == Set::<u32>::empty() ==> after.nodes()[n] == before.nodes()[n]
    }
}

impl ReactiveCircuit {
    /// Removes edge `edge` out of node `parent` with its memory column and
    /// the minterms that held nothing else.
    fn cut_edge(&mut self, parent: u32, edge: u32)
        requires
            old(self).wf(),
            old(self).edges().contains_key(edge),
            old(self).edges()[edge].0 == parent,
        ensures
            final(self).wf(),
            final(self).edges() == old(self).edges().remove(edge),
            final(self).nodes().dom() == old(self).nodes().dom(),
            forall|n: u32| #[trigger] final(self).nodes().contains_key(n) && n != parent ==> final(self).nodes()[n] == old(self).nodes()[n],
            exists|c: int| 0 <= c < old(self).nodes()[parent].cols().len()
                && old(self).nodes()[parent].cols()[c] == Column::Memory(edge)
                && final(self).nodes()[parent].cols() == old(self).nodes()[parent].cols().remove(c),
            final(self).nodes()[parent].size() == old(self).nodes()[parent].size(),
            final(self).nodes()[parent].products() == old(self).nodes()[parent].products().map_values(
                |p: Set<Column>| p.remove(Column::Memory(edge))).filter(|p: Set<Column>| p.len() > 0),
            final(self).value_size == old(self).value_size,
            final(self).dependencies == old(self).dependencies,
            final(self).queue == old(self).queue,
            final(self).targets == old(self).targets,
            final(self).partitioning == old(self).partitioning,
    {
        let ghost nodes0 = self.nodes();
        let placeholder = AlgebraicCircuit::new(self.value_size);
        let mut ac = self.swap_circuit(parent, placeholder);
        proof {
            assert(ac.cols().contains(Column::Memory(edge)));
            ac.lemma_sizes();
            let q = choose|q: int| 0 <= q < ac.cols().len() && ac.cols()[q] == Column::Memory(edge);
            assert((q as usize) < ac.cols().len() && ac.cols()[(q as usize) as int] == Column::Memory(edge));
        }
        let col = match ac.get_memory(edge) {
            Some(c) => c,
            None => {
                proof { assert(false); }
                0
            },
        };
        proof { crate::circuit::adaptation::lemma_found_column(ac.cols(), Column::Memory(edge)); }
        let ghost before = ac;
        ac.remove_col(col);
        self.swap_circuit(parent, ac);
        graph_remove_edge(&mut self.structure, edge);
        proof {
            let nodes = self.nodes();
            let edges = self.edges();
            assert(nodes =~= nodes0.insert(parent, ac));
            before.lemma_wf();
            assert forall|e: u32| #[trigger] edges.contains_key(e) implies nodes[edges[e].0].cols().contains(Column::Memory(e)) by {
                let src = edges[e].0;
                assert(nodes0[src].cols().contains(Column::Memory(e)));
                if src == parent {
                    lemma_remove_col_contains(before.cols(), col as int, Column::Memory(e));
                }
            }
            assert forall|n: u32, m: u32| nodes.contains_key(n) && #[trigger] nodes[n].cols().contains(Column::Memory(m))
                implies edges.contains_key(m) && edges[m].0 == n by {
                if n == parent {
                    lemma_remove_col_contains(before.cols(), col as int, Column::Memory(m));
                }
            }
        }
    }
}

/// Cutting one more edge, out of `parent`, extends a cut by it.
proof fn lemma_cut_step(before: ReactiveCircuit, mid: ReactiveCircuit, after: ReactiveCircuit, removed: Set<u32>,
    parent: u32, e: u32, c: int)
    requires
        before.wf(),
        cut_edges(before, mid, removed),
        mid.edges().contains_key(e),
        mid.edges()[e].0 == parent,
        after.edges() == mid.edges().remove(e),
        after.nodes().dom() == mid.nodes().dom(),
        forall|n: u32| #[trigger] after.nodes().contains_key(n) && n != parent ==> after.nodes()[n] == mid.nodes()[n],
        0 <= c < mid.nodes()[parent].cols().len(),
        mid.nodes()[parent].cols()[c] == Column::Memory(e),
        after.nodes()[parent].cols() == mid.nodes()[parent].cols().remove(c),
        after.nodes()[parent].size() == mid.nodes()[parent].size(),
        after.nodes()[parent].products() == mid.nodes()[parent].products().map_values(
            |p: Set<Column>| p.remove(Column::Memory(e))).filter(|p: Set<Column>| p.len() > 0),
    ensures
        cut_edges(before, after, removed.insert(e)),
{
    let re = removed.insert(e);
    assert(before.edges().contains_key(e) && !removed.contains(e));
    assert forall|e2: u32| #[trigger] after.edges().contains_key(e2) <==> before.edges().contains_key(e2) && !re.contains(e2) by {}
    assert forall|n: u32| #[trigger] after.nodes().contains_key(n) implies {
        let r = removed_from(before.edges(), n, re);
        &&& before.nodes().contains_key(n)
        &&& after.nodes()[n].cols() == before.nodes()[n].cols().filter(kept_column(r))
        &&& after.nodes()[n].size() == before.nodes()[n].size()
        &&& r.len() > 0 ==> after.nodes()[n].products() == before.nodes()[n].products().map_values(
            |p: Set<Column>| p.difference(memory_vars(r))).filter(|p: Set<Column>| p.len() > 0)
        &&& r == Set::<u32>::empty() ==> after.nodes()[n] == before.nodes()[n]
    } by {
        let r0 = removed_from(before.edges(), n, removed);
        let r = removed_from(before.edges(), n, re);
        assert(mid.nodes().contains_key(n));
        if n != parent {
            assert(r =~= r0);
        } else {
            assert(r =~= r0.insert(e));
            assert(r.len() > 0) by {
                assert(r.contains(e));
                assert(r.finite()) by {
                    assert(r.subset_of(before.edges().dom()));
                    vstd::set_lib::lemma_set_subset_finite(before.edges().dom(), r);
                }
                vstd::set_lib::lemma_set_empty_equivalency_len(r);
            }
            let b = before.nodes()[n];
            b.lemma_wf();
            lemma_remove_kept(b.cols(), r0, e, c);
            let ne = |p: Set<Column>| p.len() > 0;
            let me = Column::Memory(e);
            let g = |p: Set<Column>| p.remove(me);
            let target = b.products().map_values(|p: Set<Column>| p.difference(memory_vars(r)));
            if r0 == Set::<u32>::empty() {
                assert(mid.nodes()[n] == b);
                assert(after.nodes()[n].products() == b.products().map_values(g).filter(ne));
                assert(b.products().map_values(g) =~= target) by {
                    assert forall|i: int| 0 <= i < b.products().len() implies
                        #[trigger] b.products()[i].remove(me) == b.products()[i].difference(memory_vars(r)) by {
                        assert(b.products()[i].remove(me) =~= b.products()[i].difference(memory_vars(r)));
                    }
                }
            } else {
                let f = |p: Set<Column>| p.difference(memory_vars(r0));
                assert(r0.len() > 0) by {
                    assert(r0.subset_of(before.edges().dom()));
                    vstd::set_lib::lemma_set_subset_finite(before.edges().dom(), r0);
                    vstd::set_lib::lemma_set_empty_equivalency_len(r0);
                }
                assert forall|i: int| 0 <= i < b.products().len() implies #[trigger] g(f(b.products()[i])).len() > 0
                    ==> f(b.products()[i]).len() > 0 by {
                    lemma_products_in_cols(b, i);
                    let x = f(b.products()[i]);
                    assert(x.finite());
                    if x.len() == 0 {
                        vstd::set_lib::lemma_set_empty_equivalency_len(x);
                        assert(g(x) =~= Set::<Column>::empty());
                    }
                }
                lemma_map_filter_twice(b.products(), f, g);
                assert(mid.nodes()[n].products() == b.products().map_values(f).filter(ne));
                assert(after.nodes()[n].products() == mid.nodes()[n].products().map_values(g).filter(ne));
                assert(b.products().map_values(|p: Set<Column>| g(f(p))) =~= target) by {
                    assert forall|i: int| 0 <= i < b.products().len() implies
                        #[trigger] g(f(b.products()[i])) == b.products()[i].difference(memory_vars(r)) by {
                        assert(g(f(b.products()[i])) =~= b.products()[i].difference(memory_vars(r)));
                    }
                }
            }
        }
    }
}

impl ReactiveCircuit {
    /// Removes the nodes whose circuit has no variable, after cutting the
    /// edges into them, with the memory columns that referred to those edges
    /// and the minterms that held nothing else.
    pub fn prune(&mut self)
        requires
            old(self).wf(),
        ensures
            final(self).wf(),
            final(self).nodes().dom() == old(self).nodes().dom().difference(empty_nodes(old(self).nodes())),
            cut_edges(*old(self), *final(self), edges_into(old(self).edges(), empty_nodes(old(self).nodes()))),
            final(self).value_size == old(self).value_size,
            final(self).dependencies == old(self).dependencies,
            final(self).queue == old(self).queue,
            final(self).targets == old(self).targets,
            final(self).partitioning == old(self).partitioning,
    {
        let ghost start = *self;
        let ghost gone = empty_nodes(start.nodes());
        let indices = graph_node_indices(&self.structure);
        let mut empties: Vec<u32> = Vec::new();
        let mut m: usize = 0;
        while m < indices.len()
            invariant
                m <= indices@.len(),
                *self == start,
                indices@.to_set() == start.nodes().dom(),
                forall|a: int, b: int| 0 <= a < b < indices@.len() ==> indices@[a] < indices@[b],
                empties@.no_duplicates(),
                forall|x: u32| #[trigger] empties@.contains(x) <==> exists|q: int| 0 <= q < m && indices@[q] == x
                    && start.nodes()[x].cols().len() == 0,
                forall|q: int| 0 <= q < empties@.len() ==> exists|p: int| 0 <= p < m && #[trigger] empties@[q] == indices@[p],
            decreases indices@.len() - m,
        {
            let n = indices[m];
            proof { assert(indices@.to_set().contains(n)); }
            if graph_node(&self.structure, n).columns().len() == 0 {
                let ghost before = empties@;
                proof {
                    if before.contains(n) {
                        let q = choose|q: int| 0 <= q < before.len() && before[q] == n;
                        let p = choose|p: int| 0 <= p < m && #[trigger] before[q] == indices@[p];
                    }
                }
                empties.push(n);
                proof {
                    assert forall|a: int, b: int| 0 <= a < empties@.len() && 0 <= b < empties@.len() && a != b
                        implies empties@[a] != empties@[b] by {
                        if a < before.len() && b < before.len() { assert(before[a] != before[b]); }
                        else if a < before.len() { assert(before.contains(before[a])); }
                        else { assert(before.contains(before[b])); }
                    }
                    assert forall|x: u32| #[trigger] empties@.contains(x) <==> exists|q: int| 0 <= q < m + 1 && indices@[q] == x
                        && start.nodes()[x].cols().len() == 0 by {
                        if empties@.contains(x) && x != n {
                            let a = choose|a: int| 0 <= a < empties@.len() && empties@[a] == x;
                            assert(before[a] == x);
                            assert(before.contains(x));
                        }
                        if exists|q: int| 0 <= q < m + 1 && indices@[q] == x && start.nodes()[x].cols().len() == 0 {
                            let q = choose|q: int| 0 <= q < m + 1 && indices@[q] == x && start.nodes()[x].cols().len() == 0;
                            if q < m {
                                assert(before.contains(x));
                                let a = choose|a: int| 0 <= a < before.len() && before[a] == x;
                                assert(empties@[a] == x);
                            } else {
                                assert(empties@[before.len() as int] == n);
                            }
                        }
                    }
                    assert forall|q: int| 0 <= q < empties@.len() implies exists|p: int| 0 <= p < m + 1 && #[trigger] empties@[q] == indices@[p] by {
                        if q < before.len() {
                            let p = choose|p: int| 0 <= p < m && #[trigger] before[q] == indices@[p];
                            assert(empties@[q] == before[q]);
                        } else {
                            assert(empties@[q] == indices@[m as int]);
                        }
                    }
                }
            } else {
                proof {
                    assert forall|x: u32| #[trigger] empties@.contains(x) <==> exists|q: int| 0 <= q < m + 1 && indices@[q] == x
                        && start.nodes()[x].cols().len() == 0 by {
                        if exists|q: int| 0 <= q < m + 1 && indices@[q] == x && start.nodes()[x].cols().len() == 0 {
                            let q = choose|q: int| 0 <= q < m + 1 && indices@[q] == x && start.nodes()[x].cols().len() == 0;
                            assert(q != m);
                        }
                    }
                    assert forall|q: int| 0 <= q < empties@.len() implies exists|p: int| 0 <= p < m + 1 && #[trigger] empties@[q] == indices@[p] by {
                        let p = choose|p: int| 0 <= p < m && #[trigger] empties@[q] == indices@[p];
                    }
                }
            }
            m = m + 1;
        }
        proof {
            assert(empties@.to_set() =~= gone) by {
                assert forall|x: u32| empties@.to_set().contains(x) <==> gone.contains(x) by {
                    if gone.contains(x) {
                        assert(indices@.to_set().contains(x));
                        let q = choose|q: int| 0 <= q < indices@.len() && indices@[q] == x;
                        assert(empties@.contains(x));
                    }
                    if empties@.contains(x) {
                        let q = choose|q: int| 0 <= q < indices@.len() && indices@[q] == x && start.nodes()[x].cols().len() == 0;
                        assert(indices@.to_set().contains(x));
                    }
                }
            }
            assert(empties@.take(0).to_set() =~= Set::<u32>::empty());
            assert(edges_into(start.edges(), Set::<u32>::empty()) =~= Set::<u32>::empty());
            assert forall|n: u32| #[trigger] self.nodes().contains_key(n) implies
                removed_from(start.edges(), n, Set::<u32>::empty()) == Set::<u32>::empty()
                && self.nodes()[n].cols() == start.nodes()[n].cols().filter(kept_column(Set::<u32>::empty())) by {
                assert(removed_from(start.edges(), n, Set::<u32>::empty()) =~= Set::<u32>::empty());
                lemma_filter_all(start.nodes()[n].cols(), kept_column(Set::<u32>::empty()));
            }
            assert(cut_edges(start, *self, Set::<u32>::empty()));
            assert(self.nodes().dom() =~= start.nodes().dom().difference(Set::<u32>::empty()));
            assert forall|q: int| 0 <= q < empties@.len() implies start.nodes().contains_key(#[trigger] empties@[q])
                && start.nodes()[empties@[q]].cols().len() == 0 by {
                assert(empties@.contains(empties@[q]));
            }
        }
        let mut k: usize = 0;
        while k < empties.len()
            invariant
                k <= empties@.len(),
                self.wf(),
                start.wf(),
                empties@.no_duplicates(),
                forall|q: int| 0 <= q < empties@.len() ==> start.nodes().contains_key(#[trigger] empties@[q])
                    && start.nodes()[empties@[q]].cols().len() == 0,
                self.nodes().dom() == start.nodes().dom().difference(empties@.take(k as int).to_set()),
                cut_edges(start, *self, edges_into(start.edges(), empties@.take(k as int).to_set())),
                self.value_size == start.value_size,
                self.dependencies == start.dependencies,
                self.queue == start.queue,
                self.targets == start.targets,
                self.partitioning == start.partitioning,
            decreases empties@.len() - k,
        {
            let n = empties[k];
            let ghost done = empties@.take(k as int).to_set();
            let ghost rk = edges_into(start.edges(), done);
            proof {
                assert(!done.contains(n)) by {
                    if done.contains(n) {
                        let q = choose|q: int| 0 <= q < k && empties@.take(k as int)[q] == n;
                        assert(empties@[q] == empties@[k as int]);
                    }
                }
                assert(self.nodes().contains_key(n));
            }
            let incoming = graph_edges_directed(&self.structure, n, true);
            let mut j: usize = 0;
            let ghost mut cut: Set<u32> = Set::empty();
            proof {
                assert(cut =~= Set::new(|x: u32| exists|q: int| 0 <= q < 0 && #[trigger] incoming@[q].0 == x));
                assert(rk + cut =~= rk);
                assert forall|e: u32| #[trigger] start.edges().contains_key(e) && !rk.contains(e) && start.edges()[e].1 == n
                    implies exists|q: int| 0 <= q < incoming@.len() && #[trigger] incoming@[q].0 == e by {
                    assert(self.edges().contains_key(e));
                }
            }
            while j < incoming.len()
                invariant
                    j <= incoming@.len(),
                    self.wf(),
                    start.wf(),
                    self.nodes().dom() == start.nodes().dom().difference(done),
                    self.nodes().contains_key(n),
                    !done.contains(n),
                    start.nodes()[n].cols().len() == 0,
                    cut == Set::new(|x: u32| exists|q: int| 0 <= q < j && #[trigger] incoming@[q].0 == x),
                    cut_edges(start, *self, rk + cut),
                    rk == edges_into(start.edges(), done),
                    incoming@.map_values(|p: (u32, u32)| p.0).no_duplicates(),
                    forall|q: int| j <= q < incoming@.len() ==> self.edges().contains_key(#[trigger] incoming@[q].0)
                        && self.edges()[incoming@[q].0] == (incoming@[q].1, n),
                    forall|e: u32| #[trigger] start.edges().contains_key(e) && !rk.contains(e) && start.edges()[e].1 == n
                        ==> exists|q: int| 0 <= q < incoming@.len() && #[trigger] incoming@[q].0 == e,
                    self.value_size == start.value_size,
                    self.dependencies == start.dependencies,
                    self.queue == start.queue,
                    self.targets == start.targets,
                    self.partitioning == start.partitioning,
                decreases incoming@.len() - j,
            {
                let (e, parent) = incoming[j];
                let ghost mid = *self;
                self.cut_edge(parent, e);
                proof {
                    let c = choose|c: int| 0 <= c < mid.nodes()[parent].cols().len()
                        && mid.nodes()[parent].cols()[c] == Column::Memory(e)
                        && self.nodes()[parent].cols() == mid.nodes()[parent].cols().remove(c);
                    assert(!(rk + cut).contains(e)) by {
                        assert(mid.edges().contains_key(e));
                    }
                    lemma_cut_step(start, mid, *self, rk + cut, parent, e, c);
                    let new_cut = Set::new(|x: u32| exists|q: int| 0 <= q < j + 1 && #[trigger] incoming@[q].0 == x);
                    assert(new_cut =~= cut.insert(e));
                    assert((rk + cut).insert(e) =~= rk + new_cut);
                    cut = new_cut;
                    assert forall|q: int| j + 1 <= q < incoming@.len() implies self.edges().contains_key(#[trigger] incoming@[q].0)
                        && self.edges()[incoming@[q].0] == (incoming@[q].1, n) by {
                        assert(incoming@.map_values(|p: (u32, u32)| p.0)[q] != incoming@.map_values(|p: (u32, u32)| p.0)[j as int]);
                    }
                }
                j = j + 1;
            }
            proof {
                assert forall|e: u32| #[trigger] self.edges().contains_key(e) implies self.edges()[e].1 != n by {
                    if self.edges()[e].1 == n {
                        assert(start.edges().contains_key(e) && !(rk + cut).contains(e));
                        assert(start.edges()[e] == self.edges()[e]);
                        let q = choose|q: int| 0 <= q < incoming@.len() && #[trigger] incoming@[q].0 == e;
                        assert(cut.contains(e));
                    }
                }
                assert(self.nodes()[n].cols().len() == 0) by {
                    let r = removed_from(start.edges(), n, rk + cut);
                    assert(self.nodes()[n].cols() == start.nodes()[n].cols().filter(kept_column(r)));
                    broadcast use vstd::seq_lib::group_filter_ensures;
                }
            }
            let ghost before_removal = *self;
            self.remove_unreferenced(n);
            proof {
                let done2 = empties@.take(k + 1).to_set();
                assert(empties@.take(k + 1) =~= empties@.take(k as int).push(n));
                crate::lemmas::lemma_to_set_push(empties@.take(k as int), n);
                assert(done2 == done.insert(n));
                assert(self.nodes().dom() =~= start.nodes().dom().difference(done2));
                assert forall|e: u32| #[trigger] before_removal.edges().contains_key(e) implies before_removal.edges()[e].0 != n by {
                    let src = before_removal.edges()[e].0;
                    assert(before_removal.nodes()[src].cols().contains(Column::Memory(e)));
                }
                assert(edges_into(start.edges(), done2) =~= rk + cut) by {
                    assert forall|x: u32| edges_into(start.edges(), done2).contains(x) <==> (rk + cut).contains(x) by {
                        if cut.contains(x) {
                            let q = choose|q: int| 0 <= q < incoming@.len() && #[trigger] incoming@[q].0 == x;
                        }
                        if edges_into(start.edges(), done2).contains(x) && !rk.contains(x) {
                            assert(start.edges()[x].1 == n);
                            let q = choose|q: int| 0 <= q < incoming@.len() && #[trigger] incoming@[q].0 == x;
                            assert(cut.contains(x));
                        }
                    }
                }
            }
            k = k + 1;
        }
        proof {
            assert(empties@.take(empties@.len() as int) =~= empties@);
        }
    }
}

impl ReactiveCircuit {
    /// Whether every circuit has at least one minterm and one column; that
    /// every edge has its memory column and every memory column its edge is
    /// part of being well formed.
    pub fn check_invariants(&self) -> (ok: bool)
        requires
            self.wf(),
        ensures
            ok == forall|n: u32| #[trigger] self.nodes().contains_key(n)
                ==> self.nodes()[n].rows().len() > 0 && self.nodes()[n].cols().len() > 0,
    {
        let indices = graph_node_indices(&self.structure);
        let mut m: usize = 0;
        while m < indices.len()
            invariant
                m <= indices@.len(),
                indices@.to_set() == self.nodes().dom(),
                forall|q: int| 0 <= q < m ==> self.nodes()[#[trigger] indices@[q]].rows().len() > 0
                    && self.nodes()[indices@[q]].cols().len() > 0,
            decreases indices@.len() - m,
        {
            let n = indices[m];
            proof { assert(indices@.to_set().contains(n)); }
            let ac = graph_node(&self.structure, n);
            if ac.is_empty() || ac.columns().len() == 0 {
                return false;
            }
            m = m + 1;
        }
        proof {
            assert forall|n: u32| #[trigger] self.nodes().contains_key(n)
                implies self.nodes()[n].rows().len() > 0 && self.nodes()[n].cols().len() > 0 by {
                assert(indices@.to_set().contains(n));
                let q = choose|q: int| 0 <= q < indices@.len() && indices@[q] == n;
            }
        }
        true
    }
}

} // verus!
