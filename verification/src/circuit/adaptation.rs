use vstd::prelude::*;
use crate::circuit::algebraic::{add_column, find_column, row_ok, AlgebraicCircuit, Column};
use crate::circuit::reactive::{
    graph_add_edge, graph_add_node, graph_edge_count, graph_edge_endpoints, graph_edges_directed, graph_node,
    graph_node_count, leaf_dependents, lemma_remove_col_contains, ReactiveCircuit,
};
use crate::circuit::lifting::no_self_loops;
use crate::circuit::semantics::{
    drop_progress, drop_ready, keeps_values, lemma_drop_keeps_values, lemma_drop_progress_start, lemma_drop_step,
    lemma_keeps_values_same, lemma_keeps_values_same_graph, lemma_removal_keeps_minterms, leaf_removed, single_parents,
    drop_chain, keeps_unheld_values, leaf_drop_ready, lemma_drop_chain_start, lemma_drop_chain_step,
    lemma_keeps_unheld_same_graph,
};

verus! {

/// The edge of a memory column; none for a leaf column.
pub open spec fn memory_edge(c: Column) -> Option<u32> {
    match c {
        Column::Memory(e) => Some(e),
        Column::Leaf(_) => None,
    }
}

/// The edge of the first memory column that `row` refers to, if any.
pub open spec fn first_memory(row: Seq<usize>, cols: Seq<Column>) -> Option<u32>
    decreases row.len(),
{
    if row.len() == 0 {
        None
    } else if row[0] < cols.len() && memory_edge(cols[row[0] as int]) is Some {
        memory_edge(cols[row[0] as int])
    } else {
        first_memory(row.drop_first(), cols)
    }
}

/// A column that `find_column` finds holds the variable looked for.
pub(crate) proof fn lemma_found_column(cols: Seq<Column>, v: Column)
    requires
        cols.len() <= usize::MAX,
    ensures
        find_column(cols, v) matches Some(c) ==> c < cols.len() && cols[c as int] == v,
{
    if cols.contains(v) {
        let i = choose|i: int| 0 <= i < cols.len() && cols[i] == v;
        assert((i as usize) < cols.len() && cols[(i as usize) as int] == v);
    }
}

/// The first column of row `row` that holds a memory, if any.
fn first_memory_col(ac: &AlgebraicCircuit, row: usize) -> (found: Option<usize>)
    requires
        ac.wf(),
        row < ac.rows().len(),
    ensures
        found matches Some(c) ==> {
            &&& c < ac.cols().len()
            &&& ac.rows()[row as int].contains(c)
            &&& memory_edge(ac.cols()[c as int]) is Some
            &&& first_memory(ac.rows()[row as int], ac.cols()) == memory_edge(ac.cols()[c as int])
        },
        found is None ==> first_memory(ac.rows()[row as int], ac.cols()) is None,
{
    let cols = ac.get_minterm_cols(row);
    proof { ac.lemma_wf(); assert(row_ok(ac.rows()[row as int], ac.cols().len())); }
    let ghost r = ac.rows()[row as int];
    proof { assert(r.skip(0) =~= r); }
    let mut k: usize = 0;
    while k < cols.len()
        invariant
            cols@ == r,
            row < ac.rows().len(),
            r == ac.rows()[row as int],
            k <= r.len(),
            row_ok(r, ac.cols().len()),
            first_memory(r, ac.cols()) == first_memory(r.skip(k as int), ac.cols()),
        decreases r.len() - k,
    {
        let c = cols[k];
        proof { assert(r.skip(k as int)[0] == c); }
        if ac.col_is_memory(c) {
            proof {
                assert(r.contains(c)) by { assert(r[k as int] == c); }
                let t = r.skip(k as int);
                assert(t.len() > 0 && t[0] == c);
                assert(memory_edge(ac.cols()[c as int]) is Some);
                assert(first_memory(t, ac.cols()) == memory_edge(ac.cols()[c as int]));
                assert(first_memory(ac.rows()[row as int], ac.cols()) == memory_edge(ac.cols()[c as int]));
            }
            return Some(c);
        }
        proof { assert(r.skip(k as int).drop_first() =~= r.skip(k + 1)); }
        k = k + 1;
    }
    proof { assert(r.skip(k as int).len() == 0); }
    None
}

/// What `drop_from_node` promises of the circuit `f` that it leaves after
/// dropping leaf `x` from node `d` of `c`.
pub open spec fn node_dropped(c: ReactiveCircuit, f: ReactiveCircuit, d: u32, x: u32) -> bool {
    &&& f.wf()
    &&& f.value_size == c.value_size
    &&& f.targets == c.targets
    &&& f.partitioning == c.partitioning
    &&& f.dependencies == c.dependencies
    &&& no_self_loops(c.edges()) ==> no_self_loops(f.edges())
    &&& c.nodes().dom().subset_of(f.nodes().dom())
    &&& forall|e: u32| #[trigger] f.edges().contains_key(e) ==> (c.edges().contains_key(e) && f.edges()[e] == c.edges()[e])
        || (f.edges()[e].0 == d && !c.nodes().contains_key(f.edges()[e].1))
    &&& forall|e: u32| #[trigger] c.edges().contains_key(e) ==> f.edges().contains_key(e) && f.edges()[e] == c.edges()[e]
    &&& !c.nodes()[d].cols().contains(Column::Leaf(x)) ==> f == c
    &&& !graph_full(c, c.nodes()[d].rows().len()) ==> !f.nodes()[d].cols().contains(Column::Leaf(x))
    &&& !graph_full(c, c.nodes()[d].rows().len()) && no_self_loops(c.edges())
        && (exists|i: int| 0 <= i < c.nodes()[d].products().len() && #[trigger] c.nodes()[d].products()[i].contains(Column::Leaf(x)))
        ==> pushed_into_child(f, d, x)
    &&& drop_ready(c, d, x) ==> keeps_values(c, f, d)
}

/// One step of `drop_leaf`: leaf `x` is dropped from listed node `d` when
/// it is a node, and nothing changes otherwise.
pub open spec fn listed_drop(c: ReactiveCircuit, f: ReactiveCircuit, d: u32, x: u32) -> bool {
    if c.nodes().contains_key(d) { node_dropped(c, f, d, x) } else { f == c }
}

/// Whether `trace` runs from `before` to the graph and targets of `after`
/// by dropping leaf `x` from each node of `listed` in turn.
pub open spec fn dropped_along(trace: Seq<ReactiveCircuit>, before: ReactiveCircuit, after: ReactiveCircuit,
    listed: Seq<u32>, x: u32) -> bool {
    &&& trace.len() == listed.len() + 1
    &&& trace[0] == before
    &&& after.structure == trace[listed.len() as int].structure
    &&& after.targets == trace[listed.len() as int].targets
    &&& forall|k: int| 0 <= k < listed.len() ==> #[trigger] listed_drop(trace[k], trace[k + 1], listed[k], x)
}

/// Whether the graph has no room left for `rows` more nodes and edges below
/// the last `u32` indices, which a drop from a node with `rows` minterms may
/// need.
pub open spec fn graph_full(rc: ReactiveCircuit, rows: nat) -> bool {
    rows + rc.nodes().dom().len() >= 0xffff_fffe || rows + rc.edges().dom().len() >= 0xffff_fffe
}

/// Whether `drop_leaf` must remove leaf `x` from node `n`: `n` is listed,
/// holds the leaf and has no listed parent.
pub open spec fn drop_target(rc: ReactiveCircuit, listed: Seq<u32>, n: u32, x: u32) -> bool {
    &&& listed.contains(n)
    &&& crate::circuit::semantics::holds_leaf(rc, n, x)
    &&& !(exists|e: u32| #[trigger] rc.edges().contains_key(e) && rc.edges()[e].1 == n && listed.contains(rc.edges()[e].0))
}

/// Whether `drop_leaf` must also leave leaf `x` in a child of node `n`:
/// besides `drop_target`, a minterm of `n` holds the leaf, every listed
/// node is a node, no child of `n` is listed and no edge leads from a node
/// to itself.
pub open spec fn drop_push_target(rc: ReactiveCircuit, listed: Seq<u32>, n: u32, x: u32) -> bool {
    &&& drop_target(rc, listed, n, x)
    &&& no_self_loops(rc.edges())
    &&& forall|i: int| 0 <= i < listed.len() ==> rc.nodes().contains_key(#[trigger] listed[i])
    &&& !(exists|e: u32| #[trigger] rc.edges().contains_key(e) && rc.edges()[e].0 == n && listed.contains(rc.edges()[e].1))
    &&& exists|i: int| 0 <= i < rc.nodes()[n].products().len() && #[trigger] rc.nodes()[n].products()[i].contains(Column::Leaf(x))
}

/// Whether some child of node `n` that is not listed holds leaf `x`.
pub open spec fn pushed_outside(rc: ReactiveCircuit, n: u32, x: u32, listed: Seq<u32>) -> bool {
    exists|e: u32| #[trigger] rc.edges().contains_key(e) && rc.edges()[e].0 == n && rc.edges()[e].1 != n
        && rc.nodes()[rc.edges()[e].1].cols().contains(Column::Leaf(x)) && !listed.contains(rc.edges()[e].1)
}

/// Whether some child of node `n` holds leaf `x`.
pub open spec fn pushed_into_child(rc: ReactiveCircuit, n: u32, x: u32) -> bool {
    exists|e: u32| #[trigger] rc.edges().contains_key(e) && rc.edges()[e].0 == n && rc.edges()[e].1 != n
        && rc.nodes()[rc.edges()[e].1].cols().contains(Column::Leaf(x))
}

/// Whether `after` is `before` with leaf `leaf` of minterm `row` of node
/// `dependency` pushed down one level: into the child of the first memory
/// of the minterm, which is multiplied by the leaf, or into a new child
/// holding just the leaf, wired into the minterm.
pub open spec fn pushed_down(before: ReactiveCircuit, after: ReactiveCircuit, leaf: u32, dependency: u32, row: int) -> bool {
    &&& (first_memory(before.nodes()[dependency].rows()[row], before.nodes()[dependency].cols()) matches Some(e) ==> {
        let child = before.edges()[e].1;
        &&& before.edges().contains_key(e)
        &&& before.edges()[e].0 == dependency
        &&& after.edges() == before.edges()
        &&& after.nodes().dom() == before.nodes().dom()
        &&& forall|n: u32| #[trigger] after.nodes().contains_key(n) && n != child ==> after.nodes()[n] == before.nodes()[n]
        &&& after.nodes()[child].cols() == add_column(before.nodes()[child].cols(), Column::Leaf(leaf))
        &&& after.nodes()[child].products() == before.nodes()[child].products().map_values(
            |p: Set<Column>| p.insert(Column::Leaf(leaf)))
        &&& after.nodes()[child].rows().len() == before.nodes()[child].rows().len()
    })
    &&& (first_memory(before.nodes()[dependency].rows()[row], before.nodes()[dependency].cols()) is None ==> exists|n: u32, e: u32| {
        &&& !before.nodes().contains_key(n)
        &&& !before.edges().contains_key(e)
        &&& after.nodes().dom() == before.nodes().dom().insert(n)
        &&& after.edges() == before.edges().insert(e, (dependency, n))
        &&& after.nodes()[n].cols() == seq![Column::Leaf(leaf)]
        &&& after.nodes()[n].products() == seq![set![Column::Leaf(leaf)]]
        &&& after.nodes()[dependency].cols() == before.nodes()[dependency].cols().push(Column::Memory(e))
        &&& after.nodes()[dependency].rows().len() == before.nodes()[dependency].rows().len()
        &&& forall|r: int| 0 <= r < before.nodes()[dependency].rows().len() && r != row
            ==> #[trigger] after.nodes()[dependency].rows()[r] == before.nodes()[dependency].rows()[r]
        &&& after.nodes()[dependency].rows()[row].to_set()
            == before.nodes()[dependency].rows()[row].to_set().insert(before.nodes()[dependency].cols().len() as usize)
        &&& forall|m: u32| #[trigger] after.nodes().contains_key(m) && m != n && m != dependency
            ==> after.nodes()[m] == before.nodes()[m]
    })
}

impl ReactiveCircuit {
    /// Pushes leaf `leaf` of row `row` of node `dependency` down one level:
    /// when the row refers to a memory, the circuit of the first such
    /// memory's child is multiplied by the leaf; otherwise a new child
    /// holding just the leaf is made and wired into the row.
    fn handle_leaf_drop_for_product(&mut self, leaf: u32, dependency: u32, row: usize)
        requires
            old(self).wf(),
            old(self).nodes().contains_key(dependency),
            row < old(self).nodes()[dependency].rows().len(),
            old(self).nodes().dom().len() < u32::MAX,
            old(self).edges().dom().len() < u32::MAX,
        ensures
            final(self).wf(),
            final(self).value_size == old(self).value_size,
            final(self).dependencies == old(self).dependencies,
            final(self).queue == old(self).queue,
            final(self).targets == old(self).targets,
            final(self).partitioning == old(self).partitioning,
            no_self_loops(old(self).edges()) ==> no_self_loops(final(self).edges()),
            pushed_down(*old(self), *final(self), leaf, dependency, row as int),
    {
        let found = first_memory_col(graph_node(&self.structure, dependency), row);
        match found {
            Some(col) => {
                let ac = graph_node(&self.structure, dependency);
                let edge = match ac.col_memory_edge(col) {
                    Some(e) => e,
                    None => {
                        proof { assert(false); }
                        return;
                    },
                };
                proof {
                    let cols = old(self).nodes()[dependency].cols();
                    assert(cols.contains(Column::Memory(edge))) by { assert(cols[col as int] == Column::Memory(edge)); }
                }
                let child = match graph_edge_endpoints(&self.structure, edge) {
                    Some(ends) => ends.1,
                    None => {
                        proof { assert(false); }
                        return;
                    },
                };
                let placeholder = AlgebraicCircuit::new(self.value_size);
                let mut target = self.swap_circuit(child, placeholder);
                let ghost before = target;
                target.multiply(leaf);
                self.swap_circuit(child, target);
                proof {
                    let nodes = self.nodes();
                    let edges = self.edges();
                    assert(nodes =~= old(self).nodes().insert(child, target));
                    assert(nodes.dom() =~= old(self).nodes().dom());
                    target.lemma_sizes();
                    assert(target.products().len() == target.rows().len());
                    assert(before.products().len() == before.rows().len());
                    assert forall|e: u32| #[trigger] edges.contains_key(e) implies nodes[edges[e].0].cols().contains(Column::Memory(e)) by {
                        let src = edges[e].0;
                        assert(old(self).nodes()[src].cols().contains(Column::Memory(e)));
                        if src == child {
                            crate::circuit::reactive::lemma_add_leaf_keeps_memories(before.cols(), leaf, e);
                        }
                    }
                    assert forall|n: u32, m: u32| nodes.contains_key(n) && #[trigger] nodes[n].cols().contains(Column::Memory(m))
                        implies edges.contains_key(m) && edges[m].0 == n by {
                        if n == child {
                            crate::circuit::reactive::lemma_add_leaf_keeps_memories(before.cols(), leaf, m);
                        }
                    }
                }
            },
            None => {
                let mut single: Vec<u32> = Vec::new();
                single.push(leaf);
                let mut leaf_product: Vec<Vec<u32>> = Vec::new();
                leaf_product.push(single);
                let fresh = AlgebraicCircuit::from_sum_product(self.value_size, leaf_product.as_slice());
                proof {
                    let sp = leaf_product@.map_values(|p: Vec<u32>| p@);
                    assert(sp =~= seq![seq![leaf]]);
                    reveal_with_fuel(crate::circuit::algebraic::extend_leaves_all, 2);
                    reveal_with_fuel(crate::circuit::algebraic::extend_leaves, 2);
                    assert(sp.drop_last() =~= Seq::<Seq<u32>>::empty());
                    assert(seq![leaf].drop_last() =~= Seq::<u32>::empty());
                    assert(fresh.cols() =~= seq![Column::Leaf(leaf)]);
                    assert(seq![leaf].to_set() =~= set![leaf]) by {
                        assert(seq![leaf][0] == leaf);
                    }
                    assert(crate::circuit::algebraic::leaf_set(seq![leaf]) =~= set![Column::Leaf(leaf)]) by {
                        assert(set![leaf].contains(leaf));
                        assert(set![leaf].map(|i: u32| Column::Leaf(i)).contains(Column::Leaf(leaf)));
                    }
                    assert(fresh.products() =~= seq![set![Column::Leaf(leaf)]]);
                }
                let ghost nodes0 = self.nodes();
                let node = graph_add_node(&mut self.structure, fresh);
                let edge = graph_add_edge(&mut self.structure, dependency, node);
                let placeholder = AlgebraicCircuit::new(self.value_size);
                let mut ac = self.swap_circuit(dependency, placeholder);
                let ghost before = ac;
                proof {
                    if ac.cols().contains(Column::Memory(edge)) {
                        assert(old(self).nodes()[dependency].cols().contains(Column::Memory(edge)));
                    }
                }
                let col = ac.create_memory(edge);
                proof { ac.lemma_wf(); }
                ac.add_col_to_minterm(row, col);
                self.swap_circuit(dependency, ac);
                proof {
                    let nodes = self.nodes();
                    let edges = self.edges();
                    assert(nodes =~= nodes0.insert(node, fresh).insert(dependency, ac));
                    assert(nodes.dom() =~= old(self).nodes().dom().insert(node));
                    assert(ac.cols() == before.cols().push(Column::Memory(edge)));
                    assert forall|e: u32| #[trigger] edges.contains_key(e) implies nodes[edges[e].0].cols().contains(Column::Memory(e)) by {
                        if e == edge {
                            assert(ac.cols()[col as int] == Column::Memory(edge));
                        } else {
                            let src = edges[e].0;
                            assert(old(self).nodes()[src].cols().contains(Column::Memory(e)));
                            if src == dependency {
                                let q = choose|q: int| 0 <= q < before.cols().len() && before.cols()[q] == Column::Memory(e);
                                assert(ac.cols()[q] == Column::Memory(e));
                            }
                        }
                    }
                    assert forall|n: u32, m: u32| nodes.contains_key(n) && #[trigger] nodes[n].cols().contains(Column::Memory(m))
                        implies edges.contains_key(m) && edges[m].0 == n by {
                        if n == dependency && m != edge {
                            let q = choose|q: int| 0 <= q < ac.cols().len() && ac.cols()[q] == Column::Memory(m);
                            assert(before.cols()[q] == Column::Memory(m));
                            assert(before.cols().contains(Column::Memory(m)));
                        }
                        if n == node {
                            let q = choose|q: int| 0 <= q < fresh.cols().len() && fresh.cols()[q] == Column::Memory(m);
                            assert(fresh.cols()[q] == Column::Leaf(leaf));
                        }
                    }
                    assert(nodes[node] == fresh);
                    assert(forall|m: u32| #[trigger] nodes.contains_key(m) && m != node && m != dependency ==> nodes[m] == old(self).nodes()[m]);
                }
            },
        }
    }
}

impl ReactiveCircuit {
    /// Removes leaf `index` from every circuit that depends on it and holds
    /// it directly, pushing it down into the children of the minterms that
    /// held it (see `handle_leaf_drop_for_product`), marks the children of
    /// those circuits for recomputation and recomputes the dependencies.  A
    /// circuit is left as it is when the graph has no room for the nodes and
    /// edges its minterms could need.  Where every circuit that holds the leaf
    /// is ready for the drop and no listed circuit is a child of one of them
    /// (`leaf_drop_ready`), every node that is no such child, each target
    /// among them, keeps its value.  Each listed circuit that held the leaf
    /// and has no listed parent no longer holds it (`drop_target`), and the
    /// leaf is found in one of its children (`drop_push_target`), unless the
    /// node and edge indices, which are `u32`, have no room left for one
    /// more of each per minterm of that circuit (`graph_full`).  In every
    /// case the leaf is dropped from each listed circuit in turn, as
    /// `drop_from_node` does it (`dropped_along`); by
    /// `law_ready_drops_keep_target`, a target keeps its value whenever each
    /// of those drops is ready for it.
    pub fn drop_leaf(&mut self, index: u32)
        requires
            old(self).wf(),
            index < old(self).dependencies@.len(),
            old(self).dependencies@.len() <= u32::MAX,
        ensures
            final(self).wf(),
            final(self).value_size == old(self).value_size,
            final(self).targets == old(self).targets,
            final(self).partitioning == old(self).partitioning,
            no_self_loops(old(self).edges()) ==> no_self_loops(final(self).edges()),
            final(self).dependencies@.len() == old(self).dependencies@.len(),
            forall|l: int| 0 <= l < final(self).dependencies@.len() ==> (#[trigger] final(self).dependencies@[l])@.to_set()
                == leaf_dependents(final(self).nodes(), final(self).edges(), l as u32),
            old(self).queue@.to_set().subset_of(final(self).queue@.to_set()),
            old(self).nodes().dom().subset_of(final(self).nodes().dom()),
            forall|e: u32| #[trigger] old(self).edges().contains_key(e) ==> final(self).edges().contains_key(e)
                && final(self).edges()[e] == old(self).edges()[e],
            forall|n: u32| #[trigger] old(self).nodes().contains_key(n)
                && !old(self).dependencies@[index as int]@.contains(n)
                && !(exists|e: u32| #[trigger] old(self).edges().contains_key(e) && old(self).edges()[e].1 == n
                    && old(self).dependencies@[index as int]@.contains(old(self).edges()[e].0))
                ==> final(self).nodes()[n] == old(self).nodes()[n],
            leaf_drop_ready(*old(self), index, old(self).dependencies@[index as int]@)
                ==> keeps_unheld_values(*old(self), *final(self), index),
            leaf_drop_ready(*old(self), index, old(self).dependencies@[index as int]@)
                ==> forall|i: int| 0 <= i < old(self).target_list().len()
                    && old(self).nodes().contains_key(old(self).target_list()[i].1)
                    && !crate::circuit::semantics::below_holder(*old(self), #[trigger] old(self).target_list()[i].1, index)
                    ==> crate::circuit::lift_values::target_value_kept(*old(self), *final(self), i),
            forall|n: u32| #[trigger] drop_target(*old(self), old(self).dependencies@[index as int]@, n, index)
                ==> !crate::circuit::semantics::holds_leaf(*final(self), n, index)
                    || graph_full(*final(self), old(self).nodes()[n].rows().len()),
            forall|n: u32| #[trigger] drop_push_target(*old(self), old(self).dependencies@[index as int]@, n, index)
                ==> pushed_outside(*final(self), n, index, old(self).dependencies@[index as int]@)
                    || graph_full(*final(self), old(self).nodes()[n].rows().len()),
            exists|trace: Seq<ReactiveCircuit>| #[trigger] dropped_along(trace, *old(self), *final(self),
                old(self).dependencies@[index as int]@, index),
    {
        let ghost listed = old(self).dependencies@[index as int]@;
        let ghost mut trace: Seq<ReactiveCircuit> = seq![*old(self)];
        proof {
            if leaf_drop_ready(*old(self), index, listed) {
                lemma_drop_chain_start(*old(self), index, listed);
            }
        }
        let mut k: usize = 0;
        while k < self.dependencies[index as usize].len()
            invariant
                self.wf(),
                index < self.dependencies@.len(),
                self.dependencies == old(self).dependencies,
                listed == self.dependencies@[index as int]@,
                k <= listed.len(),
                self.value_size == old(self).value_size,
                self.targets == old(self).targets,
                self.partitioning == old(self).partitioning,
                no_self_loops(old(self).edges()) ==> no_self_loops(self.edges()),
                old(self).queue@.to_set().subset_of(self.queue@.to_set()),
                old(self).nodes().dom().subset_of(self.nodes().dom()),
                forall|e: u32| #[trigger] self.edges().contains_key(e) ==> (old(self).edges().contains_key(e)
                    && self.edges()[e] == old(self).edges()[e]) || !old(self).nodes().contains_key(self.edges()[e].1),
                forall|e: u32| #[trigger] old(self).edges().contains_key(e) ==> self.edges().contains_key(e)
                    && self.edges()[e] == old(self).edges()[e],
                forall|n: u32| #[trigger] old(self).nodes().contains_key(n) && !listed.contains(n)
                    && !(exists|e: u32| #[trigger] old(self).edges().contains_key(e) && old(self).edges()[e].1 == n
                        && listed.contains(old(self).edges()[e].0))
                    ==> self.nodes()[n] == old(self).nodes()[n],
                leaf_drop_ready(*old(self), index, listed) ==> drop_chain(*old(self), *self, index),
                trace.len() == k + 1,
                trace[0] == *old(self),
                trace[k as int] == *self,
                forall|j: int| 0 <= j < k ==> #[trigger] listed_drop(trace[j], trace[j + 1], listed[j], index),
                old(self).wf(),
                crate::circuit::reactive::increasing(listed),
                forall|q: int| k <= q < listed.len() && old(self).nodes().contains_key(#[trigger] listed[q])
                    && !(exists|e: u32| #[trigger] old(self).edges().contains_key(e) && old(self).edges()[e].1 == listed[q]
                        && listed.contains(old(self).edges()[e].0))
                    ==> self.nodes()[listed[q]] == old(self).nodes()[listed[q]],
                forall|q: int| 0 <= q < k && drop_target(*old(self), listed, #[trigger] listed[q], index)
                    ==> !crate::circuit::semantics::holds_leaf(*self, listed[q], index)
                    || graph_full(*self, old(self).nodes()[listed[q]].rows().len()),
                forall|q: int| 0 <= q < k && drop_push_target(*old(self), listed, #[trigger] listed[q], index)
                    ==> pushed_outside(*self, listed[q], index, listed)
                    || graph_full(*self, old(self).nodes()[listed[q]].rows().len()),
            decreases listed.len() - k,
        {
            let dependency = self.dependencies[index as usize][k];
            proof { assert(listed[k as int] == dependency); assert(listed.contains(dependency)); }
            let ghost c = *self;
            if self.contains_node(dependency) {
                self.drop_from_node(index, dependency, Ghost(listed));
                proof {
                    if leaf_drop_ready(*old(self), index, listed) {
                        lemma_drop_chain_step(*old(self), c, *self, dependency, index);
                    }
                }
            }
            proof {
                lemma_drop_leaf_step(*old(self), c, *self, listed, k as int, index);
                assert(listed_drop(c, *self, dependency, index));
                let next = trace.push(*self);
                assert forall|j: int| 0 <= j < k + 1 implies #[trigger] listed_drop(next[j], next[j + 1], listed[j], index) by {
                    if j < k {
                        assert(next[j] == trace[j] && next[j + 1] == trace[j + 1]);
                    }
                }
                trace = next;
            }
            k = k + 1;
        }
        let ghost c = *self;
        self.update_dependencies();
        proof {
            assert(dropped_along(trace, *old(self), *self, listed, index));
            assert forall|n: u32| #[trigger] drop_target(*old(self), listed, n, index)
                implies !crate::circuit::semantics::holds_leaf(*self, n, index)
                    || graph_full(*self, old(self).nodes()[n].rows().len()) by {
                let q = choose|q: int| 0 <= q < listed.len() && listed[q] == n;
            }
            assert forall|n: u32| #[trigger] drop_push_target(*old(self), listed, n, index)
                implies pushed_outside(*self, n, index, listed)
                    || graph_full(*self, old(self).nodes()[n].rows().len()) by {
                let q = choose|q: int| 0 <= q < listed.len() && listed[q] == n;
                if pushed_outside(c, n, index, listed) {
                    let e = choose|e: u32| #[trigger] c.edges().contains_key(e) && c.edges()[e].0 == n && c.edges()[e].1 != n
                        && c.nodes()[c.edges()[e].1].cols().contains(Column::Leaf(index)) && !listed.contains(c.edges()[e].1);
                    assert(self.edges().contains_key(e));
                }
            }
            if leaf_drop_ready(*old(self), index, listed) {
                lemma_keeps_unheld_same_graph(*old(self), c, *self, index);
                assert forall|i: int| 0 <= i < old(self).target_list().len()
                    && old(self).nodes().contains_key(old(self).target_list()[i].1)
                    && !crate::circuit::semantics::below_holder(*old(self), #[trigger] old(self).target_list()[i].1, index)
                    implies crate::circuit::lift_values::target_value_kept(*old(self), *self, i) by {
                    let n = old(self).target_list()[i].1;
                    assert(self.target_list()[i].1 == n);
                    assert(self.nodes().contains_key(n));
                    assert forall|r: Map<u32, nat>, r2: Map<u32, nat>, val: spec_fn(u32) -> int|
                        crate::circuit::semantics::ranked(old(self).edges(), r) && crate::circuit::semantics::ranked(self.edges(), r2)
                        implies #[trigger] self.value(r2, val, n) == #[trigger] old(self).value(r, val, n) by {
                    }
                }
            }
        }
    }

    /// The part of `drop_leaf` for one node `dependency` of the list `listed`.
    fn drop_from_node(&mut self, index: u32, dependency: u32, Ghost(listed): Ghost<Seq<u32>>)
        requires
            old(self).wf(),
            old(self).nodes().contains_key(dependency),
            listed.contains(dependency),
        ensures
            final(self).wf(),
            final(self).value_size == old(self).value_size,
            final(self).targets == old(self).targets,
            final(self).partitioning == old(self).partitioning,
            final(self).dependencies == old(self).dependencies,
            no_self_loops(old(self).edges()) ==> no_self_loops(final(self).edges()),
            old(self).queue@.to_set().subset_of(final(self).queue@.to_set()),
            old(self).nodes().dom().subset_of(final(self).nodes().dom()),
            forall|e: u32| #[trigger] final(self).edges().contains_key(e) ==> (old(self).edges().contains_key(e)
                && final(self).edges()[e] == old(self).edges()[e]) || (final(self).edges()[e].0 == dependency
                && !old(self).nodes().contains_key(final(self).edges()[e].1)),
            forall|e: u32| #[trigger] old(self).edges().contains_key(e) ==> final(self).edges().contains_key(e)
                && final(self).edges()[e] == old(self).edges()[e],
            forall|n: u32| #[trigger] old(self).nodes().contains_key(n) && n != dependency
                && !(exists|e: u32| #[trigger] old(self).edges().contains_key(e) && old(self).edges()[e] == (dependency, n))
                ==> final(self).nodes()[n] == old(self).nodes()[n],
            single_parents(old(self).edges()) ==> single_parents(final(self).edges()),
            !old(self).nodes()[dependency].cols().contains(Column::Leaf(index)) ==> *final(self) == *old(self),
            *final(self) == *old(self) || !final(self).nodes()[dependency].cols().contains(Column::Leaf(index)),
            !graph_full(*old(self), old(self).nodes()[dependency].rows().len())
                ==> !final(self).nodes()[dependency].cols().contains(Column::Leaf(index)),
            !graph_full(*old(self), old(self).nodes()[dependency].rows().len()) && no_self_loops(old(self).edges())
                && (exists|i: int| 0 <= i < old(self).nodes()[dependency].products().len()
                    && #[trigger] old(self).nodes()[dependency].products()[i].contains(Column::Leaf(index)))
                ==> pushed_into_child(*final(self), dependency, index),
            forall|n: u32, v: Column| #[trigger] old(self).nodes().contains_key(n) && n != dependency
                && #[trigger] old(self).nodes()[n].cols().contains(v) ==> final(self).nodes()[n].cols().contains(v),
            drop_ready(*old(self), dependency, index) ==> keeps_values(*old(self), *final(self), dependency),
    {
        proof {
            if exists|i: int| 0 <= i < old(self).nodes()[dependency].products().len()
                && #[trigger] old(self).nodes()[dependency].products()[i].contains(Column::Leaf(index)) {
                let i = choose|i: int| 0 <= i < old(self).nodes()[dependency].products().len()
                    && #[trigger] old(self).nodes()[dependency].products()[i].contains(Column::Leaf(index));
                crate::circuit::pruning::lemma_products_in_cols(old(self).nodes()[dependency], i);
            }
        }
        let leaf_col = match graph_node(&self.structure, dependency).get_leaf(index) {
            Some(c) => c,
            None => {
                proof { lemma_keeps_values_same(*self, dependency); }
                return;
            },
        };
        let rows = graph_node(&self.structure, dependency).minterms_containing_col(leaf_col);
        proof {
            let ac = self.nodes()[dependency];
            assert forall|i: int| 0 <= i < rows@.len() implies (#[trigger] rows@[i]) < ac.rows().len() by {
                assert(rows@.contains(rows@[i]));
            }
            lemma_sorted_below_len(rows@, ac.rows().len());
        }
        let n_nodes = graph_node_count(&self.structure);
        let n_edges = graph_edge_count(&self.structure);
        if n_nodes >= 0xffff_fffe || n_edges >= 0xffff_fffe || rows.len() >= 0xffff_fffe - n_nodes
            || rows.len() >= 0xffff_fffe - n_edges {
            proof { lemma_keeps_values_same(*self, dependency); }
            return;
        }
        proof {
            let ac = old(self).nodes()[dependency];
            ac.lemma_wf();
            ac.lemma_sizes();
            lemma_found_column(ac.cols(), Column::Leaf(index));
            assert forall|i: int| 0 <= i < rows@.len() implies #[trigger] rows@[i] < ac.rows().len() by {
                assert(rows@.contains(rows@[i]));
            }
        }
        let ghost s0 = *self;
        let ghost mut made: Map<int, u32> = Map::empty();
        let ghost mut done: Set<int> = Set::empty();
        proof {
            lemma_drop_progress_start(s0, dependency, index);
            assert(done =~= Set::new(|i: int| exists|q: int| 0 <= q < 0 && rows@[q] == i));
        }
        let mut k: usize = 0;
        while k < rows.len()
            invariant
                self.wf(),
                k <= rows@.len(),
                rows@.len() < 0xffff_fffe - n_nodes,
                rows@.len() < 0xffff_fffe - n_edges,
                self.nodes().dom().len() <= n_nodes + k,
                self.edges().dom().len() <= n_edges + k,
                self.nodes().contains_key(dependency),
                forall|i: int| 0 <= i < rows@.len() ==> #[trigger] rows@[i] < self.nodes()[dependency].rows().len(),
                leaf_col < self.nodes()[dependency].cols().len(),
                self.nodes()[dependency].cols()[leaf_col as int] == Column::Leaf(index),
                self.value_size == old(self).value_size,
                self.targets == old(self).targets,
                self.partitioning == old(self).partitioning,
                self.dependencies == old(self).dependencies,
                self.queue == old(self).queue,
                no_self_loops(old(self).edges()) ==> no_self_loops(self.edges()),
                old(self).nodes().dom().subset_of(self.nodes().dom()),
                forall|e: u32| #[trigger] self.edges().contains_key(e) ==> (old(self).edges().contains_key(e)
                    && self.edges()[e] == old(self).edges()[e]) || (self.edges()[e].0 == dependency
                    && !old(self).nodes().contains_key(self.edges()[e].1)),
                single_parents(old(self).edges()) ==> single_parents(self.edges()),
                forall|e: u32| #[trigger] old(self).edges().contains_key(e) ==> self.edges().contains_key(e)
                    && self.edges()[e] == old(self).edges()[e],
                forall|n: u32| #[trigger] old(self).nodes().contains_key(n) && n != dependency
                    && !(exists|e: u32| #[trigger] old(self).edges().contains_key(e) && old(self).edges()[e] == (dependency, n))
                    ==> self.nodes()[n] == old(self).nodes()[n],
                s0 == *old(self),
                s0.wf(),
                s0.nodes().contains_key(dependency),
                leaf_col < s0.nodes()[dependency].cols().len(),
                s0.nodes()[dependency].cols()[leaf_col as int] == Column::Leaf(index),
                crate::circuit::algebraic::strictly_sorted(rows@),
                forall|r: usize| #[trigger] rows@.contains(r) <==> (r < s0.nodes()[dependency].rows().len()
                    && s0.nodes()[dependency].rows()[r as int].contains(leaf_col)),
                done == Set::new(|i: int| exists|q: int| 0 <= q < k && rows@[q] == i),
                drop_ready(s0, dependency, index) ==> drop_progress(s0, *self, dependency, index, made, done),
                k > 0 && no_self_loops(old(self).edges()) ==> pushed_into_child(*self, dependency, index),
                forall|n: u32, v: Column| #[trigger] old(self).nodes().contains_key(n) && n != dependency
                    && #[trigger] old(self).nodes()[n].cols().contains(v) ==> self.nodes()[n].cols().contains(v),
            decreases rows@.len() - k,
        {
            let ghost mid = *self;
            self.handle_leaf_drop_for_product(index, dependency, rows[k]);
            proof {
                assert forall|n: u32, v: Column| #[trigger] old(self).nodes().contains_key(n) && n != dependency
                    && #[trigger] old(self).nodes()[n].cols().contains(v) implies self.nodes()[n].cols().contains(v) by {
                    assert(mid.nodes()[n].cols().contains(v));
                    let r = mid.nodes()[dependency].rows()[rows@[k as int] as int];
                    let c = mid.nodes()[dependency].cols();
                    if let Some(e) = first_memory(r, c) {
                        let child = mid.edges()[e].1;
                        if n == child {
                            let cc = mid.nodes()[child].cols();
                            if !cc.contains(Column::Leaf(index)) {
                                let q = choose|q: int| 0 <= q < cc.len() && cc[q] == v;
                                assert(cc.push(Column::Leaf(index))[q] == v);
                            }
                        }
                    } else {
                        assert(self.nodes().contains_key(n));
                    }
                }
                if no_self_loops(old(self).edges()) {
                    let r = mid.nodes()[dependency].rows()[rows@[k as int] as int];
                    let c = mid.nodes()[dependency].cols();
                    assert(no_self_loops(mid.edges()));
                    match first_memory(r, c) {
                        Some(e) => {
                            let child = mid.edges()[e].1;
                            assert(mid.edges().contains_key(e) && mid.edges()[e].0 == dependency);
                            assert(child != dependency);
                            assert(add_column(mid.nodes()[child].cols(), Column::Leaf(index)).contains(Column::Leaf(index))) by {
                                let cc = mid.nodes()[child].cols();
                                if !cc.contains(Column::Leaf(index)) {
                                    assert(cc.push(Column::Leaf(index))[cc.len() as int] == Column::Leaf(index));
                                }
                            }
                            assert(self.edges().contains_key(e) && self.edges()[e].0 == dependency && self.edges()[e].1 != dependency
                                && self.nodes()[self.edges()[e].1].cols().contains(Column::Leaf(index)));
                        },
                        None => {
                            let (m, e) = choose|m: u32, e: u32| {
                                &&& !mid.nodes().contains_key(m)
                                &&& !mid.edges().contains_key(e)
                                &&& self.nodes().dom() == mid.nodes().dom().insert(m)
                                &&& self.edges() == mid.edges().insert(e, (dependency, m))
                                &&& self.nodes()[m].cols() == seq![Column::Leaf(index)]
                                &&& self.nodes()[m].products() == seq![set![Column::Leaf(index)]]
                                &&& self.nodes()[dependency].cols() == mid.nodes()[dependency].cols().push(Column::Memory(e))
                                &&& self.nodes()[dependency].rows().len() == mid.nodes()[dependency].rows().len()
                                &&& forall|q: int| 0 <= q < mid.nodes()[dependency].rows().len() && q != rows@[k as int]
                                    ==> #[trigger] self.nodes()[dependency].rows()[q] == mid.nodes()[dependency].rows()[q]
                                &&& self.nodes()[dependency].rows()[rows@[k as int] as int].to_set()
                                    == mid.nodes()[dependency].rows()[rows@[k as int] as int].to_set().insert(mid.nodes()[dependency].cols().len() as usize)
                                &&& forall|x: u32| #[trigger] self.nodes().contains_key(x) && x != m && x != dependency
                                    ==> self.nodes()[x] == mid.nodes()[x]
                            };
                            assert(seq![Column::Leaf(index)][0] == Column::Leaf(index));
                            assert(self.edges().contains_key(e) && self.edges()[e].0 == dependency && self.edges()[e].1 != dependency
                                && self.nodes()[self.edges()[e].1].cols().contains(Column::Leaf(index)));
                        },
                    }
                }
            }
            proof {
                let rk = rows@[k as int];
                if drop_ready(s0, dependency, index) {
                    let sn = s0.nodes()[dependency];
                    assert(rows@.contains(rk));
                    assert(sn.products()[rk as int] == crate::circuit::algebraic::row_vars(sn.rows()[rk as int], sn.cols()));
                    assert(sn.rows()[rk as int].to_set().contains(leaf_col));
                    assert(sn.products()[rk as int].contains(Column::Leaf(index)));
                    assert(!done.contains(rk as int)) by {
                        if done.contains(rk as int) {
                            let q = choose|q: int| 0 <= q < k && rows@[q] == rk as int;
                        }
                    }
                    made = lemma_drop_step(s0, mid, *self, dependency, index, made, done, rk as int);
                }
                done = done.insert(rk as int);
                assert(done =~= Set::new(|i: int| exists|q: int| 0 <= q < k + 1 && rows@[q] == i));
            }
            proof {
                let r = mid.nodes()[dependency].rows()[rows@[k as int] as int];
                let c = mid.nodes()[dependency].cols();
                assert forall|n: u32| #[trigger] old(self).nodes().contains_key(n) && n != dependency
                    && !(exists|e: u32| #[trigger] old(self).edges().contains_key(e) && old(self).edges()[e] == (dependency, n))
                    implies self.nodes()[n] == old(self).nodes()[n] by {
                    assert(mid.nodes()[n] == old(self).nodes()[n]);
                    assert(mid.nodes().contains_key(n));
                    if let Some(e) = first_memory(r, c) {
                        let child = mid.edges()[e].1;
                        if n == child {
                            assert(mid.edges().contains_key(e));
                            assert(old(self).edges().contains_key(e) && old(self).edges()[e] == mid.edges()[e]);
                            assert(false);
                        }
                        assert(self.nodes().contains_key(n));
                    } else {
                        let (m, e) = choose|m: u32, e: u32| {
                            &&& !mid.nodes().contains_key(m)
                            &&& !mid.edges().contains_key(e)
                            &&& self.nodes().dom() == mid.nodes().dom().insert(m)
                            &&& self.edges() == mid.edges().insert(e, (dependency, m))
                            &&& self.nodes()[m].cols() == seq![Column::Leaf(index)]
                            &&& self.nodes()[m].products() == seq![set![Column::Leaf(index)]]
                            &&& self.nodes()[dependency].cols() == mid.nodes()[dependency].cols().push(Column::Memory(e))
                            &&& self.nodes()[dependency].rows().len() == mid.nodes()[dependency].rows().len()
                            &&& forall|q: int| 0 <= q < mid.nodes()[dependency].rows().len() && q != rows@[k as int]
                                ==> #[trigger] self.nodes()[dependency].rows()[q] == mid.nodes()[dependency].rows()[q]
                            &&& self.nodes()[dependency].rows()[rows@[k as int] as int].to_set()
                                == mid.nodes()[dependency].rows()[rows@[k as int] as int].to_set().insert(mid.nodes()[dependency].cols().len() as usize)
                            &&& forall|x: u32| #[trigger] self.nodes().contains_key(x) && x != m && x != dependency
                                ==> self.nodes()[x] == mid.nodes()[x]
                        };
                        assert(n != m);
                        assert(self.nodes().contains_key(n));
                    }
                }
            }
            k = k + 1;
        }
        let ghost t0 = *self;
        let placeholder = AlgebraicCircuit::new(self.value_size);
        let mut ac = self.swap_circuit(dependency, placeholder);
        let ghost before = ac;
        ac.remove_col(leaf_col);
        self.swap_circuit(dependency, ac);
        proof {
            let nodes = self.nodes();
            let edges = self.edges();
            assert(nodes =~= t0.nodes().insert(dependency, ac));
            before.lemma_wf();
            assert forall|e: u32| #[trigger] edges.contains_key(e) implies nodes[edges[e].0].cols().contains(Column::Memory(e)) by {
                if edges[e].0 == dependency {
                    lemma_remove_col_contains(before.cols(), leaf_col as int, Column::Memory(e));
                }
            }
            assert forall|n: u32, m: u32| nodes.contains_key(n) && #[trigger] nodes[n].cols().contains(Column::Memory(m))
                implies edges.contains_key(m) && edges[m].0 == n by {
                if n == dependency {
                    lemma_remove_col_contains(before.cols(), leaf_col as int, Column::Memory(m));
                }
            }
        }
        let ghost f0 = *self;
        proof {
            assert forall|n: u32, v: Column| #[trigger] old(self).nodes().contains_key(n) && n != dependency
                && #[trigger] old(self).nodes()[n].cols().contains(v) implies f0.nodes()[n].cols().contains(v) by {
                assert(t0.nodes()[n].cols().contains(v));
            }
            if k > 0 && no_self_loops(old(self).edges()) {
                let e = choose|e: u32| #[trigger] t0.edges().contains_key(e) && t0.edges()[e].0 == dependency
                    && t0.edges()[e].1 != dependency && t0.nodes()[t0.edges()[e].1].cols().contains(Column::Leaf(index));
                assert(f0.edges().contains_key(e) && f0.nodes()[f0.edges()[e].1] == t0.nodes()[t0.edges()[e].1]);
                assert(pushed_into_child(f0, dependency, index));
            }
            if exists|i: int| 0 <= i < old(self).nodes()[dependency].products().len()
                && #[trigger] old(self).nodes()[dependency].products()[i].contains(Column::Leaf(index)) {
                let i = choose|i: int| 0 <= i < old(self).nodes()[dependency].products().len()
                    && #[trigger] old(self).nodes()[dependency].products()[i].contains(Column::Leaf(index));
                let ac = old(self).nodes()[dependency];
                ac.lemma_wf();
                assert(crate::circuit::algebraic::row_ok(ac.rows()[i], ac.cols().len()));
                assert(ac.cols()[leaf_col as int] == Column::Leaf(index));
                crate::circuit::lift_values::lemma_row_vars_col(ac.rows()[i], ac.cols(), leaf_col);
                assert(rows@.contains(i as usize));
                assert(k > 0);
            }
            before.lemma_wf();
            lemma_remove_col_contains(before.cols(), leaf_col as int, Column::Leaf(index));
            assert(!f0.nodes()[dependency].cols().contains(Column::Leaf(index)));
            if drop_ready(s0, dependency, index) {
                let sn = s0.nodes()[dependency];
                let p = sn.products();
                assert forall|i: int| 0 <= i < p.len() && p[i].contains(Column::Leaf(index)) implies done.contains(i) by {
                    sn.lemma_wf();
                    assert(p[i] == crate::circuit::algebraic::row_vars(sn.rows()[i], sn.cols()));
                    let c = choose|c: usize| sn.rows()[i].to_set().contains(c) && sn.cols()[c as int] == Column::Leaf(index);
                    assert(crate::circuit::algebraic::row_ok(sn.rows()[i], sn.cols().len()));
                    let q0 = choose|q0: int| 0 <= q0 < sn.rows()[i].len() && sn.rows()[i][q0] == c;
                    assert(c == leaf_col);
                    assert(sn.rows()[i].contains(leaf_col));
                    assert(rows@.contains(i as usize));
                    let q = choose|q: int| 0 <= q < rows@.len() && rows@[q] == i as usize;
                }
                lemma_removal_keeps_minterms(s0, t0, dependency, index, made, done);
                let tq = t0.nodes()[dependency].products();
                assert(before == t0.nodes()[dependency]);
                assert(before.cols()[leaf_col as int] == Column::Leaf(index));
                let mapped = tq.map_values(|q: Set<Column>| q.remove(Column::Leaf(index)));
                assert(mapped =~= before.products().map_values(|q: Set<Column>| q.remove(before.cols()[leaf_col as int])));
                assert forall|i: int| 0 <= i < mapped.len() implies (|q: Set<Column>| q.len() > 0)(#[trigger] mapped[i]) by {
                    assert(tq[i].remove(Column::Leaf(index)).len() > 0);
                }
                crate::circuit::pruning::lemma_filter_all(mapped, |q: Set<Column>| q.len() > 0);
                assert(f0.nodes().dom() =~= t0.nodes().dom());
                assert(f0.nodes()[dependency].products() == mapped);
                assert(leaf_removed(t0, f0, dependency, index));
                lemma_drop_keeps_values(s0, t0, f0, dependency, index, made, done);
            }
        }
        let children = graph_edges_directed(&self.structure, dependency, false);
        let mut j: usize = 0;
        while j < children.len()
            invariant
                self.wf(),
                j <= children@.len(),
                self.value_size == old(self).value_size,
                self.targets == old(self).targets,
                self.partitioning == old(self).partitioning,
                self.dependencies == old(self).dependencies,
                no_self_loops(old(self).edges()) ==> no_self_loops(self.edges()),
                old(self).queue@.to_set().subset_of(self.queue@.to_set()),
                old(self).nodes().dom().subset_of(self.nodes().dom()),
                forall|e: u32| #[trigger] self.edges().contains_key(e) ==> (old(self).edges().contains_key(e)
                    && self.edges()[e] == old(self).edges()[e]) || (self.edges()[e].0 == dependency
                    && !old(self).nodes().contains_key(self.edges()[e].1)),
                single_parents(old(self).edges()) ==> single_parents(self.edges()),
                forall|e: u32| #[trigger] old(self).edges().contains_key(e) ==> self.edges().contains_key(e)
                    && self.edges()[e] == old(self).edges()[e],
                forall|n: u32| #[trigger] old(self).nodes().contains_key(n) && n != dependency
                    && !(exists|e: u32| #[trigger] old(self).edges().contains_key(e) && old(self).edges()[e] == (dependency, n))
                    ==> self.nodes()[n] == old(self).nodes()[n],
                self.structure == f0.structure,
                s0 == *old(self),
                drop_ready(s0, dependency, index) ==> keeps_values(s0, f0, dependency),
            decreases children@.len() - j,
        {
            self.enqueue(children[j].1);
            j = j + 1;
        }
        proof {
            if drop_ready(s0, dependency, index) {
                lemma_keeps_values_same_graph(s0, f0, *self, dependency);
            }
            if pushed_into_child(f0, dependency, index) {
                let e = choose|e: u32| #[trigger] f0.edges().contains_key(e) && f0.edges()[e].0 == dependency
                    && f0.edges()[e].1 != dependency && f0.nodes()[f0.edges()[e].1].cols().contains(Column::Leaf(index));
                assert(self.edges().contains_key(e));
            }
        }
    }
}

impl ReactiveCircuit {
    /// Moves every leaf to its layer in `partitioning` (the layer of each
    /// leaf, by index): on the first adaptation each leaf is dropped once per
    /// layer; afterwards a leaf whose layer grows is lifted, and one whose
    /// layer shrinks is dropped, once per layer of difference.
    /// A leaf whose layer stays the same is not moved.  The circuit goes
    /// through one stage per leaf (`adapted`), each reached from the one
    /// before by exactly those lifts or drops, each of them as `lift_step`
    /// or `drop_step` states it.
    pub fn adapt(&mut self, partitioning: Vec<usize>)
        requires
            old(self).wf(),
            no_self_loops(old(self).edges()),
            old(self).dependencies@.len() <= u32::MAX,
            partitioning@.len() <= old(self).dependencies@.len(),
        ensures
            final(self).wf(),
            no_self_loops(final(self).edges()),
            final(self).partitioning == partitioning,
            final(self).value_size == old(self).value_size,
            final(self).dependencies@.len() == old(self).dependencies@.len(),
            final(self).targets@.len() == old(self).targets@.len(),
            old(self).queue@.to_set().subset_of(final(self).queue@.to_set()),
            exists|stages: Seq<ReactiveCircuit>| #[trigger] adapted(stages, *old(self), *final(self), partitioning@),
    {
        let first = self.partitioning.len() == 0;
        let ghost mut stages: Seq<ReactiveCircuit> = seq![*old(self)];
        let mut index: usize = 0;
        while index < partitioning.len()
            invariant
                stages.len() == index + 1,
                stages[0] == *old(self),
                stages[index as int] == *self,
                forall|i: int| 0 <= i < index ==> repeated(#[trigger] stages[i], stages[i + 1], i as u32,
                    adapt_moves(old(self).partitioning@, partitioning@, i).0,
                    adapt_moves(old(self).partitioning@, partitioning@, i).1),
                self.wf(),
                no_self_loops(self.edges()),
                index <= partitioning@.len(),
                partitioning@.len() <= self.dependencies@.len(),
                self.dependencies@.len() == old(self).dependencies@.len(),
                self.dependencies@.len() <= u32::MAX,
                self.partitioning == old(self).partitioning,
                first == (old(self).partitioning@.len() == 0),
                self.value_size == old(self).value_size,
                self.targets@.len() == old(self).targets@.len(),
                old(self).queue@.to_set().subset_of(self.queue@.to_set()),
            decreases partitioning@.len() - index,
        {
            let leaf = index as u32;
            let target = partitioning[index];
            let ghost before = *self;
            if first {
                self.repeat_step(leaf, target, false);
            } else if index < self.partitioning.len() {
                let current = self.partitioning[index];
                if current < target {
                    self.repeat_step(leaf, target - current, true);
                } else {
                    self.repeat_step(leaf, current - target, false);
                }
            } else {
                proof {
                    let trace = seq![before];
                    assert(stepped(trace, leaf, false));
                }
            }
            proof {
                let moves = adapt_moves(old(self).partitioning@, partitioning@, index as int);
                assert(repeated(before, *self, leaf, moves.0, moves.1));
                let next = stages.push(*self);
                assert forall|i: int| 0 <= i < index + 1 implies repeated(#[trigger] next[i], next[i + 1], i as u32,
                    adapt_moves(old(self).partitioning@, partitioning@, i).0,
                    adapt_moves(old(self).partitioning@, partitioning@, i).1) by {
                    if i < index {
                        assert(next[i] == stages[i] && next[i + 1] == stages[i + 1]);
                    }
                }
                stages = next;
            }
            index = index + 1;
        }
        self.partitioning = partitioning;
        proof {
            assert(adapted(stages, *old(self), *self, partitioning@));
        }
    }

    /// Lifts (`lift`) or drops leaf `leaf` `times` times.  Nothing changes
    /// when `times` is zero; otherwise the dependencies are recomputed, a
    /// drop keeps the targets, and a single step keeps the values that
    /// `drop_leaf` or `lift_leaf` keeps.
    fn repeat_step(&mut self, leaf: u32, times: usize, lift: bool)
        requires
            old(self).wf(),
            no_self_loops(old(self).edges()),
            leaf < old(self).dependencies@.len(),
            old(self).dependencies@.len() <= u32::MAX,
        ensures
            final(self).wf(),
            no_self_loops(final(self).edges()),
            final(self).partitioning == old(self).partitioning,
            final(self).value_size == old(self).value_size,
            final(self).dependencies@.len() == old(self).dependencies@.len(),
            final(self).targets@.len() == old(self).targets@.len(),
            old(self).queue@.to_set().subset_of(final(self).queue@.to_set()),
            times == 0 ==> *final(self) == *old(self),
            times > 0 ==> forall|l: int| 0 <= l < final(self).dependencies@.len() ==> (#[trigger] final(self).dependencies@[l])@.to_set()
                == leaf_dependents(final(self).nodes(), final(self).edges(), l as u32),
            !lift ==> final(self).targets == old(self).targets,
            times == 1 && !lift && leaf_drop_ready(*old(self), leaf, old(self).dependencies@[leaf as int]@)
                ==> keeps_unheld_values(*old(self), *final(self), leaf),
            times == 1 && lift && crate::circuit::lift_values::lift_leaf_ready(*old(self), leaf,
                old(self).dependencies@[leaf as int]@)
                ==> crate::circuit::lift_values::keeps_common_values(*old(self), *final(self)),
            repeated(*old(self), *final(self), leaf, times as nat, lift),
    {
        let ghost mut trace: Seq<ReactiveCircuit> = seq![*old(self)];
        let mut k: usize = 0;
        while k < times
            invariant
                self.wf(),
                no_self_loops(self.edges()),
                leaf < self.dependencies@.len(),
                self.dependencies@.len() == old(self).dependencies@.len(),
                self.dependencies@.len() <= u32::MAX,
                self.partitioning == old(self).partitioning,
                self.value_size == old(self).value_size,
                self.targets@.len() == old(self).targets@.len(),
                old(self).queue@.to_set().subset_of(self.queue@.to_set()),
                k <= times,
                k == 0 ==> *self == *old(self),
                k > 0 ==> forall|l: int| 0 <= l < self.dependencies@.len() ==> (#[trigger] self.dependencies@[l])@.to_set()
                    == leaf_dependents(self.nodes(), self.edges(), l as u32),
                !lift ==> self.targets == old(self).targets,
                k == 1 && !lift && leaf_drop_ready(*old(self), leaf, old(self).dependencies@[leaf as int]@)
                    ==> keeps_unheld_values(*old(self), *self, leaf),
                k == 1 && lift && crate::circuit::lift_values::lift_leaf_ready(*old(self), leaf,
                    old(self).dependencies@[leaf as int]@)
                    ==> crate::circuit::lift_values::keeps_common_values(*old(self), *self),
                trace.len() == k + 1,
                trace[0] == *old(self),
                trace[k as int] == *self,
                stepped(trace, leaf, lift),
            decreases times - k,
        {
            let ghost before = *self;
            if lift {
                self.lift_leaf(leaf);
            } else {
                self.drop_leaf(leaf);
            }
            proof {
                assert(leaf_step(before, *self, leaf, lift));
                let next = trace.push(*self);
                assert forall|j: int| 0 <= j < next.len() - 1 implies #[trigger] leaf_step(next[j], next[j + 1], leaf, lift) by {
                    if j < k {
                        assert(next[j] == trace[j] && next[j + 1] == trace[j + 1]);
                        assert(leaf_step(trace[j], trace[j + 1], leaf, lift));
                    }
                }
                trace = next;
            }
            k = k + 1;
        }
        proof {
            assert(stepped(trace, leaf, lift));
        }
    }
}

/// A strictly increasing list of values below `n` has at most `n` entries.
proof fn lemma_sorted_below_len(s: Seq<usize>, n: nat)
    requires
        crate::circuit::algebraic::strictly_sorted(s),
        forall|i: int| 0 <= i < s.len() ==> (#[trigger] s[i]) < n,
    ensures
        s.len() <= n,
{
    if s.len() > 0 {
        assert forall|i: int| 0 <= i < s.len() implies (#[trigger] s[i]) >= i by {
            lemma_sorted_at_least(s, i);
        }
        assert(s[s.len() - 1] >= s.len() - 1);
    }
}

proof fn lemma_sorted_at_least(s: Seq<usize>, i: int)
    requires
        crate::circuit::algebraic::strictly_sorted(s),
        0 <= i < s.len(),
    ensures
        s[i] >= i,
    decreases i,
{
    if i > 0 {
        lemma_sorted_at_least(s, i - 1);
        assert(s[i - 1] < s[i]);
    }
}

/// What `drop_from_node` gives of its step from `c` to `f` at node `d`.
pub open spec fn dropped_at(c: ReactiveCircuit, f: ReactiveCircuit, d: u32, x: u32) -> bool {
    &&& c.nodes().dom().subset_of(f.nodes().dom())
    &&& forall|e: u32| #[trigger] c.edges().contains_key(e) ==> f.edges().contains_key(e) && f.edges()[e] == c.edges()[e]
    &&& forall|e: u32| #[trigger] f.edges().contains_key(e) ==> (c.edges().contains_key(e) && f.edges()[e] == c.edges()[e])
        || (f.edges()[e].0 == d && !c.nodes().contains_key(f.edges()[e].1))
    &&& forall|n: u32| #[trigger] c.nodes().contains_key(n) && n != d
        && !(exists|e: u32| #[trigger] c.edges().contains_key(e) && c.edges()[e] == (d, n))
        ==> f.nodes()[n] == c.nodes()[n]
    &&& !graph_full(c, c.nodes()[d].rows().len()) ==> !f.nodes()[d].cols().contains(Column::Leaf(x))
    &&& !graph_full(c, c.nodes()[d].rows().len()) && no_self_loops(c.edges())
        && (exists|i: int| 0 <= i < c.nodes()[d].products().len()
            && #[trigger] c.nodes()[d].products()[i].contains(Column::Leaf(x)))
        ==> pushed_into_child(f, d, x)
    &&& forall|n: u32, v: Column| #[trigger] c.nodes().contains_key(n) && n != d
        && #[trigger] c.nodes()[n].cols().contains(v) ==> f.nodes()[n].cols().contains(v)
}

/// One step of `drop_leaf`, at position `k` of the listed nodes, keeps its
/// loop's account of the nodes it must clear.
proof fn lemma_drop_leaf_step(o: ReactiveCircuit, c: ReactiveCircuit, f: ReactiveCircuit, listed: Seq<u32>, k: int, x: u32)
    requires
        o.wf(),
        c.wf(),
        f.wf(),
        crate::circuit::reactive::increasing(listed),
        0 <= k < listed.len(),
        o.nodes().dom().subset_of(c.nodes().dom()),
        forall|e: u32| #[trigger] c.edges().contains_key(e) ==> (o.edges().contains_key(e)
            && c.edges()[e] == o.edges()[e]) || !o.nodes().contains_key(c.edges()[e].1),
        forall|e: u32| #[trigger] o.edges().contains_key(e) ==> c.edges().contains_key(e) && c.edges()[e] == o.edges()[e],
        no_self_loops(o.edges()) ==> no_self_loops(c.edges()),
        forall|q: int| k <= q < listed.len() && o.nodes().contains_key(#[trigger] listed[q])
            && !(exists|e: u32| #[trigger] o.edges().contains_key(e) && o.edges()[e].1 == listed[q]
                && listed.contains(o.edges()[e].0))
            ==> c.nodes()[listed[q]] == o.nodes()[listed[q]],
        forall|q: int| 0 <= q < k && drop_target(o, listed, #[trigger] listed[q], x)
            ==> !crate::circuit::semantics::holds_leaf(c, listed[q], x) || graph_full(c, o.nodes()[listed[q]].rows().len()),
        forall|q: int| 0 <= q < k && drop_push_target(o, listed, #[trigger] listed[q], x)
            ==> pushed_outside(c, listed[q], x, listed) || graph_full(c, o.nodes()[listed[q]].rows().len()),
        c.nodes().contains_key(listed[k]) ==> dropped_at(c, f, listed[k], x),
        !c.nodes().contains_key(listed[k]) ==> f == c,
    ensures
        forall|q: int| k + 1 <= q < listed.len() && o.nodes().contains_key(#[trigger] listed[q])
            && !(exists|e: u32| #[trigger] o.edges().contains_key(e) && o.edges()[e].1 == listed[q]
                && listed.contains(o.edges()[e].0))
            ==> f.nodes()[listed[q]] == o.nodes()[listed[q]],
        forall|q: int| 0 <= q < k + 1 && drop_target(o, listed, #[trigger] listed[q], x)
            ==> !crate::circuit::semantics::holds_leaf(f, listed[q], x) || graph_full(f, o.nodes()[listed[q]].rows().len()),
        forall|q: int| 0 <= q < k + 1 && drop_push_target(o, listed, #[trigger] listed[q], x)
            ==> pushed_outside(f, listed[q], x, listed) || graph_full(f, o.nodes()[listed[q]].rows().len()),
{
    let d = listed[k];
    if !c.nodes().contains_key(d) {
        assert forall|q: int| 0 <= q < k + 1 && drop_target(o, listed, #[trigger] listed[q], x)
            implies !crate::circuit::semantics::holds_leaf(f, listed[q], x) || graph_full(f, o.nodes()[listed[q]].rows().len()) by {
            if q == k {
                assert(o.nodes().contains_key(d));
            }
        }
        assert forall|q: int| 0 <= q < k + 1 && drop_push_target(o, listed, #[trigger] listed[q], x)
            implies pushed_outside(f, listed[q], x, listed) || graph_full(f, o.nodes()[listed[q]].rows().len()) by {
            if q == k {
                assert(o.nodes().contains_key(d));
            }
        }
        return;
    }
    assert(dropped_at(c, f, d, x));
    vstd::set_lib::lemma_len_subset(c.nodes().dom(), f.nodes().dom());
    assert(c.edges().dom().subset_of(f.edges().dom()));
    vstd::set_lib::lemma_len_subset(c.edges().dom(), f.edges().dom());
    assert(forall|r: nat| #[trigger] graph_full(c, r) ==> graph_full(f, r));
    // a node of `o` that has no listed parent is no child of `d` in `c`
    assert forall|t: u32| #[trigger] o.nodes().contains_key(t) && listed.contains(d)
        && !(exists|e: u32| #[trigger] o.edges().contains_key(e) && o.edges()[e].1 == t && listed.contains(o.edges()[e].0))
        implies !(exists|e: u32| #[trigger] c.edges().contains_key(e) && c.edges()[e] == (d, t)) by {
        if exists|e: u32| #[trigger] c.edges().contains_key(e) && c.edges()[e] == (d, t) {
            let e = choose|e: u32| #[trigger] c.edges().contains_key(e) && c.edges()[e] == (d, t);
            assert(o.edges().contains_key(e) && o.edges()[e] == (d, t));
        }
    }
    assert(listed.contains(d)) by { assert(listed[k] == d); }
    assert forall|q: int| k + 1 <= q < listed.len() && o.nodes().contains_key(#[trigger] listed[q])
        && !(exists|e: u32| #[trigger] o.edges().contains_key(e) && o.edges()[e].1 == listed[q]
            && listed.contains(o.edges()[e].0))
        implies f.nodes()[listed[q]] == o.nodes()[listed[q]] by {
        assert(listed[k] < listed[q]);
    }
    assert forall|q: int| 0 <= q < k + 1 && drop_target(o, listed, #[trigger] listed[q], x)
        implies !crate::circuit::semantics::holds_leaf(f, listed[q], x) || graph_full(f, o.nodes()[listed[q]].rows().len()) by {
        let t = listed[q];
        if q < k {
            assert(listed[q] < listed[k]);
            if !graph_full(c, o.nodes()[t].rows().len()) {
                assert(f.nodes()[t] == c.nodes()[t]);
            }
        } else {
            assert(c.nodes()[d] == o.nodes()[d]);
        }
    }
    assert forall|q: int| 0 <= q < k + 1 && drop_push_target(o, listed, #[trigger] listed[q], x)
        implies pushed_outside(f, listed[q], x, listed) || graph_full(f, o.nodes()[listed[q]].rows().len()) by {
        let t = listed[q];
        if q < k {
            if !graph_full(c, o.nodes()[t].rows().len()) {
                let e = choose|e: u32| #[trigger] c.edges().contains_key(e) && c.edges()[e].0 == t && c.edges()[e].1 != t
                    && c.nodes()[c.edges()[e].1].cols().contains(Column::Leaf(x)) && !listed.contains(c.edges()[e].1);
                let u = c.edges()[e].1;
                assert(c.nodes().contains_key(u));
                assert(u != d);
                assert(f.edges().contains_key(e) && f.edges()[e] == c.edges()[e]);
                assert(f.nodes()[u].cols().contains(Column::Leaf(x)));
            }
        } else {
            assert(c.nodes()[d] == o.nodes()[d]);
            if !graph_full(f, o.nodes()[t].rows().len()) {
                assert(!graph_full(c, o.nodes()[t].rows().len()));
                assert(no_self_loops(c.edges()));
                assert(pushed_into_child(f, d, x));
                let e = choose|e: u32| #[trigger] f.edges().contains_key(e) && f.edges()[e].0 == d && f.edges()[e].1 != d
                    && f.nodes()[f.edges()[e].1].cols().contains(Column::Leaf(x));
                let u = f.edges()[e].1;
                if listed.contains(u) {
                    let i = choose|i: int| 0 <= i < listed.len() && listed[i] == u;
                    assert(o.nodes().contains_key(listed[i]));
                    assert(c.nodes().contains_key(u));
                    assert(c.edges().contains_key(e) && c.edges()[e] == f.edges()[e]);
                    assert(o.edges().contains_key(e) && o.edges()[e] == (d, u));
                }
            }
        }
    }
}

/// What a call of `drop_leaf` for leaf `x` promises of the circuit `after`
/// that it leaves, given the circuit `before` that it was called on.
pub open spec fn drop_step(before: ReactiveCircuit, after: ReactiveCircuit, x: u32) -> bool {
    let listed = before.dependencies@[x as int]@;
    &&& after.wf()
    &&& after.value_size == before.value_size
    &&& after.targets == before.targets
    &&& after.partitioning == before.partitioning
    &&& no_self_loops(before.edges()) ==> no_self_loops(after.edges())
    &&& after.dependencies@.len() == before.dependencies@.len()
    &&& forall|l: int| 0 <= l < after.dependencies@.len() ==> (#[trigger] after.dependencies@[l])@.to_set()
        == leaf_dependents(after.nodes(), after.edges(), l as u32)
    &&& before.nodes().dom().subset_of(after.nodes().dom())
    &&& leaf_drop_ready(before, x, listed) ==> keeps_unheld_values(before, after, x)
    &&& leaf_drop_ready(before, x, listed) ==> forall|i: int| 0 <= i < before.target_list().len()
        && before.nodes().contains_key(before.target_list()[i].1)
        && !crate::circuit::semantics::below_holder(before, #[trigger] before.target_list()[i].1, x)
        ==> crate::circuit::lift_values::target_value_kept(before, after, i)
    &&& forall|n: u32| #[trigger] drop_target(before, listed, n, x)
        ==> !crate::circuit::semantics::holds_leaf(after, n, x) || graph_full(after, before.nodes()[n].rows().len())
    &&& forall|n: u32| #[trigger] drop_push_target(before, listed, n, x)
        ==> pushed_outside(after, n, x, listed) || graph_full(after, before.nodes()[n].rows().len())
    &&& exists|trace: Seq<ReactiveCircuit>| #[trigger] dropped_along(trace, before, after, listed, x)
}

/// What a call of `lift_leaf` for leaf `x` promises of the circuit `after`
/// that it leaves, given the circuit `before` that it was called on.
pub open spec fn lift_step(before: ReactiveCircuit, after: ReactiveCircuit, x: u32) -> bool {
    let listed = before.dependencies@[x as int]@;
    &&& after.wf()
    &&& no_self_loops(after.edges())
    &&& after.value_size == before.value_size
    &&& after.partitioning == before.partitioning
    &&& after.targets@.len() == before.targets@.len()
    &&& crate::circuit::lift_values::target_tokens(after) == crate::circuit::lift_values::target_tokens(before)
    &&& after.dependencies@.len() == before.dependencies@.len()
    &&& forall|l: int| 0 <= l < after.dependencies@.len() ==> (#[trigger] after.dependencies@[l])@.to_set()
        == leaf_dependents(after.nodes(), after.edges(), l as u32)
    &&& forall|n: u32| #[trigger] before.nodes().contains_key(n) && !listed.contains(n) ==> after.nodes().contains_key(n)
    &&& crate::circuit::lift_values::lift_leaf_ready(before, x, listed)
        ==> crate::circuit::lift_values::keeps_common_values(before, after)
    &&& crate::circuit::lift_values::lift_leaf_ready(before, x, listed) ==> forall|i: int|
        0 <= i < before.target_list().len() && #[trigger] crate::circuit::lift_values::target_liftable(before, i, x)
        ==> crate::circuit::lift_values::target_value_kept(before, after, i)
    &&& listed.len() == 1 && crate::circuit::lift_values::lift_room(before, listed[0])
        && crate::circuit::lift_values::minterm_holds(before, listed[0], x)
        ==> !after.nodes().contains_key(listed[0])
    &&& crate::circuit::lift_values::lift_leaf_ready(before, x, listed) ==> forall|q: int| 0 <= q < listed.len()
        && crate::circuit::lift_values::lift_room(before, #[trigger] listed[q])
        && crate::circuit::lift_values::minterm_holds(before, listed[q], x) ==> !after.nodes().contains_key(listed[q])
    &&& crate::circuit::lift_values::lift_leaf_ready(before, x, listed) ==> forall|q: int| 0 <= q < listed.len()
        && crate::circuit::lift_values::lift_room(before, #[trigger] listed[q])
        && crate::circuit::lift_values::minterm_holds(before, listed[q], x)
        ==> crate::circuit::lifting::lifted_into_parents(before, after, listed[q], x)
    &&& exists|trace: Seq<ReactiveCircuit>| #[trigger] crate::circuit::lifting::lifted_along(trace, before, after, listed, x)
}

/// A lift (`lift`) or a drop of leaf `x`, as `lift_step` or `drop_step` states it.
pub open spec fn leaf_step(before: ReactiveCircuit, after: ReactiveCircuit, x: u32, lift: bool) -> bool {
    if lift { lift_step(before, after, x) } else { drop_step(before, after, x) }
}

/// Whether each circuit of `trace` follows from the one before it by a lift
/// (`lift`) or a drop of leaf `x`.
pub open spec fn stepped(trace: Seq<ReactiveCircuit>, x: u32, lift: bool) -> bool {
    forall|j: int| 0 <= j < trace.len() - 1 ==> #[trigger] leaf_step(trace[j], trace[j + 1], x, lift)
}

/// Whether `to` follows from `from` by `times` lifts (`lift`) or drops of leaf `x`.
pub open spec fn repeated(from: ReactiveCircuit, to: ReactiveCircuit, x: u32, times: nat, lift: bool) -> bool {
    exists|trace: Seq<ReactiveCircuit>| #[trigger] stepped(trace, x, lift) && trace.len() == times + 1
        && trace[0] == from && trace[times as int] == to
}

/// How often, and whether by lifts, `adapt` moves leaf `i` when the layers
/// change from `current` to `wanted`: on the first adaptation (no current
/// layers) it drops the leaf `wanted[i]` times; afterwards it lifts the leaf
/// once for each layer it rises and drops it once for each layer it falls,
/// and it leaves the leaves without a current layer alone.
pub open spec fn adapt_moves(current: Seq<usize>, wanted: Seq<usize>, i: int) -> (nat, bool) {
    if current.len() == 0 {
        (wanted[i] as nat, false)
    } else if i < current.len() {
        if current[i] < wanted[i] {
            ((wanted[i] - current[i]) as nat, true)
        } else {
            ((current[i] - wanted[i]) as nat, false)
        }
    } else {
        (0, false)
    }
}

/// Whether `stages` runs from `before` to `after` as `adapt` does for the
/// layers `wanted`: stage `i + 1` follows from stage `i` by the moves of
/// leaf `i`, and `after` is the last stage with `wanted` as its layers.
pub open spec fn adapted(stages: Seq<ReactiveCircuit>, before: ReactiveCircuit, after: ReactiveCircuit, wanted: Seq<usize>) -> bool {
    let last = stages[wanted.len() as int];
    &&& stages.len() == wanted.len() + 1
    &&& stages[0] == before
    &&& forall|i: int| 0 <= i < wanted.len() ==> repeated(#[trigger] stages[i], stages[i + 1], i as u32,
        adapt_moves(before.partitioning@, wanted, i).0, adapt_moves(before.partitioning@, wanted, i).1)
    &&& after.structure == last.structure
    &&& after.value_size == last.value_size
    &&& after.dependencies == last.dependencies
    &&& after.queue == last.queue
    &&& after.targets == last.targets
    &&& after.partitioning@ == wanted
}

/// Along a run of steps of one leaf, every circuit has the target tokens of
/// the first; along a run of drops, its very targets.
proof fn lemma_stepped_targets(trace: Seq<ReactiveCircuit>, x: u32, lift: bool, j: int)
    requires
        stepped(trace, x, lift),
        0 <= j < trace.len(),
    ensures
        crate::circuit::lift_values::target_tokens(trace[j]) == crate::circuit::lift_values::target_tokens(trace[0]),
        !lift ==> trace[j].targets == trace[0].targets,
    decreases j,
{
    if j > 0 {
        lemma_stepped_targets(trace, x, lift, j - 1);
        let k = j - 1;
        assert(leaf_step(trace[k], trace[k + 1], x, lift));
        assert(trace[k + 1] == trace[j]);
    }
}

proof fn lemma_repeated_targets(from: ReactiveCircuit, to: ReactiveCircuit, x: u32, times: nat, lift: bool)
    requires
        repeated(from, to, x, times, lift),
    ensures
        crate::circuit::lift_values::target_tokens(to) == crate::circuit::lift_values::target_tokens(from),
        !lift ==> to.targets == from.targets,
{
    let trace = choose|trace: Seq<ReactiveCircuit>| #[trigger] stepped(trace, x, lift) && trace.len() == times + 1
        && trace[0] == from && trace[times as int] == to;
    lemma_stepped_targets(trace, x, lift, times as int);
}

/// Dropping a leaf any number of times keeps the targets.
pub proof fn law_drops_keep_targets(from: ReactiveCircuit, to: ReactiveCircuit, x: u32, times: nat)
    requires
        repeated(from, to, x, times, false),
    ensures
        to.targets == from.targets,
{
    lemma_repeated_targets(from, to, x, times, false);
}

proof fn lemma_stages_targets(stages: Seq<ReactiveCircuit>, before: ReactiveCircuit, after: ReactiveCircuit,
    wanted: Seq<usize>, i: int)
    requires
        adapted(stages, before, after, wanted),
        0 <= i <= wanted.len(),
    ensures
        crate::circuit::lift_values::target_tokens(stages[i]) == crate::circuit::lift_values::target_tokens(before),
        before.partitioning@.len() == 0 ==> stages[i].targets == before.targets,
    decreases i,
{
    if i > 0 {
        lemma_stages_targets(stages, before, after, wanted, i - 1);
        let moves = adapt_moves(before.partitioning@, wanted, i - 1);
        assert(repeated(stages[i - 1], stages[i], (i - 1) as u32, moves.0, moves.1));
        lemma_repeated_targets(stages[i - 1], stages[i], (i - 1) as u32, moves.0, moves.1);
    }
}

/// An adaptation keeps the tokens of the targets, in order.
pub proof fn law_adaptation_keeps_target_tokens(stages: Seq<ReactiveCircuit>, before: ReactiveCircuit,
    after: ReactiveCircuit, wanted: Seq<usize>)
    requires
        adapted(stages, before, after, wanted),
    ensures
        crate::circuit::lift_values::target_tokens(after) == crate::circuit::lift_values::target_tokens(before),
{
    lemma_stages_targets(stages, before, after, wanted, wanted.len() as int);
    assert(after.target_list() == stages[wanted.len() as int].target_list());
}

/// The first adaptation only drops leaves, and so keeps the targets.
pub proof fn law_first_adaptation_keeps_targets(stages: Seq<ReactiveCircuit>, before: ReactiveCircuit,
    after: ReactiveCircuit, wanted: Seq<usize>)
    requires
        adapted(stages, before, after, wanted),
        before.partitioning@.len() == 0,
    ensures
        after.targets == before.targets,
{
    lemma_stages_targets(stages, before, after, wanted, wanted.len() as int);
}

/// A drop from node `d`, which adds edges only from `d` to new nodes, keeps
/// the graph rankable: the new nodes go below every old one.
pub proof fn lemma_drop_rankable(c: ReactiveCircuit, f: ReactiveCircuit, d: u32, x: u32)
    requires
        c.wf(),
        c.nodes().contains_key(d),
        node_dropped(c, f, d, x),
        crate::circuit::lift_values::rankable(c.edges()),
    ensures
        crate::circuit::lift_values::rankable(f.edges()),
{
    let r = choose|r: Map<u32, nat>| #[trigger] crate::circuit::semantics::ranked(c.edges(), r);
    let r2 = Map::new(|m: u32| true, |m: u32| if c.nodes().contains_key(m) { r[m] + 1 } else { 0 });
    assert forall|e: u32| #[trigger] f.edges().contains_key(e) implies r2[f.edges()[e].1] < r2[f.edges()[e].0] by {
        if c.edges().contains_key(e) && f.edges()[e] == c.edges()[e] {
            assert(c.nodes().contains_key(c.edges()[e].0) && c.nodes().contains_key(c.edges()[e].1));
        }
    }
    assert(crate::circuit::semantics::ranked(f.edges(), r2));
}

/// Whether every drop along `trace` that moves leaf `x` is ready
/// (`drop_ready`) and starts from a node of which the node of target `i`
/// is no child, in the circuit it starts from.
pub open spec fn drops_ready_for(trace: Seq<ReactiveCircuit>, listed: Seq<u32>, x: u32, i: int) -> bool {
    forall|k: int| 0 <= k < listed.len() && #[trigger] crate::circuit::semantics::holds_leaf(trace[k], listed[k], x)
        ==> drop_ready(trace[k], listed[k], x)
            && !(exists|e: u32| #[trigger] trace[k].edges().contains_key(e)
                && trace[k].edges()[e] == (listed[k], trace[k].target_list()[i].1))
}

proof fn lemma_drops_keep_target(trace: Seq<ReactiveCircuit>, listed: Seq<u32>, x: u32, i: int, k: int)
    requires
        trace.len() == listed.len() + 1,
        forall|j: int| 0 <= j < listed.len() ==> #[trigger] listed_drop(trace[j], trace[j + 1], listed[j], x),
        drops_ready_for(trace, listed, x, i),
        trace[0].wf(),
        crate::circuit::lift_values::rankable(trace[0].edges()),
        0 <= i < trace[0].target_list().len(),
        trace[0].nodes().contains_key(trace[0].target_list()[i].1),
        0 <= k <= listed.len(),
    ensures
        crate::circuit::lift_values::target_value_kept(trace[0], trace[k], i),
        crate::circuit::lift_values::rankable(trace[k].edges()),
        trace[k].targets == trace[0].targets,
        trace[k].wf(),
    decreases k,
{
    if k == 0 {
        crate::circuit::lift_values::lemma_targets_same(trace[0], trace[0]);
    } else {
        let j = k - 1;
        lemma_drops_keep_target(trace, listed, x, i, j);
        assert(listed_drop(trace[j], trace[j + 1], listed[j], x));
        assert(trace[j + 1] == trace[k]);
        let c = trace[j];
        let f = trace[k];
        let d = listed[j];
        if c.nodes().contains_key(d) {
            lemma_drop_rankable(c, f, d, x);
            if c.nodes()[d].cols().contains(Column::Leaf(x)) {
                assert(crate::circuit::semantics::holds_leaf(c, d, x));
                assert(drop_ready(c, d, x));
                assert(keeps_values(c, f, d));
                let m = c.target_list()[i].1;
                assert(f.target_list() == c.target_list());
                assert(c.nodes().contains_key(m));
                assert(f.nodes().contains_key(m));
                assert(!(exists|e: u32| #[trigger] c.edges().contains_key(e) && c.edges()[e] == (d, m)));
                assert forall|r: Map<u32, nat>, r2: Map<u32, nat>, val: spec_fn(u32) -> int|
                    crate::circuit::semantics::ranked(c.edges(), r) && crate::circuit::semantics::ranked(f.edges(), r2)
                    implies #[trigger] f.value(r2, val, m) == #[trigger] c.value(r, val, m) by {
                }
                assert(crate::circuit::lift_values::target_value_kept(c, f, i));
                crate::circuit::lift_values::lemma_target_kept_trans(trace[0], c, f, i);
            }
        }
    }
}

/// Dropping a leaf keeps the value of a target whenever each drop on the
/// way is ready for it (`drops_ready_for`), on a circuit that can be ranked.
pub proof fn law_ready_drops_keep_target(trace: Seq<ReactiveCircuit>, before: ReactiveCircuit, after: ReactiveCircuit,
    listed: Seq<u32>, x: u32, i: int)
    requires
        dropped_along(trace, before, after, listed, x),
        drops_ready_for(trace, listed, x, i),
        before.wf(),
        crate::circuit::lift_values::rankable(before.edges()),
        0 <= i < before.target_list().len(),
        before.nodes().contains_key(before.target_list()[i].1),
    ensures
        crate::circuit::lift_values::target_value_kept(before, after, i),
{
    lemma_drops_keep_target(trace, listed, x, i, listed.len() as int);
    let last = trace[listed.len() as int];
    assert(after.nodes() == last.nodes() && after.edges() == last.edges());
    assert(after.target_list() == last.target_list());
    let n = before.target_list()[i].1;
    let m = after.target_list()[i].1;
    assert forall|r: Map<u32, nat>, r2: Map<u32, nat>, val: spec_fn(u32) -> int|
        crate::circuit::semantics::ranked(before.edges(), r) && crate::circuit::semantics::ranked(after.edges(), r2)
        implies #[trigger] after.value(r2, val, m) == #[trigger] before.value(r, val, n) by {
        assert(after.value(r2, val, m) == last.value(r2, val, m));
        assert(last.value(r2, val, m) == before.value(r, val, n));
    }
}

/// Zero steps leave the circuit as it is.
proof fn lemma_repeated_zero(from: ReactiveCircuit, to: ReactiveCircuit, x: u32, lift: bool)
    requires
        repeated(from, to, x, 0, lift),
    ensures
        to == from,
{
    let trace = choose|trace: Seq<ReactiveCircuit>| #[trigger] stepped(trace, x, lift) && trace.len() == 0 + 1
        && trace[0] == from && trace[0] == to;
}

/// The steps of `repeated`, lift by lift or drop by drop.
proof fn lemma_repeated_steps(from: ReactiveCircuit, to: ReactiveCircuit, x: u32, times: nat, lift: bool)
    requires
        repeated(from, to, x, times, lift),
    ensures
        lift ==> exists|trace: Seq<ReactiveCircuit>| trace.len() == times + 1 && trace[0] == from
            && trace[times as int] == to
            && forall|j: int| 0 <= j < times ==> #[trigger] lift_step(trace[j], trace[j + 1], x),
        !lift ==> exists|trace: Seq<ReactiveCircuit>| trace.len() == times + 1 && trace[0] == from
            && trace[times as int] == to
            && forall|j: int| 0 <= j < times ==> #[trigger] drop_step(trace[j], trace[j + 1], x),
{
    let trace = choose|trace: Seq<ReactiveCircuit>| #[trigger] stepped(trace, x, lift) && trace.len() == times + 1
        && trace[0] == from && trace[times as int] == to;
    assert forall|j: int| 0 <= j < times implies #[trigger] leaf_step(trace[j], trace[j + 1], x, lift) by {}
    if lift {
        assert forall|j: int| 0 <= j < times implies #[trigger] lift_step(trace[j], trace[j + 1], x) by {
            assert(leaf_step(trace[j], trace[j + 1], x, lift));
        }
    } else {
        assert forall|j: int| 0 <= j < times implies #[trigger] drop_step(trace[j], trace[j + 1], x) by {
            assert(leaf_step(trace[j], trace[j + 1], x, lift));
        }
    }
}

/// How `adapt` moves leaf `i`: on the first adaptation (no layers yet) it
/// drops the leaf once per layer of its wanted layer; afterwards a leaf
/// whose layer rises is lifted (`lift_step`), once per layer it rises, one
/// whose layer falls is dropped (`drop_step`), once per layer it falls, and
/// a leaf whose layer stays, or that had no layer, is left where it is.
pub proof fn law_adapt_moves_by_layer(stages: Seq<ReactiveCircuit>, before: ReactiveCircuit, after: ReactiveCircuit,
    wanted: Seq<usize>, i: int)
    requires
        adapted(stages, before, after, wanted),
        0 <= i < wanted.len(),
    ensures
        before.partitioning@.len() == 0 ==> exists|trace: Seq<ReactiveCircuit>| trace.len() == wanted[i] + 1
            && trace[0] == stages[i] && trace[wanted[i] as int] == stages[i + 1]
            && forall|j: int| 0 <= j < wanted[i] ==> #[trigger] drop_step(trace[j], trace[j + 1], i as u32),
        i < before.partitioning@.len() && before.partitioning@[i] < wanted[i] ==> exists|trace: Seq<ReactiveCircuit>|
            trace.len() == wanted[i] - before.partitioning@[i] + 1 && trace[0] == stages[i]
            && trace[wanted[i] - before.partitioning@[i]] == stages[i + 1]
            && forall|j: int| 0 <= j < wanted[i] - before.partitioning@[i] ==> #[trigger] lift_step(trace[j], trace[j + 1], i as u32),
        i < before.partitioning@.len() && before.partitioning@[i] > wanted[i] ==> exists|trace: Seq<ReactiveCircuit>|
            trace.len() == before.partitioning@[i] - wanted[i] + 1 && trace[0] == stages[i]
            && trace[before.partitioning@[i] - wanted[i]] == stages[i + 1]
            && forall|j: int| 0 <= j < before.partitioning@[i] - wanted[i] ==> #[trigger] drop_step(trace[j], trace[j + 1], i as u32),
        i < before.partitioning@.len() && before.partitioning@[i] == wanted[i] ==> stages[i + 1] == stages[i],
        0 < before.partitioning@.len() <= i ==> stages[i + 1] == stages[i],
{
    let moves = adapt_moves(before.partitioning@, wanted, i);
    assert(repeated(stages[i], stages[i + 1], i as u32, moves.0, moves.1));
    lemma_repeated_steps(stages[i], stages[i + 1], i as u32, moves.0, moves.1);
    if moves.0 == 0 {
        lemma_repeated_zero(stages[i], stages[i + 1], i as u32, moves.1);
    }
}

} // verus!
