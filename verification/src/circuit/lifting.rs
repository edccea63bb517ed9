use vstd::prelude::*;
use crate::circuit::algebraic::{find_column, shift_row, AlgebraicCircuit, Column};
use crate::circuit::lift_values::{
    edge_ready, keeps_common_values, lemma_extension_keeps, lemma_lift_ranked, lemma_lifted_identity, lemma_parent_made_ready,
    lift_rank, lift_ready, moved_node, lemma_edge_ready_weaken, memories_into, pending_memories, lemma_lift_step_values,
    lemma_lift_step_ready, lemma_keeps_common_same, lemma_lift_final_values, lift_leaf_ready, lemma_keeps_common_same_graph,
    lemma_keeps_common_same_start, target_tokens, lift_room, minterm_holds, target_value_kept, target_liftable,
    lemma_targets_same, lemma_targets_after_parent, lemma_lift_parent_value, rankable, lemma_parent_rankable,
    lemma_target_kept_trans,
};
use crate::circuit::semantics::ranked;
use crate::circuit::reactive::{
    graph_add_edge, graph_add_node, graph_edge_count, graph_edge_endpoints, graph_node, graph_node_count, graph_ok,
    graph_remove_edge, graph_remove_node, lemma_add_leaf_keeps_memories, lemma_remove_col_contains, leaf_dependents,
    ReactiveCircuit,
};

verus! {

/// The columns and rows of `ac` once leaf `index` is removed from it (rows
/// left empty by that are dropped).
pub open spec fn strip_leaf(ac: AlgebraicCircuit, index: u32) -> (Seq<Column>, Seq<Seq<usize>>) {
    match find_column(ac.cols(), Column::Leaf(index)) {
        Some(c) => (
            ac.cols().remove(c as int),
            ac.rows().map_values(|r: Seq<usize>| shift_row(r, c)).filter(|r: Seq<usize>| r.len() > 0),
        ),
        None => (ac.cols(), ac.rows()),
    }
}

/// The products of `ac` once leaf `index` is removed from it (products left
/// empty by that are dropped).
pub open spec fn stripped_products(ac: AlgebraicCircuit, index: u32) -> Seq<Set<Column>> {
    if ac.cols().contains(Column::Leaf(index)) {
        ac.products().map_values(|p: Set<Column>| p.remove(Column::Leaf(index))).filter(|p: Set<Column>| p.len() > 0)
    } else {
        ac.products()
    }
}

/// Whether column `moved` is column `column` of a circuit moved to node
/// `node`: a leaf stays, and a memory refers to a new edge from `node` to
/// the target of the edge that `column` referred to.
pub open spec fn moved_column(column: Column, moved: Column, node: u32,
    before: Map<u32, (u32, u32)>, after: Map<u32, (u32, u32)>) -> bool {
    match column {
        Column::Leaf(l) => moved == Column::Leaf(l),
        Column::Memory(k) => moved matches Column::Memory(m) && !before.contains_key(m)
            && after.contains_key(m) && after[m] == (node, before[k].1),
    }
}

impl ReactiveCircuit {
    /// Adds `circuit`, without leaf `index`, as a new node whose memories
    /// refer to new edges from it to the targets of the edges they referred
    /// to; returns the node.
    fn reattach(&mut self, circuit: AlgebraicCircuit, index: u32) -> (node: u32)
        requires
            old(self).wf(),
            circuit.wf(),
            circuit.size() == old(self).value_size,
            forall|k: u32| #[trigger] circuit.cols().contains(Column::Memory(k)) ==> old(self).edges().contains_key(k),
            old(self).nodes().dom().len() < u32::MAX,
            old(self).edges().dom().len() + circuit.cols().len() < u32::MAX,
        ensures
            final(self).wf(),
            !old(self).nodes().contains_key(node),
            final(self).nodes().dom() == old(self).nodes().dom().insert(node),
            forall|n: u32| #[trigger] old(self).nodes().contains_key(n) ==> final(self).nodes()[n] == old(self).nodes()[n],
            forall|e: u32| #[trigger] old(self).edges().contains_key(e) ==> final(self).edges().contains_key(e)
                && final(self).edges()[e] == old(self).edges()[e],
            forall|e: u32| #[trigger] final(self).edges().contains_key(e) && !old(self).edges().contains_key(e)
                ==> final(self).edges()[e].0 == node && exists|k: u32| #[trigger] circuit.cols().contains(Column::Memory(k))
                    && final(self).edges()[e].1 == old(self).edges()[k].1,
            final(self).edges().dom().len() <= old(self).edges().dom().len() + circuit.cols().len(),
            final(self).nodes()[node].rows() == strip_leaf(circuit, index).1,
            final(self).nodes()[node].cols().len() == strip_leaf(circuit, index).0.len(),
            strip_leaf(circuit, index).0.no_duplicates(),
            forall|i: int| 0 <= i < strip_leaf(circuit, index).1.len() ==> crate::circuit::algebraic::row_ok(
                #[trigger] strip_leaf(circuit, index).1[i], strip_leaf(circuit, index).0.len()),
            strip_leaf(circuit, index).1.map_values(|r: Seq<usize>| crate::circuit::algebraic::row_vars(r,
                strip_leaf(circuit, index).0)) == stripped_products(circuit, index),
            forall|q: int| 0 <= q < strip_leaf(circuit, index).0.len() ==> moved_column(
                #[trigger] strip_leaf(circuit, index).0[q], final(self).nodes()[node].cols()[q], node,
                old(self).edges(), final(self).edges()),
            final(self).value_size == old(self).value_size,
            final(self).dependencies == old(self).dependencies,
            final(self).queue == old(self).queue,
            final(self).targets == old(self).targets,
            final(self).partitioning == old(self).partitioning,
    {
        let mut c = circuit;
        proof { c.lemma_sizes(); c.lemma_wf(); }
        match c.get_leaf(index) {
            Some(col) => {
                proof {
                    let i = choose|i: int| 0 <= i < circuit.cols().len() && circuit.cols()[i] == Column::Leaf(index);
                    assert((i as usize) < circuit.cols().len() && circuit.cols()[(i as usize) as int] == Column::Leaf(index));
                }
                let ghost before = c;
                c.remove_col(col);
                proof {
                    assert(circuit.cols().contains(Column::Leaf(index)));
                    assert(before.cols()[col as int] == Column::Leaf(index));
                    assert(c.products() =~= stripped_products(circuit, index));
                    assert forall|k: u32| #[trigger] c.cols().contains(Column::Memory(k)) implies old(self).edges().contains_key(k)
                        && circuit.cols().contains(Column::Memory(k)) by {
                        let q = choose|q: int| 0 <= q < c.cols().len() && c.cols()[q] == Column::Memory(k);
                        if q < col { assert(before.cols()[q] == Column::Memory(k)); } else { assert(before.cols()[q + 1] == Column::Memory(k)); }
                        assert(before.cols().contains(Column::Memory(k)));
                    }
                }
            },
            None => {},
        }
        let ghost stripped = c;
        proof {
            c.lemma_sizes();
            assert(stripped.products() == stripped_products(circuit, index));
        }
        let ghost nodes0 = self.nodes();
        let ghost edges0 = self.edges();
        let node = graph_add_node(&mut self.structure, AlgebraicCircuit::new(self.value_size));
        proof {
            let nodes = self.nodes();
            assert forall|n: u32, k: u32| nodes.contains_key(n) && #[trigger] nodes[n].cols().contains(Column::Memory(k))
                implies self.edges().contains_key(k) && self.edges()[k].0 == n by {
                if n == node { assert(nodes[n].cols().len() == 0); }
            }
        }
        let mut i: usize = 0;
        let n_cols = c.columns().len();
        while i < n_cols
            invariant
                n_cols == c.cols().len(),
                n_cols == stripped.cols().len(),
                i <= n_cols,
                c.wf(),
                c.rows() == stripped.rows(),
                c.size() == self.value_size,
                self.value_size == old(self).value_size,
                self.dependencies == old(self).dependencies,
                self.queue == old(self).queue,
                self.targets == old(self).targets,
                self.partitioning == old(self).partitioning,
                self.queue@.no_duplicates(),
                forall|l: int| 0 <= l < self.dependencies@.len() ==> crate::circuit::reactive::increasing(#[trigger] self.dependencies@[l]@),
                !nodes0.contains_key(node),
                self.nodes() == nodes0.insert(node, self.nodes()[node]),
                self.nodes()[node].cols().len() == 0,
                self.nodes()[node].wf(),
                self.nodes()[node].size() == self.value_size,
                graph_ok(self.nodes(), self.edges()),
                forall|n: u32| #[trigger] nodes0.contains_key(n) ==> nodes0[n].wf() && nodes0[n].size() == self.value_size,
                forall|e: u32| #[trigger] edges0.contains_key(e) ==> self.edges().contains_key(e) && self.edges()[e] == edges0[e],
                forall|e: u32| #[trigger] self.edges().contains_key(e) && !edges0.contains_key(e) ==> self.edges()[e].0 == node
                    && c.cols().contains(Column::Memory(e)) && exists|k: u32| #[trigger] circuit.cols().contains(Column::Memory(k))
                    && self.edges()[e].1 == edges0[k].1,
                forall|k: u32| #[trigger] stripped.cols().contains(Column::Memory(k)) ==> circuit.cols().contains(Column::Memory(k)),
                forall|e: u32| #[trigger] edges0.contains_key(e) ==> nodes0[edges0[e].0].cols().contains(Column::Memory(e)),
                forall|n: u32, k: u32| nodes0.contains_key(n) && #[trigger] nodes0[n].cols().contains(Column::Memory(k))
                    ==> edges0.contains_key(k) && edges0[k].0 == n,
                self.edges().dom().len() <= edges0.len() + i,
                edges0.len() + n_cols < u32::MAX,
                forall|k: u32| #[trigger] c.cols().contains(Column::Memory(k)) ==> self.edges().contains_key(k),
                forall|q: int| i <= q < n_cols ==> #[trigger] c.cols()[q] == stripped.cols()[q],
                forall|q: int| 0 <= q < i ==> moved_column(#[trigger] stripped.cols()[q], c.cols()[q], node, edges0, self.edges()),
                forall|k: u32| #[trigger] stripped.cols().contains(Column::Memory(k)) ==> edges0.contains_key(k),
            decreases n_cols - i,
        {
            match c.col_memory_edge(i) {
                Some(old_key) => {
                    proof { assert(stripped.cols()[i as int] == Column::Memory(old_key)); assert(stripped.cols().contains(Column::Memory(old_key))); }
                    let target = match graph_edge_endpoints(&self.structure, old_key) {
                        Some(ends) => ends.1,
                        None => {
                            proof { assert(false); }
                            0
                        },
                    };
                    let ghost edges_before = self.edges();
                    let new_edge = graph_add_edge(&mut self.structure, node, target);
                    proof {
                        if c.cols().contains(Column::Memory(new_edge)) {
                            assert(edges_before.contains_key(new_edge));
                        }
                    }
                    let ghost cb = c;
                    c.remap_memory(i, old_key, new_edge);
                    proof {
                        assert(c.cols()[i as int] == Column::Memory(new_edge));
                        assert forall|k: u32| #[trigger] c.cols().contains(Column::Memory(k)) implies self.edges().contains_key(k) by {
                            let q = choose|q: int| 0 <= q < c.cols().len() && c.cols()[q] == Column::Memory(k);
                            if q != i { assert(cb.cols()[q] == Column::Memory(k)); assert(cb.cols().contains(Column::Memory(k))); }
                        }
                        assert forall|e: u32| #[trigger] self.edges().contains_key(e) && !edges0.contains_key(e) implies self.edges()[e].0 == node
                            && c.cols().contains(Column::Memory(e)) && exists|k: u32| #[trigger] circuit.cols().contains(Column::Memory(k))
                            && self.edges()[e].1 == edges0[k].1 by {
                            if e == new_edge {
                                assert(circuit.cols().contains(Column::Memory(old_key)));
                                assert(self.edges()[e].1 == edges0[old_key].1);
                            }
                            if e != new_edge {
                                assert(edges_before.contains_key(e));
                                assert(cb.cols().contains(Column::Memory(e)));
                                let q = choose|q: int| 0 <= q < cb.cols().len() && cb.cols()[q] == Column::Memory(e);
                                assert(q != i);
                                assert(c.cols()[q] == Column::Memory(e));
                            }
                        }
                        assert forall|q: int| 0 <= q < i + 1 implies moved_column(#[trigger] stripped.cols()[q], c.cols()[q], node, edges0, self.edges()) by {
                            if q < i {
                                assert(moved_column(stripped.cols()[q], cb.cols()[q], node, edges0, edges_before));
                                if let Column::Memory(m) = cb.cols()[q] {
                                    assert(edges_before.contains_key(m));
                                }
                            } else {
                                assert(!edges0.contains_key(new_edge));
                            }
                        }
                    }
                },
                None => {},
            }
            i = i + 1;
        }
        self.swap_circuit(node, c);
        proof {
            let nodes = self.nodes();
            let edges = self.edges();
            assert(nodes =~= nodes0.insert(node, c));
            assert(nodes.dom() =~= nodes0.dom().insert(node));
            assert forall|e: u32| #[trigger] edges.contains_key(e) implies nodes[edges[e].0].cols().contains(Column::Memory(e)) by {
                if !edges0.contains_key(e) {
                } else {
                    assert(edges0[e].0 != node);
                }
            }
            assert forall|n: u32, k: u32| nodes.contains_key(n) && #[trigger] nodes[n].cols().contains(Column::Memory(k))
                implies edges.contains_key(k) && edges[k].0 == n by {
                if n == node {
                    let q = choose|q: int| 0 <= q < c.cols().len() && c.cols()[q] == Column::Memory(k);
                    assert(moved_column(stripped.cols()[q], c.cols()[q], node, edges0, edges));
                }
            }
            assert(stripped.cols() == strip_leaf(circuit, index).0);
            assert(stripped.rows() == strip_leaf(circuit, index).1);
            stripped.lemma_wf();
            assert(strip_leaf(circuit, index).1.map_values(|r: Seq<usize>| crate::circuit::algebraic::row_vars(r,
                strip_leaf(circuit, index).0)) =~= stripped.products());
        }
        node
    }
}

/// Putting a circuit with the same memory columns in place of the circuit
/// of a node keeps a reactive circuit well formed.
proof fn lemma_wf_replace(before: ReactiveCircuit, after: ReactiveCircuit, n: u32)
    requires
        before.wf(),
        before.nodes().contains_key(n),
        after.nodes() == before.nodes().insert(n, after.nodes()[n]),
        after.edges() == before.edges(),
        after.nodes()[n].wf(),
        after.nodes()[n].size() == before.value_size,
        after.value_size == before.value_size,
        after.dependencies == before.dependencies,
        after.queue == before.queue,
        forall|k: u32| #[trigger] after.nodes()[n].cols().contains(Column::Memory(k))
            == before.nodes()[n].cols().contains(Column::Memory(k)),
    ensures
        after.wf(),
{
    let nodes = after.nodes();
    let edges = after.edges();
    assert(nodes.dom() =~= before.nodes().dom());
    assert forall|e: u32| #[trigger] edges.contains_key(e) implies nodes[edges[e].0].cols().contains(Column::Memory(e)) by {
        assert(before.nodes()[edges[e].0].cols().contains(Column::Memory(e)));
    }
    assert forall|m: u32, k: u32| nodes.contains_key(m) && #[trigger] nodes[m].cols().contains(Column::Memory(k))
        implies edges.contains_key(k) && edges[k].0 == m by {
        assert(before.nodes()[m].cols().contains(Column::Memory(k)));
    }
}

impl ReactiveCircuit {
    /// Makes sure leaf `index` is a variable of the circuit of node `n` and
    /// returns its column.
    fn add_leaf_column(&mut self, n: u32, index: u32) -> (col: usize)
        requires
            old(self).wf(),
            old(self).nodes().contains_key(n),
        ensures
            final(self).wf(),
            final(self).nodes() == old(self).nodes().insert(n, final(self).nodes()[n]),
            final(self).edges() == old(self).edges(),
            final(self).nodes()[n].rows() == old(self).nodes()[n].rows(),
            final(self).nodes()[n].cols() == crate::circuit::algebraic::add_column(old(self).nodes()[n].cols(), Column::Leaf(index)),
            final(self).nodes()[n].products() == old(self).nodes()[n].products(),
            col < final(self).nodes()[n].cols().len(),
            final(self).nodes()[n].cols()[col as int] == Column::Leaf(index),
            final(self).value_size == old(self).value_size,
            final(self).dependencies == old(self).dependencies,
            final(self).queue == old(self).queue,
            final(self).targets == old(self).targets,
            final(self).partitioning == old(self).partitioning,
    {
        let placeholder = AlgebraicCircuit::new(self.value_size);
        let mut ac = self.swap_circuit(n, placeholder);
        let col = ac.ensure_leaf(index);
        self.swap_circuit(n, ac);
        proof {
            assert forall|k: u32| #[trigger] self.nodes()[n].cols().contains(Column::Memory(k))
                == old(self).nodes()[n].cols().contains(Column::Memory(k)) by {
                lemma_add_leaf_keeps_memories(old(self).nodes()[n].cols(), index, k);
            }
            assert(self.nodes() =~= old(self).nodes().insert(n, self.nodes()[n]));
            lemma_wf_replace(*old(self), *self, n);
            let before = old(self).nodes()[n];
            before.lemma_wf();
            assert forall|i: int| 0 <= i < before.rows().len()
                implies #[trigger] self.nodes()[n].products()[i] == before.products()[i] by {
                assert(crate::circuit::algebraic::row_ok(before.rows()[i], before.cols().len()));
                crate::circuit::lift_values::lemma_row_vars_prefix(before.rows()[i], before.cols(), self.nodes()[n].cols());
            }
            assert(self.nodes()[n].products() =~= before.products());
        }
        col
    }

    /// Adds a minterm over the columns `cols` to the circuit of node `n`;
    /// returns its row.
    fn push_row(&mut self, n: u32, cols: Vec<usize>) -> (row: usize)
        requires
            old(self).wf(),
            old(self).nodes().contains_key(n),
            forall|i: int| 0 <= i < cols@.len() ==> #[trigger] cols@[i] < old(self).nodes()[n].cols().len(),
        ensures
            final(self).wf(),
            final(self).nodes() == old(self).nodes().insert(n, final(self).nodes()[n]),
            final(self).edges() == old(self).edges(),
            final(self).nodes()[n].cols() == old(self).nodes()[n].cols(),
            row == old(self).nodes()[n].rows().len(),
            final(self).nodes()[n].rows().len() == old(self).nodes()[n].rows().len() + 1,
            final(self).nodes()[n].rows().take(row as int) == old(self).nodes()[n].rows(),
            final(self).nodes()[n].rows()[row as int].to_set() == cols@.to_set(),
            final(self).nodes()[n].products() == old(self).nodes()[n].products().push(
                crate::circuit::algebraic::row_vars(cols@, old(self).nodes()[n].cols())),
            final(self).value_size == old(self).value_size,
            final(self).dependencies == old(self).dependencies,
            final(self).queue == old(self).queue,
            final(self).targets == old(self).targets,
            final(self).partitioning == old(self).partitioning,
    {
        let placeholder = AlgebraicCircuit::new(self.value_size);
        let mut ac = self.swap_circuit(n, placeholder);
        let row = ac.push_minterm(cols);
        self.swap_circuit(n, ac);
        proof { assert(self.nodes() =~= old(self).nodes().insert(n, self.nodes()[n]));
            lemma_wf_replace(*old(self), *self, n); }
        row
    }

    /// Removes minterm `row` from the circuit of node `n`.
    fn drop_row(&mut self, n: u32, row: usize)
        requires
            old(self).wf(),
            old(self).nodes().contains_key(n),
            row < old(self).nodes()[n].rows().len(),
        ensures
            final(self).wf(),
            final(self).nodes() == old(self).nodes().insert(n, final(self).nodes()[n]),
            final(self).edges() == old(self).edges(),
            final(self).nodes()[n].cols() == old(self).nodes()[n].cols(),
            final(self).nodes()[n].rows() == old(self).nodes()[n].rows().remove(row as int),
            final(self).nodes()[n].products() == old(self).nodes()[n].products().remove(row as int),
            final(self).value_size == old(self).value_size,
            final(self).dependencies == old(self).dependencies,
            final(self).queue == old(self).queue,
            final(self).targets == old(self).targets,
            final(self).partitioning == old(self).partitioning,
    {
        let placeholder = AlgebraicCircuit::new(self.value_size);
        let mut ac = self.swap_circuit(n, placeholder);
        ac.remove_minterm(row);
        self.swap_circuit(n, ac);
        proof { assert(self.nodes() =~= old(self).nodes().insert(n, self.nodes()[n]));
            lemma_wf_replace(*old(self), *self, n);
            assert(self.nodes()[n].products() =~= old(self).nodes()[n].products().remove(row as int)); }
    }

    /// Removes edge `edge` out of node `parent` with its memory column;
    /// returns the first row that held that column, if one did (the row
    /// stays, without it).
    fn detach(&mut self, parent: u32, edge: u32) -> (row: Option<usize>)
        requires
            old(self).wf(),
            old(self).edges().contains_key(edge),
            old(self).edges()[edge].0 == parent,
        ensures
            final(self).wf(),
            final(self).edges() == old(self).edges().remove(edge),
            final(self).nodes().dom() == old(self).nodes().dom(),
            forall|n: u32| #[trigger] final(self).nodes().contains_key(n) && n != parent ==> final(self).nodes()[n] == old(self).nodes()[n],
            final(self).nodes()[parent].rows().len() == old(self).nodes()[parent].rows().len(),
            final(self).nodes()[parent].cols().len() + 1 == old(self).nodes()[parent].cols().len(),
            row matches Some(r) ==> r < old(self).nodes()[parent].rows().len(),
            final(self).nodes()[parent].products() == old(self).nodes()[parent].products().map_values(
                |p: Set<Column>| p.remove(Column::Memory(edge))),
            row matches Some(r) ==> old(self).nodes()[parent].products()[r as int].contains(Column::Memory(edge)),
            row is None ==> forall|i: int| 0 <= i < old(self).nodes()[parent].products().len()
                ==> !(#[trigger] old(self).nodes()[parent].products()[i]).contains(Column::Memory(edge)),
            forall|v: Column| #[trigger] final(self).nodes()[parent].cols().contains(v)
                == (old(self).nodes()[parent].cols().contains(v) && v != Column::Memory(edge)),
            final(self).value_size == old(self).value_size,
            final(self).dependencies == old(self).dependencies,
            final(self).queue == old(self).queue,
            final(self).targets == old(self).targets,
            final(self).partitioning == old(self).partitioning,
    {
        let ghost nodes0 = self.nodes();
        proof { assert(nodes0.contains_key(parent)); }
        let placeholder = AlgebraicCircuit::new(self.value_size);
        let mut ac = self.swap_circuit(parent, placeholder);
        proof {
            assert(ac.cols().contains(Column::Memory(edge)));
            ac.lemma_wf();
            ac.lemma_sizes();
            let q = choose|q: int| 0 <= q < ac.cols().len() && ac.cols()[q] == Column::Memory(edge);
            assert((q as usize) < ac.cols().len() && ac.cols()[(q as usize) as int] == Column::Memory(edge));
        }
        let col = match ac.get_memory(edge) {
            Some(c) => c,
            None => {
                proof { assert(false); }
                0
            },
        };
        proof { crate::circuit::adaptation::lemma_found_column(ac.cols(), Column::Memory(edge)); }
        let rows = ac.minterms_containing_col(col);
        let ghost before = ac;
        ac.remove_col_keep_rows(col);
        self.swap_circuit(parent, ac);
        graph_remove_edge(&mut self.structure, edge);
        proof {
            let nodes = self.nodes();
            let edges = self.edges();
            assert(nodes =~= nodes0.insert(parent, ac));
            before.lemma_wf();
            assert forall|e: u32| #[trigger] edges.contains_key(e) implies nodes[edges[e].0].cols().contains(Column::Memory(e)) by {
                let src = edges[e].0;
                assert(nodes0[src].cols().contains(Column::Memory(e)));
                if src == parent {
                    lemma_remove_col_contains(before.cols(), col as int, Column::Memory(e));
                }
            }
            assert forall|n: u32, m: u32| nodes.contains_key(n) && #[trigger] nodes[n].cols().contains(Column::Memory(m))
                implies edges.contains_key(m) && edges[m].0 == n by {
                if n == parent {
                    lemma_remove_col_contains(before.cols(), col as int, Column::Memory(m));
                }
            }
        }
        proof {
            assert(before.cols()[col as int] == Column::Memory(edge));
            assert(before.products().map_values(|p: Set<Column>| p.remove(before.cols()[col as int]))
                =~= before.products().map_values(|p: Set<Column>| p.remove(Column::Memory(edge))));
            assert forall|v: Column| #[trigger] self.nodes()[parent].cols().contains(v)
                == (before.cols().contains(v) && v != Column::Memory(edge)) by {
                lemma_remove_col_contains(before.cols(), col as int, v);
            }
            assert forall|i: int| 0 <= i < before.products().len()
                implies (#[trigger] before.products()[i]).contains(Column::Memory(edge)) == rows@.contains(i as usize) by {
                assert(crate::circuit::algebraic::row_ok(before.rows()[i], before.cols().len()));
                crate::circuit::lift_values::lemma_row_vars_col(before.rows()[i], before.cols(), col);
            }
        }
        if rows.len() == 0 {
            proof {
                assert forall|i: int| 0 <= i < before.products().len()
                    implies !(#[trigger] before.products()[i]).contains(Column::Memory(edge)) by {
                    assert(!rows@.contains(i as usize));
                }
            }
            None
        } else {
            proof { assert(rows@.contains(rows@[0])); }
            Some(rows[0])
        }
    }
}

/// Whether no edge leads from a node to itself.
pub open spec fn no_self_loops(edges: Map<u32, (u32, u32)>) -> bool {
    forall|e: u32| #[trigger] edges.contains_key(e) ==> edges[e].0 != edges[e].1
}

/// What `lift_from_node` promises of the circuit `f` that it leaves after
/// lifting leaf `x` out of node `n` of `c`.
pub open spec fn node_lifted(c: ReactiveCircuit, f: ReactiveCircuit, n: u32, x: u32) -> bool {
    &&& f.wf()
    &&& no_self_loops(f.edges())
    &&& f.value_size == c.value_size
    &&& f.dependencies == c.dependencies
    &&& f.partitioning == c.partitioning
    &&& f.targets@.len() == c.targets@.len()
    &&& target_tokens(f) == target_tokens(c)
    &&& forall|m: u32| #[trigger] c.nodes().contains_key(m) && m != n ==> f.nodes().contains_key(m)
    &&& !c.nodes()[n].cols().contains(Column::Leaf(x)) ==> f == c
    &&& lift_room(c, n) && minterm_holds(c, n, x) ==> !f.nodes().contains_key(n) && lifted_into_parents(c, f, n, x)
    &&& lift_ready(c, n, x) ==> keeps_common_values(c, f)
    &&& lift_ready(c, n, x) ==> forall|i: int| 0 <= i < c.target_list().len() && #[trigger] target_liftable(c, i, x)
        ==> target_value_kept(c, f, i)
    &&& lift_ready(c, n, x) && rankable(c.edges()) ==> rankable(f.edges())
}

/// One step of `lift_leaf`: listed node `n` is lifted out of when it is a
/// node, and nothing changes otherwise.
pub open spec fn listed_lift(c: ReactiveCircuit, f: ReactiveCircuit, n: u32, x: u32) -> bool {
    if c.nodes().contains_key(n) { node_lifted(c, f, n, x) } else { f == c }
}

/// Whether `trace` runs from `before` to the graph and targets of `after`
/// by lifting leaf `x` out of each node of `listed` in turn.
pub open spec fn lifted_along(trace: Seq<ReactiveCircuit>, before: ReactiveCircuit, after: ReactiveCircuit,
    listed: Seq<u32>, x: u32) -> bool {
    &&& trace.len() == listed.len() + 1
    &&& trace[0] == before
    &&& after.structure == trace[listed.len() as int].structure
    &&& after.targets == trace[listed.len() as int].targets
    &&& forall|k: int| 0 <= k < listed.len() ==> #[trigger] listed_lift(trace[k], trace[k + 1], listed[k], x)
}

/// Whether at most one edge leads from `p` to `n`.
pub open spec fn one_edge_between(edges: Map<u32, (u32, u32)>, p: u32, n: u32) -> bool {
    forall|e1: u32, e2: u32| #[trigger] edges.contains_key(e1) && #[trigger] edges.contains_key(e2)
        && edges[e1] == (p, n) && edges[e2] == (p, n) ==> e1 == e2
}

/// Whether every parent of node `n` of `before` that has one edge into it,
/// used by one of its minterms, holds leaf `x` in `after`.
pub open spec fn lifted_into_parents(before: ReactiveCircuit, after: ReactiveCircuit, n: u32, x: u32) -> bool {
    forall|e: u32| #[trigger] before.edges().contains_key(e) && before.edges()[e].1 == n
        && one_edge_between(before.edges(), before.edges()[e].0, n)
        && (exists|i: int| 0 <= i < before.nodes()[before.edges()[e].0].products().len()
            && #[trigger] before.nodes()[before.edges()[e].0].products()[i].contains(Column::Memory(e)))
        ==> after.nodes()[before.edges()[e].0].cols().contains(Column::Leaf(x))
}

/// The columns of `base` followed by `col`.
fn with_column(base: &Vec<usize>, col: usize) -> (cols: Vec<usize>)
    ensures
        cols@ == base@.push(col),
{
    let mut cols: Vec<usize> = Vec::new();
    let mut k: usize = 0;
    while k < base.len()
        invariant
            k <= base@.len(),
            cols@ == base@.take(k as int),
        decreases base@.len() - k,
    {
        cols.push(base[k]);
        proof { assert(base@.take(k + 1) =~= base@.take(k as int).push(base@[k as int])); }
        k = k + 1;
    }
    proof { assert(base@.take(base@.len() as int) =~= base@); }
    cols.push(col);
    cols
}

/// A copy of row `row` of `ac`.
fn row_copy(ac: &AlgebraicCircuit, row: usize) -> (cols: Vec<usize>)
    requires
        row < ac.rows().len(),
    ensures
        cols@ == ac.rows()[row as int],
{
    let r = ac.get_minterm_cols(row);
    let mut cols: Vec<usize> = Vec::new();
    let mut k: usize = 0;
    while k < r.len()
        invariant
            k <= r@.len(),
            cols@ == r@.take(k as int),
        decreases r@.len() - k,
    {
        cols.push(r[k]);
        proof { assert(r@.take(k + 1) =~= r@.take(k as int).push(r@[k as int])); }
        k = k + 1;
    }
    proof { assert(r@.take(r@.len() as int) =~= r@); }
    cols
}

/// The number of minterms of `ac` that consist of column `col` alone.
fn count_bare(ac: &AlgebraicCircuit, col: Option<usize>) -> (count: usize)
    ensures
        col is None ==> count == 0,
        col matches Some(c) ==> count == ac.rows().filter(|r: Seq<usize>| r == seq![c]).len(),
        count <= ac.rows().len(),
{
    let c = match col {
        Some(c) => c,
        None => return 0,
    };
    let m = ac.minterms();
    let mut count: usize = 0;
    let mut r: usize = 0;
    while r < m.len()
        invariant
            r <= m@.len(),
            m@.len() == ac.rows().len(),
            forall|i: int| 0 <= i < m@.len() ==> #[trigger] m@[i]@ == ac.rows()[i],
            count <= r,
            count == ac.rows().take(r as int).filter(|q: Seq<usize>| q == seq![c]).len(),
        decreases m@.len() - r,
    {
        proof {
            reveal_with_fuel(Seq::filter, 1);
            assert(ac.rows().take(r + 1).drop_last() =~= ac.rows().take(r as int));
            assert(ac.rows().take(r + 1).last() == ac.rows()[r as int]);
        }
        if m[r].len() == 1 && m[r][0] == c {
            proof { assert(m@[r as int]@ =~= seq![c]); }
            count = count + 1;
        } else {
            proof { assert(m@[r as int]@ != seq![c]); }
        }
        r = r + 1;
    }
    proof { assert(ac.rows().take(m@.len() as int) =~= ac.rows()); }
    count
}

impl ReactiveCircuit {
    /// Removes node `n`, which no edge leads to, with the edges out of it.
    pub(crate) fn remove_unreferenced(&mut self, n: u32)
        requires
            old(self).wf(),
            old(self).nodes().contains_key(n),
            forall|e: u32| #[trigger] old(self).edges().contains_key(e) ==> old(self).edges()[e].1 != n,
        ensures
            final(self).wf(),
            final(self).nodes() == old(self).nodes().remove(n),
            final(self).edges().dom().len() <= old(self).edges().dom().len(),
            forall|e: u32| #[trigger] final(self).edges().contains_key(e) <==> old(self).edges().contains_key(e)
                && old(self).edges()[e].0 != n,
            forall|e: u32| #[trigger] final(self).edges().contains_key(e) ==> final(self).edges()[e] == old(self).edges()[e],
            final(self).value_size == old(self).value_size,
            final(self).dependencies == old(self).dependencies,
            final(self).queue == old(self).queue,
            final(self).targets == old(self).targets,
            final(self).partitioning == old(self).partitioning,
    {
        graph_remove_node(&mut self.structure, n);
        proof {
            let nodes = self.nodes();
            let edges = self.edges();
            assert forall|e: u32| #[trigger] edges.contains_key(e) implies nodes.contains_key(edges[e].0) && nodes.contains_key(edges[e].1) by {
                assert(old(self).edges().contains_key(e));
            }
            assert forall|e: u32| #[trigger] edges.contains_key(e) implies nodes[edges[e].0].cols().contains(Column::Memory(e)) by {
                assert(old(self).edges().contains_key(e));
                assert(old(self).nodes()[old(self).edges()[e].0].cols().contains(Column::Memory(e)));
            }
            assert forall|m: u32, k: u32| nodes.contains_key(m) && #[trigger] nodes[m].cols().contains(Column::Memory(k))
                implies edges.contains_key(k) && edges[k].0 == m by {
                assert(old(self).nodes()[m].cols().contains(Column::Memory(k)));
                assert(old(self).edges().contains_key(k) && old(self).edges()[k].0 == m);
                assert(old(self).edges()[k].1 != n);
            }
            assert(edges.dom().subset_of(old(self).edges().dom()));
            vstd::set_lib::lemma_set_subset_finite(old(self).edges().dom(), edges.dom());
            vstd::set_lib::lemma_len_subset(edges.dom(), old(self).edges().dom());
        }
    }
}

impl ReactiveCircuit {
    /// Rewires parent `parent` of `node` for its edge `edge` once the leaf
    /// is lifted out of `node`: the edge and its memory go; the minterm that
    /// held the memory, without it, is added times the leaf once per bare
    /// minterm (`bare`), and times the leaf and a new memory of `in_node`
    /// when the lifted minterms left one (`proper`); the minterm itself gets
    /// a new memory of `out_node`, or is removed when there is none.  The
    /// result gives the minterm and the new edges, when a minterm held the
    /// memory.
    fn rewire_parent(&mut self, index: u32, node: u32, parent: u32, edge: u32, in_node: u32, out_node: Option<u32>,
        proper: bool, bare: usize) -> (result: Ghost<Option<(int, u32, Option<u32>)>>)
        requires
            old(self).wf(),
            no_self_loops(old(self).edges()),
            old(self).edges().contains_key(edge),
            old(self).edges()[edge] == (parent, node),
            proper ==> old(self).nodes().contains_key(in_node) && in_node != parent,
            out_node matches Some(o) ==> old(self).nodes().contains_key(o) && o != parent,
            old(self).edges().dom().len() + 2 < u32::MAX,
        ensures
            final(self).wf(),
            no_self_loops(final(self).edges()),
            final(self).value_size == old(self).value_size,
            final(self).dependencies == old(self).dependencies,
            final(self).partitioning == old(self).partitioning,
            final(self).targets == old(self).targets,
            old(self).queue@.to_set().subset_of(final(self).queue@.to_set()),
            final(self).nodes().dom() == old(self).nodes().dom(),
            forall|n: u32| #[trigger] old(self).nodes().contains_key(n) && n != parent
                ==> final(self).nodes()[n] == old(self).nodes()[n],
            forall|e: u32| #[trigger] old(self).edges().contains_key(e) && e != edge
                ==> final(self).edges().contains_key(e) && final(self).edges()[e] == old(self).edges()[e],
            forall|e: u32| #[trigger] final(self).edges().contains_key(e) ==> (old(self).edges().contains_key(e)
                && e != edge && final(self).edges()[e] == old(self).edges()[e]) || (final(self).edges()[e].0 == parent
                && ((proper && final(self).edges()[e].1 == in_node) || out_node == Some(final(self).edges()[e].1))),
            final(self).edges().dom().len() <= old(self).edges().dom().len() + 1,
            result@ is Some ==> final(self).nodes()[parent].cols().contains(Column::Leaf(index)),
            result@ is None ==> final(self).nodes()[parent].products() == old(self).nodes()[parent].products(),
            result@ is None ==> forall|i: int| 0 <= i < old(self).nodes()[parent].products().len()
                ==> !(#[trigger] old(self).nodes()[parent].products()[i]).contains(Column::Memory(edge)),
            result@ matches Some((row, min, mout)) ==> {
                &&& 0 <= row < old(self).nodes()[parent].products().len()
                &&& old(self).nodes()[parent].products()[row].contains(Column::Memory(edge))
                &&& edge_ready(old(self).nodes()[parent].products(), Column::Memory(edge), Column::Leaf(index), Set::empty())
                    ==> final(self).nodes()[parent].products() == crate::circuit::lift_values::rewired(
                    old(self).nodes()[parent].products(), row, Column::Memory(edge), Column::Leaf(index),
                    Column::Memory(min), crate::circuit::lift_values::memory_of(mout), bare as nat, proper)
                &&& proper ==> final(self).edges().contains_key(min) && final(self).edges()[min] == (parent, in_node)
                    && (old(self).edges().contains_key(min) ==> min == edge)
                &&& mout is Some <==> out_node is Some
                &&& mout matches Some(eo) ==> final(self).edges().contains_key(eo)
                    && final(self).edges()[eo] == (parent, out_node->0)
                    && (old(self).edges().contains_key(eo) ==> eo == edge)
            },
    {
        let ghost st_a = *self;
        let ghost ps = st_a.nodes()[parent].products();
        let ghost me = Column::Memory(edge);
        proof {
            assert(st_a.nodes().contains_key(parent));
        }
        let detached = self.detach(parent, edge);
        let ghost st_b = *self;
        let row = match detached {
            Some(r) => r,
            None => {
                proof {
                    assert(self.nodes()[parent].products() =~= ps) by {
                        assert forall|i: int| 0 <= i < ps.len() implies #[trigger] self.nodes()[parent].products()[i] == ps[i] by {
                            assert(!ps[i].contains(me));
                            assert(ps[i].remove(me) =~= ps[i]);
                        }
                    }
                    vstd::set_lib::lemma_set_subset_finite(st_a.edges().dom(), self.edges().dom());
                    assert(self.edges().dom() =~= st_a.edges().dom().remove(edge));
                }
                return Ghost(None);
            },
        };
        let ghost base_set = ps[row as int].remove(me);
        let ghost ready = edge_ready(ps, me, Column::Leaf(index), Set::empty());
        proof {
            if ready {
            assert(self.nodes()[parent].products() =~= ps.update(row as int, base_set)) by {
                assert forall|i: int| 0 <= i < ps.len() implies #[trigger] self.nodes()[parent].products()[i]
                    == ps.update(row as int, base_set)[i] by {
                    if i != row {
                        if ps[i].contains(me) {
                            assert(ps[row as int].contains(me));
                        }
                        assert(ps[i].remove(me) =~= ps[i]);
                    }
                }
            }
            }
        }
        let base = row_copy(graph_node(&self.structure, parent), row);
        proof {
            let ac = self.nodes()[parent];
            ac.lemma_wf();
            assert(crate::circuit::algebraic::row_ok(ac.rows()[row as int], ac.cols().len()));
            assert(ac.products()[row as int] == crate::circuit::algebraic::row_vars(ac.rows()[row as int], ac.cols()));
            assert(ac.products()[row as int] == ps[row as int].remove(me));
            assert(crate::circuit::algebraic::row_vars(base@, ac.cols()) == base_set);
        }
        let ghost ps_b = self.nodes()[parent].products();
        let ghost cols_b = self.nodes()[parent].cols();
        let leaf_col = self.add_leaf_column(parent, index);
        let ghost st_c = *self;
        let ghost cols_c = st_c.nodes()[parent].cols();
        proof {
            assert forall|q: int| 0 <= q < cols_b.len() implies #[trigger] cols_c[q] == cols_b[q] by {}
            crate::circuit::lift_values::lemma_row_vars_prefix(base@, cols_b, cols_c);
            crate::circuit::lift_values::lemma_row_vars_push_col(base@, cols_c, leaf_col);
            assert(crate::circuit::algebraic::row_vars(base@.push(leaf_col), cols_c) == base_set.insert(Column::Leaf(index)));
            vstd::set_lib::lemma_set_subset_finite(st_a.edges().dom(), st_b.edges().dom());
            assert(st_b.edges().dom() =~= st_a.edges().dom().remove(edge));
        }
        let mut b: usize = 0;
        while b < bare
            invariant
                self.wf(),
                b <= bare,
                no_self_loops(self.edges()),
                self.edges() == st_b.edges(),
                self.nodes().dom() == st_a.nodes().dom(),
                forall|n: u32| #[trigger] self.nodes().contains_key(n) && n != parent ==> self.nodes()[n] == st_a.nodes()[n],
                self.nodes().contains_key(parent),
                self.nodes()[parent].cols() == cols_c,
                row < ps.len(),
                leaf_col < cols_c.len(),
                forall|i: int| 0 <= i < base@.len() ==> #[trigger] base@[i] < cols_c.len(),
                crate::circuit::algebraic::row_vars(base@.push(leaf_col), cols_c) == base_set.insert(Column::Leaf(index)),
                self.nodes()[parent].products() == ps_b
                    + Seq::new(b as nat, |i: int| base_set.insert(Column::Leaf(index))),
                ps_b.len() == ps.len(),
                ps_b[row as int] == base_set,
                ready ==> ps_b == ps.update(row as int, base_set),
                self.value_size == st_a.value_size,
                self.dependencies == st_a.dependencies,
                self.partitioning == st_a.partitioning,
                self.queue == st_a.queue,
                self.targets == st_a.targets,
            decreases bare - b,
        {
            let cols = with_column(&base, leaf_col);
            let ghost before = self.nodes()[parent].products();
            self.push_row(parent, cols);
            proof {
                assert(self.nodes()[parent].products() =~= ps_b
                    + Seq::new((b + 1) as nat, |i: int| base_set.insert(Column::Leaf(index))));
            }
            b = b + 1;
        }
        let ghost grown0 = self.nodes()[parent].products();
        let ghost mut min: u32 = 0;
        if proper {
            let cols = with_column(&base, leaf_col);
            let r = self.push_row(parent, cols);
            let ghost st_p = *self;
            self.connect(parent, in_node, r);
            proof {
                min = choose|e: u32| {
                    &&& !st_p.edges().contains_key(e)
                    &&& self.edges() == st_p.edges().insert(e, (parent, in_node))
                    &&& self.nodes()[parent].cols() == st_p.nodes()[parent].cols().push(Column::Memory(e))
                    &&& self.nodes()[parent].products() == st_p.nodes()[parent].products().update(r as int,
                        st_p.nodes()[parent].products()[r as int].insert(Column::Memory(e)))
                };
                assert(self.nodes()[parent].products() =~= grown0
                    + seq![base_set.insert(Column::Leaf(index)).insert(Column::Memory(min))]);
            }
            self.enqueue(in_node);
        } else {
            proof {
                assert(grown0 =~= grown0 + Seq::<Set<Column>>::empty());
            }
        }
        let ghost grown = self.nodes()[parent].products();
        let ghost st_g = *self;
        proof {
            assert(cols_c[leaf_col as int] == Column::Leaf(index));
            let cg = st_g.nodes()[parent].cols();
            assert(cg.contains(Column::Leaf(index))) by {
                if proper {
                    assert(cg[leaf_col as int] == Column::Leaf(index));
                } else {
                    assert(cg == cols_c);
                }
            }
        }
        proof {
            assert(grown == ps_b + Seq::new(bare as nat, |i: int| base_set.insert(Column::Leaf(index)))
                + (if proper { seq![base_set.insert(Column::Leaf(index)).insert(Column::Memory(min))] }
                   else { Seq::<Set<Column>>::empty() }));
            assert(grown[row as int] == base_set);
            assert(st_g.nodes().dom() == st_a.nodes().dom());
            assert forall|n: u32| #[trigger] st_a.nodes().contains_key(n) && n != parent
                implies st_g.nodes()[n] == st_a.nodes()[n] by {
                assert(st_g.nodes().contains_key(n));
            }
        }
        let ghost mut mout: Option<u32> = None;
        match out_node {
            Some(o) => {
                self.connect(parent, o, row);
                proof {
                    let eo = choose|e: u32| {
                        &&& !st_g.edges().contains_key(e)
                        &&& self.edges() == st_g.edges().insert(e, (parent, o))
                        &&& self.nodes()[parent].cols() == st_g.nodes()[parent].cols().push(Column::Memory(e))
                        &&& self.nodes()[parent].products() == st_g.nodes()[parent].products().update(row as int,
                            st_g.nodes()[parent].products()[row as int].insert(Column::Memory(e)))
                    };
                    mout = Some(eo);
                }
                self.enqueue(o);
            },
            None => {
                self.drop_row(parent, row);
            },
        }
        proof {
            let cg = st_g.nodes()[parent].cols();
            let cf = self.nodes()[parent].cols();
            let q = choose|q: int| 0 <= q < cg.len() && cg[q] == Column::Leaf(index);
            assert(cf[q] == Column::Leaf(index));
            if ready {
                assert(self.nodes()[parent].products() == crate::circuit::lift_values::rewired(ps, row as int, me,
                    Column::Leaf(index), Column::Memory(min), crate::circuit::lift_values::memory_of(mout), bare as nat, proper));
            }
            assert forall|n: u32| #[trigger] st_a.nodes().contains_key(n) && n != parent
                implies self.nodes()[n] == st_a.nodes()[n] by {
                assert(st_g.nodes().contains_key(n));
                assert(self.nodes().contains_key(n));
            }
        }
        Ghost(Some((row as int, min, mout)))
    }
}

impl ReactiveCircuit {
    /// Lifts leaf `index` out of the circuit of `node` into its parents (a
    /// new one when it has none): the circuit is split into the minterms
    /// that hold the leaf, moved without it to a new node `I` (dropped when
    /// no minterm is left), and those that do not, moved to a new node `O`;
    /// in every parent, the minterm that referred to `node` is replaced by
    /// the same minterm times the leaf times `I`, plus the same minterm
    /// times the leaf once for every minterm that was the leaf alone, plus
    /// the same minterm times `O`; `node` is then removed.  Nothing changes
    /// when the circuit lacks the leaf; when no minterm holds it, or the
    /// graph has no room for the nodes and edges this needs, at most the new
    /// parent is made.  When every
    /// parent minterm that refers to `node` is the only one to, and holds
    /// neither the leaf nor another reference to `node` (`lift_ready`),
    /// every node that remains keeps its value.
    fn lift_from_node(&mut self, index: u32, node: u32)
        requires
            old(self).wf(),
            old(self).nodes().contains_key(node),
            no_self_loops(old(self).edges()),
        ensures
            final(self).wf(),
            no_self_loops(final(self).edges()),
            final(self).value_size == old(self).value_size,
            final(self).dependencies == old(self).dependencies,
            final(self).partitioning == old(self).partitioning,
            final(self).targets@.len() == old(self).targets@.len(),
            old(self).queue@.to_set().subset_of(final(self).queue@.to_set()),
            forall|n: u32| #[trigger] old(self).nodes().contains_key(n) && n != node ==> final(self).nodes().contains_key(n),
            final(self).nodes().contains_key(node) ==> final(self).nodes()[node] == old(self).nodes()[node],
            lift_ready(*old(self), node, index) ==> keeps_common_values(*old(self), *final(self)),
            !old(self).nodes()[node].cols().contains(Column::Leaf(index)) ==> *final(self) == *old(self),
            forall|m: u32| #[trigger] old(self).nodes().contains_key(m) && m != node
                && !(exists|e: u32| #[trigger] old(self).edges().contains_key(e) && old(self).edges()[e] == (m, node))
                ==> final(self).nodes()[m] == old(self).nodes()[m],
            target_tokens(*final(self)) == target_tokens(*old(self)),
            lift_room(*old(self), node) && minterm_holds(*old(self), node, index) ==> !final(self).nodes().contains_key(node),
            lift_ready(*old(self), node, index) ==> forall|i: int| 0 <= i < old(self).target_list().len()
                && #[trigger] target_liftable(*old(self), i, index) ==> target_value_kept(*old(self), *final(self), i),
            lift_room(*old(self), node) && minterm_holds(*old(self), node, index)
                ==> lifted_into_parents(*old(self), *final(self), node, index),
            lift_ready(*old(self), node, index) && rankable(old(self).edges()) ==> rankable(final(self).edges()),
    {
        let ghost room = lift_room(*old(self), node) && minterm_holds(*old(self), node, index);
        proof {
            if room {
                let i = choose|i: int| 0 <= i < old(self).nodes()[node].products().len()
                    && #[trigger] old(self).nodes()[node].products()[i].contains(Column::Leaf(index));
                crate::circuit::pruning::lemma_products_in_cols(old(self).nodes()[node], i);
            }
        }
        if !graph_node(&self.structure, node).is_in_circuit(index) {
            proof { lemma_keeps_common_same(*self); lemma_targets_same(*self, *self); }
            return;
        }
        let n_nodes = graph_node_count(&self.structure);
        let n_edges = graph_edge_count(&self.structure);
        if n_nodes >= 0xffff_fff0 || n_edges >= 0xffff_fff0 {
            proof { lemma_keeps_common_same(*self); lemma_targets_same(*self, *self); }
            return;
        }
        let ghost before_parent = *self;
        let parents = self.ensure_parent(node);
        proof {
            assert(self.nodes().contains_key(node));
            assert(self.nodes()[node] == old(self).nodes()[node]);
            assert forall|e: u32| #[trigger] self.edges().contains_key(e) implies self.edges()[e].0 != self.edges()[e].1 by {
                if !old(self).edges().contains_key(e) {
                    assert(!old(self).nodes().contains_key(parents@[0].0));
                }
            }
            assert(self.target_list().len() == old(self).target_list().len());
        }
        proof {
            if exists|f: u32| #[trigger] old(self).edges().contains_key(f) && old(self).edges()[f].1 == node {
                assert(target_tokens(*self) == target_tokens(*old(self)));
            } else {
                crate::circuit::lift_values::lemma_retarget_tokens(old(self).target_list(), node, parents@[0].0);
                assert(target_tokens(*self) == target_tokens(*old(self)));
            }
            if room {
                let ps = parents@.map_values(|p: (u32, u32)| p.1);
                assert forall|i: int| 0 <= i < ps.len() implies self.edges().dom().contains(#[trigger] ps[i]) by {
                    assert(self.edges().contains_key(parents@[i].1));
                }
                crate::circuit::lift_values::lemma_distinct_edges_len(ps, self.edges().dom());
                if exists|f: u32| #[trigger] old(self).edges().contains_key(f) && old(self).edges()[f].1 == node {
                    assert(self.nodes() == old(self).nodes());
                    assert(self.edges() == old(self).edges());
                } else {
                    let (p0, e0) = parents@[0];
                    assert(self.nodes().dom() =~= old(self).nodes().dom().insert(p0)) by {
                        assert(self.nodes().remove(p0) == old(self).nodes());
                        assert forall|n: u32| self.nodes().dom().contains(n) <==> old(self).nodes().dom().insert(p0).contains(n) by {
                            if n != p0 {
                                assert(self.nodes().remove(p0).dom().contains(n) == self.nodes().dom().contains(n));
                            }
                        }
                    }
                    assert(self.edges().dom() =~= old(self).edges().dom().insert(e0));
                }
                assert(self.nodes().dom().len() <= old(self).nodes().dom().len() + 1);
                assert(self.edges().dom().len() <= old(self).edges().dom().len() + 1);
            }
        }
        let ghost had_parents = exists|f: u32| #[trigger] old(self).edges().contains_key(f) && old(self).edges()[f].1 == node;
        proof {
            if had_parents {
                assert(self.nodes() == old(self).nodes());
                assert(self.edges() == old(self).edges());
            } else {
                let p0 = parents@[0].0;
                assert forall|n: u32| #[trigger] old(self).nodes().contains_key(n)
                    implies self.nodes().contains_key(n) && self.nodes()[n] == old(self).nodes()[n] by {
                    assert(n != p0);
                    assert(self.nodes().remove(p0)[n] == old(self).nodes()[n]);
                }
            }
            assert forall|n: u32| #[trigger] old(self).nodes().contains_key(n)
                implies self.nodes().contains_key(n) && self.nodes()[n] == old(self).nodes()[n] by {
                if !had_parents {
                    let p0 = parents@[0].0;
                    assert(n != p0);
                    assert(self.nodes().remove(p0)[n] == old(self).nodes()[n]);
                }
            }
            lemma_extension_keeps(*old(self), *self);
            if lift_ready(*old(self), node, index) {
                lemma_parent_made_ready(*old(self), *self, node, index, parents@[0].0, parents@[0].1, had_parents);
            }
            assert forall|e: u32| #[trigger] self.edges().contains_key(e) implies (old(self).edges().contains_key(e)
                && self.edges()[e] == old(self).edges()[e]) || (self.edges()[e].1 == node
                && !old(self).nodes().contains_key(self.edges()[e].0) && self.nodes().contains_key(self.edges()[e].0)) by {
                if !had_parents && e == parents@[0].1 {
                    assert(self.nodes().contains_key(parents@[0].0));
                }
            }
        }
        proof {
            if had_parents {
                lemma_targets_same(*old(self), *self);
            } else {
                assert(self.edges().contains_key(parents@[0].1));
                assert(self.nodes().contains_key(parents@[0].0));
                lemma_targets_after_parent(*old(self), *self, node, parents@[0].0, parents@[0].1);
                if rankable(old(self).edges()) {
                    lemma_parent_rankable(*old(self), *self, node, parents@[0].0, parents@[0].1);
                }
            }
        }
        let cols_len = graph_node(&self.structure, node).columns().len();
        let n_nodes = graph_node_count(&self.structure);
        let n_edges = graph_edge_count(&self.structure);
        if n_nodes >= 0xffff_fff0 || n_edges >= 0xffff_fff0 || cols_len >= 0x8000_0000 || parents.len() >= 0x8000_0000
            || (n_edges as u64) + 2 * (cols_len as u64) + (parents.len() as u64) >= 0xffff_fff0 {
            return;
        }
        let ghost mid = *self;
        let parts = graph_node(&self.structure, node).split(index);
        let ghost whole = mid.nodes()[node];
        proof {
            if room {
                let i = choose|i: int| 0 <= i < old(self).nodes()[node].products().len()
                    && #[trigger] old(self).nodes()[node].products()[i].contains(Column::Leaf(index));
                assert(whole.products()[i].contains(Column::Leaf(index)));
                whole.products().lemma_filter_contains(crate::circuit::algebraic::has_var(Column::Leaf(index), true), i);
                assert(whole.products().filter(crate::circuit::algebraic::has_var(Column::Leaf(index), true)).len() > 0);
            }
        }
        let in_circuit = match parts.0 {
            Some(c) => c,
            None => return,
        };
        let out_part = parts.1;
        proof {
            assert(whole.cols().contains(Column::Leaf(index)));
            assert forall|k: u32| #[trigger] in_circuit.cols().contains(Column::Memory(k)) implies mid.edges().contains_key(k) by {
                let q = choose|q: int| 0 <= q < in_circuit.cols().len() && in_circuit.cols()[q] == Column::Memory(k);
                crate::lemmas::lemma_filter_elem(whole.cols(), crate::circuit::algebraic::occurs(in_circuit.products()), q);
            }
            broadcast use vstd::seq_lib::group_filter_ensures;
            assert(in_circuit.cols().len() <= whole.cols().len());
        }
        let x_col = in_circuit.get_leaf(index);
        let bare = count_bare(&in_circuit, x_col);
        let ghost out_c = out_part;
        let out_node: Option<u32> = match out_part {
            Some(c) => {
                proof {
                    assert forall|k: u32| #[trigger] c.cols().contains(Column::Memory(k)) implies mid.edges().contains_key(k) by {
                        let q = choose|q: int| 0 <= q < c.cols().len() && c.cols()[q] == Column::Memory(k);
                        crate::lemmas::lemma_filter_elem(whole.cols(), crate::circuit::algebraic::occurs(c.products()), q);
                    }
                    broadcast use vstd::seq_lib::group_filter_ensures;
                    assert(c.cols().len() <= whole.cols().len());
                }
                let o = self.reattach(c, index);
                proof {
                    assert forall|e: u32| #[trigger] self.edges().contains_key(e) && !mid.edges().contains_key(e)
                        implies self.edges()[e].1 != node && self.edges()[e].0 == o by {
                        let k = choose|k: u32| #[trigger] c.cols().contains(Column::Memory(k)) && self.edges()[e].1 == mid.edges()[k].1;
                        let q = choose|q: int| 0 <= q < c.cols().len() && c.cols()[q] == Column::Memory(k);
                        crate::lemmas::lemma_filter_elem(whole.cols(), crate::circuit::algebraic::occurs(c.products()), q);
                        assert(whole.cols().contains(Column::Memory(k)));
                        assert(mid.edges()[k].0 == node);
                    }
                }
                Some(o)
            },
            None => None,
        };
        let ghost after_out = *self;
        proof {
            assert forall|e: u32| #[trigger] after_out.edges().contains_key(e) && !mid.edges().contains_key(e)
                implies after_out.edges()[e].1 != node && out_node == Some(after_out.edges()[e].0) by {
            }
            assert(out_node matches Some(o) ==> !mid.nodes().contains_key(o));
        }
        proof {
            assert forall|k: u32| #[trigger] in_circuit.cols().contains(Column::Memory(k)) implies self.edges().contains_key(k) by {
                assert(mid.edges().contains_key(k));
            }
        }
        let in_node = self.reattach(in_circuit, index);
        let ghost after_in = *self;
        proof {
            assert forall|e: u32| #[trigger] after_in.edges().contains_key(e) && !after_out.edges().contains_key(e)
                implies after_in.edges()[e].1 != node && after_in.edges()[e].0 == in_node by {
                let k = choose|k: u32| #[trigger] in_circuit.cols().contains(Column::Memory(k)) && after_in.edges()[e].1 == after_out.edges()[k].1;
                let q = choose|q: int| 0 <= q < in_circuit.cols().len() && in_circuit.cols()[q] == Column::Memory(k);
                crate::lemmas::lemma_filter_elem(whole.cols(), crate::circuit::algebraic::occurs(in_circuit.products()), q);
                assert(whole.cols().contains(Column::Memory(k)));
                assert(mid.edges()[k].0 == node);
            }
        }
        proof {
            assert forall|e: u32| #[trigger] after_out.edges().contains_key(e) && !mid.edges().contains_key(e)
                implies exists|k: u32| #[trigger] old(self).edges().contains_key(k)
                    && old(self).edges()[k] == (node, after_out.edges()[e].1) by {
                let oc = out_c->0;
                let k = choose|k: u32| #[trigger] oc.cols().contains(Column::Memory(k)) && after_out.edges()[e].1 == mid.edges()[k].1;
                let q = choose|q: int| 0 <= q < oc.cols().len() && oc.cols()[q] == Column::Memory(k);
                crate::lemmas::lemma_filter_elem(whole.cols(), crate::circuit::algebraic::occurs(oc.products()), q);
                assert(whole.cols().contains(Column::Memory(k)));
                assert(mid.edges().contains_key(k) && mid.edges()[k].0 == node);
                assert(old(self).edges().contains_key(k) && old(self).edges()[k] == mid.edges()[k]);
            }
            assert forall|e: u32| #[trigger] after_in.edges().contains_key(e) && !after_out.edges().contains_key(e)
                implies exists|k: u32| #[trigger] old(self).edges().contains_key(k)
                    && old(self).edges()[k] == (node, after_in.edges()[e].1) by {
                let k = choose|k: u32| #[trigger] in_circuit.cols().contains(Column::Memory(k)) && after_in.edges()[e].1 == after_out.edges()[k].1;
                let q = choose|q: int| 0 <= q < in_circuit.cols().len() && in_circuit.cols()[q] == Column::Memory(k);
                crate::lemmas::lemma_filter_elem(whole.cols(), crate::circuit::algebraic::occurs(in_circuit.products()), q);
                assert(whole.cols().contains(Column::Memory(k)));
                assert(mid.edges().contains_key(k) && mid.edges()[k].0 == node);
                assert(old(self).edges().contains_key(k) && old(self).edges()[k] == mid.edges()[k]);
            }
        }
        let proper = !graph_node(&self.structure, in_node).is_empty();
        if !proper {
            proof {
                assert forall|e: u32| #[trigger] self.edges().contains_key(e) implies self.edges()[e].1 != in_node by {
                    if after_out.edges().contains_key(e) {
                        assert(after_out.nodes().contains_key(after_out.edges()[e].1));
                    } else {
                        assert(self.edges()[e].0 == in_node);
                        assert(self.nodes().contains_key(self.edges()[e].1));
                    }
                }
            }
            self.remove_unreferenced(in_node);
        }
        proof {
            assert forall|e: u32| #[trigger] self.edges().contains_key(e) && self.edges()[e].1 == node
                implies exists|q: int| 0 <= q < parents@.len() && #[trigger] parents@[q].1 == e by {
                assert(after_in.edges().contains_key(e) && after_in.edges()[e] == self.edges()[e]);
                if !after_out.edges().contains_key(e) {
                    assert(false);
                }
                assert(after_out.edges()[e] == self.edges()[e]);
                if !mid.edges().contains_key(e) {
                    assert(false);
                }
                assert(mid.edges()[e] == self.edges()[e]);
            }
            assert forall|q: int| 0 <= q < parents@.len() implies (#[trigger] parents@[q]).0 != in_node
                && out_node != Some(parents@[q].0) && parents@[q].0 != node by {
                assert(mid.edges().contains_key(parents@[q].1));
                assert(mid.nodes().contains_key(parents@[q].0));
                assert(after_out.nodes().contains_key(parents@[q].0));
            }
        }
        let ghost ready = *self;
        let ghost above: Set<u32> = mid.nodes().dom().difference(old(self).nodes().dom());
        let ghost below: Set<u32> = ready.nodes().dom().difference(mid.nodes().dom());
        let ghost law = lift_ready(*old(self), node, index);
        proof {
            assert forall|n: u32| #[trigger] mid.nodes().contains_key(n)
                implies ready.nodes().contains_key(n) && ready.nodes()[n] == mid.nodes()[n] by {
                assert(after_out.nodes().contains_key(n));
                assert(after_in.nodes().contains_key(n));
            }
            assert forall|e: u32| #[trigger] mid.edges().contains_key(e)
                implies ready.edges().contains_key(e) && ready.edges()[e] == mid.edges()[e] by {
                assert(after_out.edges().contains_key(e));
                assert(after_in.edges().contains_key(e));
            }
            assert forall|e: u32| #[trigger] ready.edges().contains_key(e) implies (mid.edges().contains_key(e)
                && ready.edges()[e] == mid.edges()[e]) || (below.contains(ready.edges()[e].0)
                && exists|k: u32| #[trigger] old(self).edges().contains_key(k) && old(self).edges()[k] == (node, ready.edges()[e].1)) by {
                assert(after_in.edges().contains_key(e) && after_in.edges()[e] == ready.edges()[e]);
                if !mid.edges().contains_key(e) {
                    if after_out.edges().contains_key(e) {
                        assert(after_out.edges()[e] == ready.edges()[e]);
                    }
                    assert(ready.nodes().contains_key(ready.edges()[e].0));
                }
            }
            assert forall|e: u32| #[trigger] mid.edges().contains_key(e) implies (old(self).edges().contains_key(e)
                && mid.edges()[e] == old(self).edges()[e]) || (mid.edges()[e].1 == node && above.contains(mid.edges()[e].0)) by {}
            assert forall|n: u32| #[trigger] old(self).nodes().contains_key(n) implies !above.contains(n) && !below.contains(n) by {}
            assert forall|r: Map<u32, nat>| ranked(old(self).edges(), r) implies
                #[trigger] ranked(ready.edges(), lift_rank(r, node, above, below)) by {
                lemma_lift_ranked(*old(self), mid, ready, r, node, above, below);
            }
        }
        proof {
            assert(in_circuit.cols().contains(Column::Leaf(index))) by {
                let ins = whole.products().filter(crate::circuit::algebraic::has_var(Column::Leaf(index), true));
                assert(in_circuit.products() == ins);
                assert(ins.len() > 0);
                whole.products().lemma_filter_pred(crate::circuit::algebraic::has_var(Column::Leaf(index), true), 0);
                assert(crate::circuit::algebraic::occurs(in_circuit.products())(Column::Leaf(index)));
                let q = choose|q: int| 0 <= q < whole.cols().len() && whole.cols()[q] == Column::Leaf(index);
                whole.cols().lemma_filter_contains(crate::circuit::algebraic::occurs(in_circuit.products()), q);
            }
            let xc = x_col->0;
            assert(xc < in_circuit.cols().len() && in_circuit.cols()[xc as int] == Column::Leaf(index));
            if proper {
                assert(moved_node(ready, in_node, in_circuit, index, after_out.edges(), after_in.edges()));
            } else {
                assert(strip_leaf(in_circuit, index).1.len() == 0);
            }
            if out_c is Some {
                let oc = out_c->0;
                let on = out_node->0;
                assert(after_out.nodes().contains_key(on));
                assert(after_in.nodes()[on] == after_out.nodes()[on]);
                assert(on != in_node);
                assert(ready.nodes()[on] == after_out.nodes()[on]);
                assert forall|m: u32| #[trigger] after_out.edges().contains_key(m) && !mid.edges().contains_key(m)
                    && after_out.edges()[m].0 == on implies ready.edges().contains_key(m) && ready.edges()[m] == after_out.edges()[m] by {
                    assert(after_in.edges().contains_key(m));
                }
                assert(moved_node(ready, on, oc, index, mid.edges(), after_out.edges()));
            }
            assert forall|k: u32| #[trigger] whole.cols().contains(Column::Memory(k)) implies ready.edges().contains_key(k)
                && after_out.edges().contains_key(k) && ready.edges()[k] == after_out.edges()[k]
                && mid.edges().contains_key(k) && ready.edges()[k] == mid.edges()[k] by {
                assert(mid.edges().contains_key(k));
                assert(after_out.edges().contains_key(k) && after_out.edges()[k] == mid.edges()[k]);
            }
            assert(ready.nodes()[node] == whole);
            assert forall|r: Map<u32, nat>, val: spec_fn(u32) -> int| ranked(old(self).edges(), r) implies
                #[trigger] ready.value(lift_rank(r, node, above, below), val, node) == val(index) * ((if proper {
                    ready.value(lift_rank(r, node, above, below), val, in_node) } else { 0 }) + bare)
                    + (match out_node { Some(on) => ready.value(lift_rank(r, node, above, below), val, on), None => 0 }) by {
                let rho = lift_rank(r, node, above, below);
                lemma_lifted_identity(ready, rho, val, node, index, in_circuit, out_c, in_node, out_node, proper, bare as nat,
                    xc, after_out.edges(), after_in.edges(), mid.edges(), after_out.edges());
            }
        }
        proof {
            if law {
                assert(lift_ready(mid, node, index));
                assert forall|q: int| 0 <= q < parents@.len() implies #[trigger] edge_ready(
                    self.nodes()[parents@[q].0].products(), Column::Memory(parents@[q].1), Column::Leaf(index),
                    pending_memories(parents@, 0)) by {
                    let e = parents@[q].1;
                    assert(mid.edges().contains_key(e) && mid.edges()[e] == (parents@[q].0, node));
                    assert(pending_memories(parents@, 0).subset_of(memories_into(mid, node))) by {
                        assert forall|c: Column| #[trigger] pending_memories(parents@, 0).contains(c)
                            implies memories_into(mid, node).contains(c) by {
                            let q2 = choose|q2: int| 0 <= q2 < parents@.len() && c == Column::Memory(#[trigger] parents@[q2].1);
                            assert(mid.edges().contains_key(parents@[q2].1));
                        }
                    }
                    assert(self.nodes()[parents@[q].0] == mid.nodes()[parents@[q].0]);
                    lemma_edge_ready_weaken(mid.nodes()[parents@[q].0].products(), Column::Memory(e), Column::Leaf(index),
                        memories_into(mid, node), pending_memories(parents@, 0));
                }
            }
        }
        let mut j: usize = 0;
        while j < parents.len()
            invariant
                self.wf(),
                no_self_loops(self.edges()),
                j <= parents@.len(),
                self.nodes().contains_key(node),
                self.value_size == old(self).value_size,
                self.dependencies == old(self).dependencies,
                self.partitioning == old(self).partitioning,
                self.targets@.len() == old(self).targets@.len(),
                old(self).queue@.to_set().subset_of(self.queue@.to_set()),
                forall|n: u32| #[trigger] old(self).nodes().contains_key(n) && n != node ==> self.nodes().contains_key(n),
                forall|q: int| j <= q < parents@.len() ==> self.edges().contains_key(#[trigger] parents@[q].1)
                    && self.edges()[parents@[q].1] == (parents@[q].0, node),
                forall|e: u32| #[trigger] self.edges().contains_key(e) && self.edges()[e].1 == node
                    ==> exists|q: int| j <= q < parents@.len() && #[trigger] parents@[q].1 == e,
                parents@.map_values(|p: (u32, u32)| p.1).no_duplicates(),
                proper ==> self.nodes().contains_key(in_node),
                out_node matches Some(o) ==> self.nodes().contains_key(o) && o != node,
                in_node != node,
                forall|q: int| 0 <= q < parents@.len() ==> (#[trigger] parents@[q]).0 != in_node
                    && out_node != Some(parents@[q].0) && parents@[q].0 != node,
                self.nodes().dom().len() < u32::MAX,
                self.edges().dom().len() + parents@.len() - j < 0xffff_fff0,
                self.nodes().dom() == ready.nodes().dom(),
                self.targets == mid.targets,
                forall|q: int| j <= q < parents@.len() && old(self).nodes().contains_key(#[trigger] parents@[q].0)
                    && one_edge_between(old(self).edges(), parents@[q].0, node)
                    ==> self.nodes()[parents@[q].0] == old(self).nodes()[parents@[q].0],
                forall|q: int| 0 <= q < j && old(self).nodes().contains_key(#[trigger] parents@[q].0)
                    && one_edge_between(old(self).edges(), parents@[q].0, node)
                    && (exists|i: int| 0 <= i < old(self).nodes()[parents@[q].0].products().len()
                        && #[trigger] old(self).nodes()[parents@[q].0].products()[i].contains(Column::Memory(parents@[q].1)))
                    ==> self.nodes()[parents@[q].0].cols().contains(Column::Leaf(index)),
                target_tokens(*self) == target_tokens(*old(self)),
                proper ==> below.contains(in_node),
                out_node matches Some(o) ==> below.contains(o),
                !above.contains(node),
                !below.contains(node),
                forall|n: u32| #[trigger] below.contains(n) ==> !above.contains(n),
                forall|m: u32| #[trigger] old(self).nodes().contains_key(m) && m != node
                    && !(exists|e: u32| #[trigger] old(self).edges().contains_key(e) && old(self).edges()[e] == (m, node))
                    ==> self.nodes()[m] == old(self).nodes()[m],
                forall|q: int| 0 <= q < parents@.len() && old(self).nodes().contains_key(#[trigger] parents@[q].0)
                    ==> old(self).edges().contains_key(parents@[q].1) && old(self).edges()[parents@[q].1] == (parents@[q].0, node),
                law ==> forall|r: Map<u32, nat>| ranked(old(self).edges(), r)
                    ==> #[trigger] ranked(self.edges(), lift_rank(r, node, above, below)),
                law ==> forall|r: Map<u32, nat>, val: spec_fn(u32) -> int, m: u32| ranked(old(self).edges(), r)
                    && ready.nodes().contains_key(m) ==> #[trigger] self.value(lift_rank(r, node, above, below), val, m)
                        == ready.value(lift_rank(r, node, above, below), val, m),
                law ==> forall|r: Map<u32, nat>, val: spec_fn(u32) -> int| ranked(old(self).edges(), r) ==>
                    #[trigger] ready.value(lift_rank(r, node, above, below), val, node) == val(index) * ((if proper {
                        ready.value(lift_rank(r, node, above, below), val, in_node) } else { 0 }) + bare)
                        + (match out_node { Some(on) => ready.value(lift_rank(r, node, above, below), val, on), None => 0 }),
                law ==> forall|q: int| j <= q < parents@.len() ==> #[trigger] edge_ready(
                    self.nodes()[parents@[q].0].products(), Column::Memory(parents@[q].1), Column::Leaf(index),
                    pending_memories(parents@, j as int)),
            decreases parents@.len() - j,
        {
            let (parent, edge) = parents[j];
            let ghost st_a = *self;
            proof {
                assert(parents@[j as int] == (parent, edge));
                assert(self.edges().contains_key(edge) && self.edges()[edge] == (parent, node));
                assert(self.nodes().contains_key(parent));
            }
            let res = self.rewire_parent(index, node, parent, edge, in_node, out_node, proper, bare);
            let ghost st_f = *self;
            proof {
                assert forall|q: int| j + 1 <= q < parents@.len() && old(self).nodes().contains_key(#[trigger] parents@[q].0)
                    && one_edge_between(old(self).edges(), parents@[q].0, node)
                    implies self.nodes()[parents@[q].0] == old(self).nodes()[parents@[q].0] by {
                    if parents@[q].0 == parent {
                        assert(parents@.map_values(|p: (u32, u32)| p.1)[q] != parents@.map_values(|p: (u32, u32)| p.1)[j as int]);
                        assert(old(self).edges().contains_key(parents@[q].1));
                        assert(old(self).edges().contains_key(parents@[j as int].1));
                    }
                }
                assert forall|q: int| 0 <= q < j + 1 && old(self).nodes().contains_key(#[trigger] parents@[q].0)
                    && one_edge_between(old(self).edges(), parents@[q].0, node)
                    && (exists|i: int| 0 <= i < old(self).nodes()[parents@[q].0].products().len()
                        && #[trigger] old(self).nodes()[parents@[q].0].products()[i].contains(Column::Memory(parents@[q].1)))
                    implies self.nodes()[parents@[q].0].cols().contains(Column::Leaf(index)) by {
                    if q == j {
                        let i = choose|i: int| 0 <= i < old(self).nodes()[parents@[q].0].products().len()
                            && #[trigger] old(self).nodes()[parents@[q].0].products()[i].contains(Column::Memory(parents@[q].1));
                        assert(st_a.nodes()[parent] == old(self).nodes()[parent]);
                        assert(st_a.nodes()[parent].products()[i].contains(Column::Memory(edge)));
                        assert(res@ is Some);
                    } else if parents@[q].0 == parent {
                        assert(parents@.map_values(|p: (u32, u32)| p.1)[q] != parents@.map_values(|p: (u32, u32)| p.1)[j as int]);
                        assert(old(self).edges().contains_key(parents@[q].1));
                        assert(old(self).edges().contains_key(parents@[j as int].1));
                    }
                }
            }
            proof {
                assert forall|q: int| j + 1 <= q < parents@.len() implies self.edges().contains_key(#[trigger] parents@[q].1)
                    && self.edges()[parents@[q].1] == (parents@[q].0, node) by {
                    assert(parents@.map_values(|p: (u32, u32)| p.1)[q] != parents@.map_values(|p: (u32, u32)| p.1)[j as int]);
                }
                assert forall|e: u32| #[trigger] self.edges().contains_key(e) && self.edges()[e].1 == node
                    implies exists|q: int| j + 1 <= q < parents@.len() && #[trigger] parents@[q].1 == e by {
                    assert(st_a.edges().contains_key(e) && e != edge);
                    let q = choose|q: int| j <= q < parents@.len() && #[trigger] parents@[q].1 == e;
                    assert(q != j);
                }
                if law {
                    assert(edge_ready(st_a.nodes()[parents@[j as int].0].products(), Column::Memory(parents@[j as int].1),
                        Column::Leaf(index), pending_memories(parents@, j as int)));
                    lemma_edge_ready_weaken(st_a.nodes()[parent].products(), Column::Memory(edge), Column::Leaf(index),
                        pending_memories(parents@, j as int), Set::empty());
                    lemma_lift_step_values(st_a, st_f, *old(self), ready, node, parent, edge, index, in_node, out_node, proper,
                        bare as nat, above, below, res@);
                    lemma_lift_step_ready(st_a, st_f, parents@, j as int, node, parent, edge, index, in_node, out_node, proper,
                        bare as nat, res@);
                }
            }
            j = j + 1;
        }
        let ghost st_end = *self;
        self.remove_unreferenced(node);
        proof {
            assert forall|e: u32| #[trigger] old(self).edges().contains_key(e) && old(self).edges()[e].1 == node
                && one_edge_between(old(self).edges(), old(self).edges()[e].0, node)
                && (exists|i: int| 0 <= i < old(self).nodes()[old(self).edges()[e].0].products().len()
                    && #[trigger] old(self).nodes()[old(self).edges()[e].0].products()[i].contains(Column::Memory(e)))
                implies self.nodes()[old(self).edges()[e].0].cols().contains(Column::Leaf(index)) by {
                assert(had_parents);
                assert(mid.edges().contains_key(e) && mid.edges()[e].1 == node);
                let q = choose|q: int| 0 <= q < parents@.len() && #[trigger] parents@[q].1 == e;
                assert(mid.edges()[parents@[q].1] == (parents@[q].0, node));
                assert(old(self).nodes().contains_key(parents@[q].0));
                assert(parents@[q].0 != node);
            }
        }
        proof {
            if law {
                assert forall|e: u32| #[trigger] st_end.edges().contains_key(e) implies st_end.edges()[e].1 != node by {
                    if st_end.edges()[e].1 == node {
                        let q = choose|q: int| j <= q < parents@.len() && #[trigger] parents@[q].1 == e;
                    }
                }
                lemma_lift_final_values(*old(self), mid, ready, st_end, *self, node, above, below);
                if rankable(old(self).edges()) {
                    let r = choose|r: Map<u32, nat>| #[trigger] ranked(old(self).edges(), r);
                    let rho = lift_rank(r, node, above, below);
                    assert(ranked(st_end.edges(), rho));
                    assert forall|e: u32| #[trigger] self.edges().contains_key(e)
                        implies rho[self.edges()[e].1] < rho[self.edges()[e].0] by {
                        assert(st_end.edges().contains_key(e));
                    }
                    assert(ranked(self.edges(), rho));
                }
                assert forall|i: int| 0 <= i < old(self).target_list().len() && #[trigger] target_liftable(*old(self), i, index)
                    implies target_value_kept(*old(self), *self, i) by {
                    let n = old(self).target_list()[i].1;
                    assert(self.target_list()[i] == mid.target_list()[i]);
                    if n == node {
                        assert(crate::circuit::semantics::holds_leaf(*old(self), node, index));
                        assert(!had_parents);
                        lemma_lift_parent_value(*old(self), mid, ready, st_end, *self, node, above, below,
                            parents@[0].0, parents@[0].1);
                    } else {
                        assert(mid.target_list()[i].1 == n);
                        assert(self.nodes().contains_key(n));
                    }
                }
            }
        }
    }
}

impl ReactiveCircuit {
    /// Lifts leaf `index` out of every circuit that depends on it and holds
    /// it into the parents of that circuit (see `lift_from_node`), then
    /// recomputes the dependencies.  No edge may lead from a node to itself.
    /// Where at most one listed circuit holds the leaf, it is ready for the
    /// lift and none of its parents is listed after it (`lift_leaf_ready`),
    /// every node that remains keeps its value, and every target keeps its
    /// value unless it is on the lifted circuit and that circuit has parents
    /// (`target_liftable`): the target of a lifted circuit without parents
    /// moves to the new parent, which takes the circuit's value.  The target
    /// tokens stay as they were.  Under the same condition, the circuit that
    /// held the leaf in a minterm is gone afterwards, unless the graph is
    /// too large (`lift_room`), and the leaf is held by each of its parents
    /// that has one edge into it, used by a minterm (`lifted_into_parents`);
    /// where it is the single listed circuit, it is gone in any case.  In
    /// every case the leaf is lifted out of each listed circuit in turn, as
    /// `lift_from_node` does it (`lifted_along`); by
    /// `law_ready_lifts_keep_target`, a target keeps its value whenever
    /// each of those lifts is ready for it.
    pub fn lift_leaf(&mut self, index: u32)
        requires
            old(self).wf(),
            no_self_loops(old(self).edges()),
            index < old(self).dependencies@.len(),
            old(self).dependencies@.len() <= u32::MAX,
        ensures
            final(self).wf(),
            no_self_loops(final(self).edges()),
            final(self).value_size == old(self).value_size,
            final(self).partitioning == old(self).partitioning,
            final(self).targets@.len() == old(self).targets@.len(),
            final(self).dependencies@.len() == old(self).dependencies@.len(),
            forall|l: int| 0 <= l < final(self).dependencies@.len() ==> (#[trigger] final(self).dependencies@[l])@.to_set()
                == leaf_dependents(final(self).nodes(), final(self).edges(), l as u32),
            old(self).queue@.to_set().subset_of(final(self).queue@.to_set()),
            forall|n: u32| #[trigger] old(self).nodes().contains_key(n) && !old(self).dependencies@[index as int]@.contains(n)
                ==> final(self).nodes().contains_key(n),
            lift_leaf_ready(*old(self), index, old(self).dependencies@[index as int]@)
                ==> keeps_common_values(*old(self), *final(self)),
            target_tokens(*final(self)) == target_tokens(*old(self)),
            old(self).dependencies@[index as int]@.len() == 1
                && lift_room(*old(self), old(self).dependencies@[index as int]@[0])
                && minterm_holds(*old(self), old(self).dependencies@[index as int]@[0], index)
                ==> !final(self).nodes().contains_key(old(self).dependencies@[index as int]@[0]),
            lift_leaf_ready(*old(self), index, old(self).dependencies@[index as int]@)
                ==> forall|i: int| 0 <= i < old(self).target_list().len() && #[trigger] target_liftable(*old(self), i, index)
                    ==> target_value_kept(*old(self), *final(self), i),
            lift_leaf_ready(*old(self), index, old(self).dependencies@[index as int]@)
                ==> forall|q: int| 0 <= q < old(self).dependencies@[index as int]@.len()
                    && lift_room(*old(self), #[trigger] old(self).dependencies@[index as int]@[q])
                    && minterm_holds(*old(self), old(self).dependencies@[index as int]@[q], index)
                    ==> !final(self).nodes().contains_key(old(self).dependencies@[index as int]@[q]),
            lift_leaf_ready(*old(self), index, old(self).dependencies@[index as int]@)
                ==> forall|q: int| 0 <= q < old(self).dependencies@[index as int]@.len()
                    && lift_room(*old(self), #[trigger] old(self).dependencies@[index as int]@[q])
                    && minterm_holds(*old(self), old(self).dependencies@[index as int]@[q], index)
                    ==> lifted_into_parents(*old(self), *final(self), old(self).dependencies@[index as int]@[q], index),
            exists|trace: Seq<ReactiveCircuit>| #[trigger] lifted_along(trace, *old(self), *final(self),
                old(self).dependencies@[index as int]@, index),
    {
        let ghost listed = old(self).dependencies@[index as int]@;
        let ghost law = lift_leaf_ready(*old(self), index, listed);
        let ghost mut lifted = false;
        let ghost mut hidx: int = 0;
        let ghost mut trace: Seq<ReactiveCircuit> = seq![*old(self)];
        proof {
            assert(crate::circuit::reactive::increasing(listed));
        }
        let mut k: usize = 0;
        while k < self.dependencies[index as usize].len()
            invariant
                self.wf(),
                no_self_loops(self.edges()),
                index < self.dependencies@.len(),
                self.dependencies == old(self).dependencies,
                listed == self.dependencies@[index as int]@,
                k <= listed.len(),
                self.value_size == old(self).value_size,
                self.partitioning == old(self).partitioning,
                self.targets@.len() == old(self).targets@.len(),
                old(self).queue@.to_set().subset_of(self.queue@.to_set()),
                forall|n: u32| #[trigger] old(self).nodes().contains_key(n) && !listed.contains(n) ==> self.nodes().contains_key(n),
                crate::circuit::reactive::increasing(listed),
                law == lift_leaf_ready(*old(self), index, listed),
                target_tokens(*self) == target_tokens(*old(self)),
                k == 0 ==> *self == *old(self),
                k >= 1 && listed.len() == 1 && lift_room(*old(self), listed[0]) && minterm_holds(*old(self), listed[0], index)
                    ==> !self.nodes().contains_key(listed[0]),
                law ==> !lifted ==> *self == *old(self),
                law ==> forall|q: int| 0 <= q < k && lift_room(*old(self), #[trigger] listed[q])
                    && minterm_holds(*old(self), listed[q], index) ==> !self.nodes().contains_key(listed[q]),
                law ==> lifted ==> 0 <= hidx < k && crate::circuit::semantics::holds_leaf(*old(self), listed[hidx], index),
                trace.len() == k + 1,
                trace[0] == *old(self),
                trace[k as int] == *self,
                forall|j: int| 0 <= j < k ==> #[trigger] listed_lift(trace[j], trace[j + 1], listed[j], index),
                law ==> forall|q: int| 0 <= q < k && lift_room(*old(self), #[trigger] listed[q])
                    && minterm_holds(*old(self), listed[q], index) ==> lifted_into_parents(*old(self), *self, listed[q], index),
                old(self).wf(),
                law ==> lifted ==> keeps_common_values(*old(self), *self),
                law ==> lifted ==> forall|i: int| 0 <= i < old(self).target_list().len()
                    && #[trigger] target_liftable(*old(self), i, index) ==> target_value_kept(*old(self), *self, i),
                law ==> lifted ==> forall|q: int| k <= q < listed.len() ==> !crate::circuit::semantics::holds_leaf(*self,
                    #[trigger] listed[q], index),
            decreases listed.len() - k,
        {
            let node = self.dependencies[index as usize][k];
            proof { assert(listed[k as int] == node); }
            let ghost pre = *self;
            let ghost was = lifted;
            if self.contains_node(node) {
                let ghost c = *self;
                self.lift_from_node(index, node);
                proof {
                    if law {
                        if !lifted {
                            if crate::circuit::semantics::holds_leaf(*old(self), node, index) {
                                assert(crate::circuit::semantics::holds_leaf(*old(self), listed[k as int], index));
                                assert(lift_ready(*old(self), node, index));
                                assert(lift_ready(c, node, index));
                                lemma_keeps_common_same_start(*old(self), c, *self);
                                assert forall|q: int| k + 1 <= q < listed.len() implies !crate::circuit::semantics::holds_leaf(
                                    *self, #[trigger] listed[q], index) by {
                                    let m = listed[q];
                                    assert(listed[k as int] < listed[q]);
                                    assert(old(self).nodes().contains_key(m));
                                    assert(!(exists|e: u32| #[trigger] old(self).edges().contains_key(e)
                                        && old(self).edges()[e] == (listed[q], listed[k as int])));
                                    assert(self.nodes()[m] == c.nodes()[m]);
                                    if crate::circuit::semantics::holds_leaf(*old(self), m, index) {
                                        assert(listed[q] == listed[k as int]);
                                    }
                                }
                                assert(lift_room(*old(self), node) && minterm_holds(*old(self), node, index)
                                    ==> !self.nodes().contains_key(node));
                                assert(lift_room(*old(self), node) && minterm_holds(*old(self), node, index)
                                    ==> lifted_into_parents(*old(self), *self, node, index));
                                lifted = true;
                                hidx = k as int;
                            } else {
                                assert(*self == c);
                            }
                        } else {
                            assert(!crate::circuit::semantics::holds_leaf(c, listed[k as int], index));
                            assert(*self == c);
                        }
                    }
                }
            }
            proof {
                assert(listed_lift(pre, *self, node, index));
                let next = trace.push(*self);
                assert forall|j: int| 0 <= j < k + 1 implies #[trigger] listed_lift(next[j], next[j + 1], listed[j], index) by {
                    if j < k {
                        assert(next[j] == trace[j] && next[j + 1] == trace[j + 1]);
                    }
                }
                trace = next;
            }
            proof {
                if law {
                    assert forall|q: int| 0 <= q < k + 1 && lift_room(*old(self), #[trigger] listed[q])
                        && minterm_holds(*old(self), listed[q], index) implies !self.nodes().contains_key(listed[q]) by {
                        let i = choose|i: int| 0 <= i < old(self).nodes()[listed[q]].products().len()
                            && #[trigger] old(self).nodes()[listed[q]].products()[i].contains(Column::Leaf(index));
                        assert(old(self).nodes().contains_key(listed[q]));
                        crate::circuit::pruning::lemma_products_in_cols(old(self).nodes()[listed[q]], i);
                        assert(crate::circuit::semantics::holds_leaf(*old(self), listed[q], index));
                        if lifted && !was {
                            if q < k {
                                assert(listed[q] < listed[k as int]);
                                assert(crate::circuit::semantics::holds_leaf(*old(self), listed[k as int], index));
                            }
                        } else {
                            assert(*self == pre);
                            if q == k {
                                if was {
                                    assert(listed[hidx] < listed[k as int]);
                                } else {
                                    assert(pre == *old(self));
                                }
                            }
                        }
                    }
                    assert forall|q: int| 0 <= q < k + 1 && lift_room(*old(self), #[trigger] listed[q])
                        && minterm_holds(*old(self), listed[q], index) implies lifted_into_parents(*old(self), *self, listed[q], index) by {
                        let i = choose|i: int| 0 <= i < old(self).nodes()[listed[q]].products().len()
                            && #[trigger] old(self).nodes()[listed[q]].products()[i].contains(Column::Leaf(index));
                        assert(old(self).nodes().contains_key(listed[q]));
                        crate::circuit::pruning::lemma_products_in_cols(old(self).nodes()[listed[q]], i);
                        assert(crate::circuit::semantics::holds_leaf(*old(self), listed[q], index));
                        if lifted && !was {
                            if q < k {
                                assert(listed[q] < listed[k as int]);
                                assert(crate::circuit::semantics::holds_leaf(*old(self), listed[k as int], index));
                            }
                        } else {
                            assert(*self == pre);
                            if q == k {
                                if was {
                                    assert(listed[hidx] < listed[k as int]);
                                } else {
                                    assert(pre == *old(self));
                                }
                            } else {
                                assert(lifted_into_parents(*old(self), pre, listed[q], index));
                            }
                        }
                    }
                }
            }
            k = k + 1;
        }
        let ghost before_deps = *self;
        self.update_dependencies();
        proof {
            assert(lifted_along(trace, *old(self), *self, listed, index));
        }
        proof {
            if law {
                if lifted {
                    lemma_keeps_common_same_graph(*old(self), before_deps, *self);
                    assert forall|i: int| 0 <= i < old(self).target_list().len() && #[trigger] target_liftable(*old(self), i, index)
                        implies target_value_kept(*old(self), *self, i) by {
                        assert(target_value_kept(*old(self), before_deps, i));
                        assert(self.nodes() == before_deps.nodes() && self.edges() == before_deps.edges());
                        assert(self.target_list() == before_deps.target_list());
                        let m = self.target_list()[i].1;
                        let n = old(self).target_list()[i].1;
                        assert forall|r: Map<u32, nat>, r2: Map<u32, nat>, val: spec_fn(u32) -> int|
                            ranked(old(self).edges(), r) && ranked(self.edges(), r2)
                            implies #[trigger] self.value(r2, val, m) == #[trigger] old(self).value(r, val, n) by {
                            assert(self.value(r2, val, m) == before_deps.value(r2, val, m));
                            assert(before_deps.value(r2, val, m) == old(self).value(r, val, n));
                        }
                    }
                } else {
                    lemma_keeps_common_same(*old(self));
                    lemma_keeps_common_same_graph(*old(self), *old(self), *self);
                    lemma_targets_same(*old(self), *self);
                }
            }
        }
    }
}

/// Whether every lift along `trace` that moves leaf `x` is ready
/// (`lift_ready`) and leaves target `i` where its value can follow
/// (`target_liftable`), in the circuit it starts from.
pub open spec fn lifts_ready_for(trace: Seq<ReactiveCircuit>, listed: Seq<u32>, x: u32, i: int) -> bool {
    forall|k: int| 0 <= k < listed.len() && #[trigger] crate::circuit::semantics::holds_leaf(trace[k], listed[k], x)
        ==> lift_ready(trace[k], listed[k], x) && target_liftable(trace[k], i, x)
}

proof fn lemma_lifts_keep_target(trace: Seq<ReactiveCircuit>, listed: Seq<u32>, x: u32, i: int, k: int)
    requires
        trace.len() == listed.len() + 1,
        forall|j: int| 0 <= j < listed.len() ==> #[trigger] listed_lift(trace[j], trace[j + 1], listed[j], x),
        lifts_ready_for(trace, listed, x, i),
        trace[0].wf(),
        rankable(trace[0].edges()),
        0 <= i < trace[0].target_list().len(),
        trace[0].nodes().contains_key(trace[0].target_list()[i].1),
        0 <= k <= listed.len(),
    ensures
        target_value_kept(trace[0], trace[k], i),
        rankable(trace[k].edges()),
        trace[k].target_list().len() == trace[0].target_list().len(),
    decreases k,
{
    if k == 0 {
        lemma_targets_same(trace[0], trace[0]);
    } else {
        let j = k - 1;
        lemma_lifts_keep_target(trace, listed, x, i, j);
        assert(listed_lift(trace[j], trace[j + 1], listed[j], x));
        assert(trace[j + 1] == trace[k]);
        let c = trace[j];
        let f = trace[k];
        if c.nodes().contains_key(listed[j]) && c.nodes()[listed[j]].cols().contains(Column::Leaf(x)) {
            assert(crate::circuit::semantics::holds_leaf(c, listed[j], x));
            assert(lift_ready(c, listed[j], x) && target_liftable(c, i, x));
            assert(target_value_kept(c, f, i));
            lemma_target_kept_trans(trace[0], c, f, i);
            assert(target_tokens(f) == target_tokens(c));
            assert(f.target_list().len() == target_tokens(f).len());
        }
    }
}

/// Lifting a leaf keeps the value of a target, the target following the
/// circuit it is on to the new parent, whenever each lift on the way is
/// ready for it (`lifts_ready_for`), on a circuit that can be ranked.
pub proof fn law_ready_lifts_keep_target(trace: Seq<ReactiveCircuit>, before: ReactiveCircuit, after: ReactiveCircuit,
    listed: Seq<u32>, x: u32, i: int)
    requires
        lifted_along(trace, before, after, listed, x),
        lifts_ready_for(trace, listed, x, i),
        before.wf(),
        rankable(before.edges()),
        0 <= i < before.target_list().len(),
        before.nodes().contains_key(before.target_list()[i].1),
    ensures
        target_value_kept(before, after, i),
{
    lemma_lifts_keep_target(trace, listed, x, i, listed.len() as int);
    let last = trace[listed.len() as int];
    assert(after.nodes() == last.nodes() && after.edges() == last.edges());
    assert(after.target_list() == last.target_list());
    let n = before.target_list()[i].1;
    let m = after.target_list()[i].1;
    assert forall|r: Map<u32, nat>, r2: Map<u32, nat>, val: spec_fn(u32) -> int|
        ranked(before.edges(), r) && ranked(after.edges(), r2) implies #[trigger] after.value(r2, val, m) == #[trigger] before.value(r, val, n) by {
        assert(after.value(r2, val, m) == last.value(r2, val, m));
        assert(last.value(r2, val, m) == before.value(r, val, n));
    }
}

} // verus!
