use vstd::prelude::*;
use crate::circuit::reactive::{
    acyclic, contains_u32, graph_contains_node, graph_edges_directed, graph_node_indices, graph_toposort, is_topological,
    reach_in, ReactiveCircuit,
};

verus! {

/// Whether `level` gives every node its height: 0 for a node without
/// children, one more than its highest child otherwise (every edge being
/// between nodes).
pub open spec fn is_height(level: Map<u32, nat>, nodes: Set<u32>, edges: Map<u32, (u32, u32)>) -> bool {
    &&& level.dom() == nodes
    &&& forall|e: u32| #[trigger] edges.contains_key(e) ==> nodes.contains(edges[e].0) && nodes.contains(edges[e].1)
    &&& forall|e: u32| #[trigger] edges.contains_key(e) ==> level[edges[e].0] >= level[edges[e].1] + 1
    &&& forall|n: u32| #[trigger] nodes.contains(n) && level[n] > 0 ==> exists|e: u32| #[trigger] edges.contains_key(e)
        && edges[e].0 == n && level[edges[e].1] + 1 == level[n]
}

/// Whether `schedule` groups the nodes of `queue` by height: group `i`
/// holds, in increasing order, exactly those of height `i`, and there is one
/// group more than the greatest height of a node (one group when there is
/// none).
pub open spec fn is_schedule(nodes: Set<u32>, edges: Map<u32, (u32, u32)>, queue: Set<u32>, schedule: Seq<Seq<u32>>) -> bool {
    &&& schedule.len() > 0
    &&& exists|level: Map<u32, nat>| {
        &&& is_height(level, nodes, edges)
        &&& forall|n: u32| #[trigger] nodes.contains(n) ==> level[n] < schedule.len()
        &&& schedule.len() > 1 ==> exists|n: u32| #[trigger] nodes.contains(n) && level[n] + 1 == schedule.len()
        &&& forall|i: int, n: u32| 0 <= i < schedule.len() ==> (#[trigger] schedule[i].contains(n)
            <==> nodes.contains(n) && queue.contains(n) && level[n] == i)
    }
    &&& forall|i: int, a: int, b: int| 0 <= i < schedule.len() && 0 <= a < b < schedule[i].len()
        ==> #[trigger] schedule[i][a] < #[trigger] schedule[i][b]
}

/// Two height functions of a graph agree on the nodes of height at most `h`.
proof fn lemma_heights_agree(l1: Map<u32, nat>, l2: Map<u32, nat>, nodes: Set<u32>, edges: Map<u32, (u32, u32)>, h: nat)
    requires
        is_height(l1, nodes, edges),
        is_height(l2, nodes, edges),
    ensures
        forall|n: u32| #[trigger] nodes.contains(n) && l1[n] <= h ==> l2[n] == l1[n],
    decreases h,
{
    if h > 0 {
        lemma_heights_agree(l1, l2, nodes, edges, (h - 1) as nat);
    }
    assert forall|n: u32| #[trigger] nodes.contains(n) && l1[n] <= h implies l2[n] == l1[n] by {
        if l1[n] > 0 {
            let e = choose|e: u32| #[trigger] edges.contains_key(e) && edges[e].0 == n && l1[edges[e].1] + 1 == l1[n];
            assert(l2[edges[e].1] == l1[edges[e].1]);
        }
        if l2[n] > 0 {
            let e = choose|e: u32| #[trigger] edges.contains_key(e) && edges[e].0 == n && l2[edges[e].1] + 1 == l2[n];
            assert(l1[edges[e].1] + 1 <= l1[n]);
            assert(l2[edges[e].1] == l1[edges[e].1]);
        }
    }
}

/// A graph has one height function.
pub proof fn lemma_height_unique(l1: Map<u32, nat>, l2: Map<u32, nat>, nodes: Set<u32>, edges: Map<u32, (u32, u32)>)
    requires
        is_height(l1, nodes, edges),
        is_height(l2, nodes, edges),
    ensures
        l1 == l2,
{
    assert forall|n: u32| #[trigger] nodes.contains(n) implies l2[n] == l1[n] by {
        lemma_heights_agree(l1, l2, nodes, edges, l1[n]);
    }
    assert(l1 =~= l2);
}

/// An update of some outdated nodes decides the same as a full update,
/// restricted to them: as many groups, and each group holds exactly the
/// outdated nodes of the same group of the full update.
#[verifier::rlimit(40)]
pub proof fn law_partial_update_agrees_with_full(nodes: Set<u32>, edges: Map<u32, (u32, u32)>, queue: Set<u32>,
    partial: Seq<Seq<u32>>, full: Seq<Seq<u32>>)
    requires
        is_schedule(nodes, edges, queue, partial),
        is_schedule(nodes, edges, nodes, full),
    ensures
        partial.len() == full.len(),
        forall|i: int, n: u32| 0 <= i < partial.len() ==> (#[trigger] partial[i].contains(n) <==> full[i].contains(n) && queue.contains(n)),
{
    let l1 = choose|level: Map<u32, nat>| {
        &&& is_height(level, nodes, edges)
        &&& forall|n: u32| #[trigger] nodes.contains(n) ==> level[n] < partial.len()
        &&& partial.len() > 1 ==> exists|n: u32| #[trigger] nodes.contains(n) && level[n] + 1 == partial.len()
        &&& forall|i: int, n: u32| 0 <= i < partial.len() ==> (#[trigger] partial[i].contains(n)
            <==> nodes.contains(n) && queue.contains(n) && level[n] == i)
    };
    let l2 = choose|level: Map<u32, nat>| {
        &&& is_height(level, nodes, edges)
        &&& forall|n: u32| #[trigger] nodes.contains(n) ==> level[n] < full.len()
        &&& full.len() > 1 ==> exists|n: u32| #[trigger] nodes.contains(n) && level[n] + 1 == full.len()
        &&& forall|i: int, n: u32| 0 <= i < full.len() ==> (#[trigger] full[i].contains(n)
            <==> nodes.contains(n) && nodes.contains(n) && level[n] == i)
    };
    lemma_height_unique(l1, l2, nodes, edges);
    assert(partial.len() == full.len()) by {
        if partial.len() > 1 {
            let n = choose|n: u32| #[trigger] nodes.contains(n) && l1[n] + 1 == partial.len();
            assert(l2[n] < full.len());
        }
        if full.len() > 1 {
            let n = choose|n: u32| #[trigger] nodes.contains(n) && l2[n] + 1 == full.len();
            assert(l1[n] < partial.len());
        }
    }
    assert forall|i: int, n: u32| 0 <= i < partial.len() implies (#[trigger] partial[i].contains(n)
        <==> full[i].contains(n) && queue.contains(n)) by {
        assert(partial[i].contains(n) <==> nodes.contains(n) && queue.contains(n) && l1[n] == i);
        assert(full[i].contains(n) <==> nodes.contains(n) && nodes.contains(n) && l2[n] == i);
    }
}

/// The position of `x` in `order`.
fn position_of(order: &Vec<u32>, x: u32) -> (j: usize)
    requires
        order@.contains(x),
    ensures
        j < order@.len(),
        order@[j as int] == x,
{
    let mut j: usize = 0;
    while j < order.len()
        invariant
            j <= order@.len(),
            order@.contains(x),
            forall|q: int| 0 <= q < j ==> order@[q] != x,
        decreases order@.len() - j,
    {
        if order[j] == x {
            return j;
        }
        j = j + 1;
    }
    proof {
        let q = choose|q: int| 0 <= q < order@.len() && order@[q] == x;
    }
    0
}

/// The height of each node of a topological order, by position.
pub open spec fn heights_ok(order: Seq<u32>, lev: Seq<usize>, edges: Map<u32, (u32, u32)>) -> bool {
    &&& lev.len() == order.len()
    &&& forall|e: u32, i: int, j: int| #![trigger edges.contains_key(e), order[i], order[j]]
        edges.contains_key(e) && 0 <= i < order.len() && 0 <= j < order.len()
        && order[i] == edges[e].0 && order[j] == edges[e].1 ==> lev[i] >= lev[j] + 1
    &&& forall|i: int| 0 <= i < order.len() && #[trigger] lev[i] > 0 ==> exists|e: u32, j: int|
        #![trigger edges.contains_key(e), order[j]]
        edges.contains_key(e) && 0 <= j < order.len() && edges[e].0 == order[i] && order[j] == edges[e].1 && lev[j] + 1 == lev[i]
}

impl ReactiveCircuit {
    /// A topological order of the nodes and the height of each, by position.
    fn node_heights(&self) -> (result: (Vec<u32>, Vec<usize>))
        requires
            self.wf(),
            acyclic(self.nodes().dom(), self.edges()),
        ensures
            is_topological(result.0@, self.nodes().dom(), self.edges()),
            heights_ok(result.0@, result.1@, self.edges()),
            forall|i: int| 0 <= i < result.1@.len() ==> #[trigger] result.1@[i] < result.0@.len(),
    {
        let order = match graph_toposort(&self.structure) {
            Some(o) => o,
            None => {
                proof { assert(false); }
                return (Vec::new(), Vec::new());
            },
        };
        let ghost edges = self.edges();
        let n = order.len();
        let mut lev: Vec<usize> = Vec::new();
        let mut k: usize = 0;
        while k < n
            invariant
                k <= n,
                lev@.len() == k,
                forall|q: int| 0 <= q < k ==> lev@[q] == 0,
            decreases n - k,
        {
            lev.push(0);
            k = k + 1;
        }
        let mut i: usize = n;
        while i > 0
            invariant
                i <= n,
                n == order@.len(),
                lev@.len() == n,
                edges == self.edges(),
                self.wf(),
                is_topological(order@, self.nodes().dom(), edges),
                forall|p: int| i <= p < n ==> #[trigger] lev@[p] < n - p,
                forall|e: u32, a: int, b: int| #![trigger edges.contains_key(e), order@[a], order@[b]]
                    edges.contains_key(e) && i <= a < n && 0 <= b < n
                    && order@[a] == edges[e].0 && order@[b] == edges[e].1 ==> lev@[a] >= lev@[b] + 1,
                forall|a: int| i <= a < n && #[trigger] lev@[a] > 0 ==> exists|e: u32, b: int|
                    #![trigger edges.contains_key(e), order@[b]]
                    edges.contains_key(e) && 0 <= b < n && edges[e].0 == order@[a] && order@[b] == edges[e].1 && lev@[b] + 1 == lev@[a],
            decreases i,
        {
            i = i - 1;
            let node = order[i];
            let children = graph_edges_directed(&self.structure, node, false);
            let mut best: usize = 0;
            let mut c: usize = 0;
            let ghost mut witness: (u32, int) = (0, 0);
            while c < children.len()
                invariant
                    c <= children@.len(),
                    i < n,
                    n == order@.len(),
                    lev@.len() == n,
                    node == order@[i as int],
                    edges == self.edges(),
                    self.wf(),
                    is_topological(order@, self.nodes().dom(), edges),
                    forall|p: int| i < p < n ==> #[trigger] lev@[p] < n - p,
                    forall|k: int| 0 <= k < children@.len() ==> edges.contains_key(#[trigger] children@[k].0)
                        && edges[children@[k].0] == (node, children@[k].1),
                    best < n - i,
                    forall|q: int, b: int| 0 <= q < c && 0 <= b < n && #[trigger] order@[b] == (#[trigger] children@[q]).1
                        ==> best >= lev@[b] + 1,
                    best > 0 ==> {
                        &&& edges.contains_key(witness.0)
                        &&& 0 <= witness.1 < n
                        &&& edges[witness.0].0 == node
                        &&& order@[witness.1] == edges[witness.0].1
                        &&& lev@[witness.1] + 1 == best
                    },
                decreases children@.len() - c,
            {
                let child = children[c].1;
                let e = children[c].0;
                proof {
                    assert(edges.contains_key(e));
                    assert(self.nodes().contains_key(child));
                    assert(order@.to_set().contains(child));
                }
                let j = position_of(&order, child);
                proof {
                    let (a, b) = choose|a: int, b: int| 0 <= a < b < order@.len() && #[trigger] order@[a] == edges[e].0 && #[trigger] order@[b] == edges[e].1;
                    assert(order@.no_duplicates());
                    assert(a == i as int);
                    assert(b == j as int);
                }
                if lev[j] + 1 > best {
                    best = lev[j] + 1;
                    proof { witness = (e, j as int); }
                }
                proof {
                    assert forall|q: int, b: int| 0 <= q < c + 1 && 0 <= b < n && #[trigger] order@[b] == (#[trigger] children@[q]).1
                        implies best >= lev@[b] + 1 by {
                        if q == c {
                            assert(order@.no_duplicates());
                            assert(b == j as int);
                        }
                    }
                }
                c = c + 1;
            }
            lev.set(i, best);
            proof {
                assert forall|e: u32, a: int, b: int| #![trigger edges.contains_key(e), order@[a], order@[b]]
                    edges.contains_key(e) && i <= a < n && 0 <= b < n
                    && order@[a] == edges[e].0 && order@[b] == edges[e].1 implies lev@[a] >= lev@[b] + 1 by {
                    let (a2, b2) = choose|a2: int, b2: int| 0 <= a2 < b2 < order@.len() && #[trigger] order@[a2] == edges[e].0 && #[trigger] order@[b2] == edges[e].1;
                    assert(order@.no_duplicates());
                    assert(a2 == a && b2 == b);
                    if a == i as int {
                        let q = choose|q: int| 0 <= q < children@.len() && #[trigger] children@[q].0 == e;
                        assert(children@[q].1 == order@[b]);
                    }
                }
            }
        }
        (order, lev)
    }

    /// The part of an update that decides what to recompute: the outdated
    /// nodes (those in the queue), grouped by height, each group in
    /// increasing order, so that every node comes after its children; the
    /// queue is emptied.  The values themselves are computed by the caller,
    /// level by level.  The graph must be free of cycles.
    pub fn update(&mut self) -> (schedule: Vec<Vec<u32>>)
        requires
            old(self).wf(),
            acyclic(old(self).nodes().dom(), old(self).edges()),
        ensures
            final(self).wf(),
            final(self).queue@.len() == 0,
            final(self).structure == old(self).structure,
            final(self).dependencies == old(self).dependencies,
            final(self).targets == old(self).targets,
            final(self).value_size == old(self).value_size,
            final(self).partitioning == old(self).partitioning,
            is_schedule(old(self).nodes().dom(), old(self).edges(), old(self).queue@.to_set(),
                schedule@.map_values(|g: Vec<u32>| g@)),
    {
        let (order, lev) = self.node_heights();
        let ghost nodes = self.nodes().dom();
        let ghost edges = self.edges();
        let ghost level = Map::new(|n: u32| nodes.contains(n), |n: u32| lev@[order@.index_of(n)] as nat);
        proof {
            assert forall|n: u32| nodes.contains(n) implies 0 <= order@.index_of(n) < order@.len()
                && order@[order@.index_of(n)] == n by {
                assert(order@.to_set().contains(n));
            }
            assert(is_height(level, nodes, edges)) by {
                assert(level.dom() =~= nodes);
                assert forall|e: u32| #[trigger] edges.contains_key(e) implies level[edges[e].0] >= level[edges[e].1] + 1 by {
                    assert(nodes.contains(edges[e].0) && nodes.contains(edges[e].1));
                    let a = order@.index_of(edges[e].0);
                    let b = order@.index_of(edges[e].1);
                    assert(order@[a] == edges[e].0 && order@[b] == edges[e].1);
                }
                assert forall|n: u32| #[trigger] nodes.contains(n) && level[n] > 0 implies exists|e: u32| #[trigger] edges.contains_key(e)
                    && edges[e].0 == n && level[edges[e].1] + 1 == level[n] by {
                    let a = order@.index_of(n);
                    assert(lev@[a] > 0);
                    let (e, b) = choose|e: u32, b: int| #![trigger edges.contains_key(e), order@[b]]
                        edges.contains_key(e) && 0 <= b < order@.len() && edges[e].0 == order@[a] && order@[b] == edges[e].1 && lev@[b] + 1 == lev@[a];
                    assert(nodes.contains(edges[e].1));
                    let b2 = order@.index_of(edges[e].1);
                    assert(order@.no_duplicates());
                    assert(b2 == b);
                }
            }
        }
        // the number of levels: one more than the greatest height
        let mut depth: usize = 0;
        let mut k: usize = 0;
        let ghost mut top: int = -1;
        while k < lev.len()
            invariant
                k <= lev@.len(),
                lev@.len() == order@.len(),
                forall|i: int| 0 <= i < lev@.len() ==> #[trigger] lev@[i] < order@.len(),
                forall|q: int| 0 <= q < k ==> #[trigger] lev@[q] <= depth,
                depth > 0 ==> 0 <= top < k && lev@[top] == depth,
            decreases lev@.len() - k,
        {
            if lev[k] > depth {
                depth = lev[k];
                proof { top = k as int; }
            }
            k = k + 1;
        }
        proof {
            assert forall|n: u32| #[trigger] nodes.contains(n) implies level[n] <= depth by {
                assert(order@.to_set().contains(n));
            }
        }
        proof {
            assert(order.len() == order@.len());
            if depth > 0 { assert(lev@[top] < order@.len()); }
        }
        let mut schedule: Vec<Vec<u32>> = Vec::new();
        let mut d: usize = 0;
        while d <= depth
            invariant
                d <= depth + 1,
                depth < usize::MAX,
                schedule@.len() == d,
                forall|q: int| 0 <= q < d ==> (#[trigger] schedule@[q])@.len() == 0,
            decreases depth + 1 - d,
        {
            schedule.push(Vec::new());
            d = d + 1;
        }
        let queue = &self.queue;
        let indices = graph_node_indices(&self.structure);
        let mut m: usize = 0;
        while m < indices.len()
            invariant
                m <= indices@.len(),
                schedule@.len() == depth + 1,
                indices@.to_set() == nodes,
                forall|a: int, b: int| 0 <= a < b < indices@.len() ==> indices@[a] < indices@[b],
                forall|n: u32| #[trigger] nodes.contains(n) ==> level[n] <= depth,
                queue@ == self.queue@,
                level.dom() == nodes,
                forall|n: u32| #[trigger] nodes.contains(n) ==> level[n] == lev@[order@.index_of(n)] as nat,
                lev@.len() == order@.len(),
                order@.to_set() == nodes,
                order@.no_duplicates(),
                forall|i: int, n: u32| 0 <= i < schedule@.len() ==> (#[trigger] schedule@[i]@.contains(n)
                    <==> exists|q: int| 0 <= q < m && indices@[q] == n && queue@.contains(n) && level[n] == i),
                forall|i: int, a: int, b: int| 0 <= i < schedule@.len() && 0 <= a < b < schedule@[i]@.len()
                    ==> #[trigger] schedule@[i]@[a] < #[trigger] schedule@[i]@[b],
                forall|i: int, a: int| 0 <= i < schedule@.len() && 0 <= a < schedule@[i]@.len()
                    ==> exists|q: int| 0 <= q < m && #[trigger] schedule@[i]@[a] == indices@[q],
            decreases indices@.len() - m,
        {
            let n = indices[m];
            proof { assert(indices@.to_set().contains(n)); }
            if contains_u32(queue, n) {
                proof { assert(order@.to_set().contains(n)); }
                let j = position_of(&order, n);
                let l = lev[j];
                proof {
                    assert(order@.no_duplicates());
                    assert(order@.index_of(n) == j as int);
                    assert(level[n] == l as nat);
                }
                let ghost before = schedule@;
                let mut row: Vec<u32> = Vec::new();
                schedule.set_and_swap(l, &mut row);
                let ghost old_row = row@;
                row.push(n);
                schedule.set_and_swap(l, &mut row);
                proof {
                    assert(schedule@[l as int]@ == old_row.push(n));
                    assert forall|i: int| 0 <= i < schedule@.len() && i != l implies #[trigger] schedule@[i] == before[i] by {}
                    assert forall|i: int, x: u32| 0 <= i < schedule@.len() implies (#[trigger] schedule@[i]@.contains(x)
                        <==> exists|q: int| 0 <= q < m + 1 && indices@[q] == x && queue@.contains(x) && level[x] == i) by {
                        if i == l as int {
                            if schedule@[i]@.contains(x) && x != n {
                                let a = choose|a: int| 0 <= a < schedule@[i]@.len() && schedule@[i]@[a] == x;
                                assert(old_row[a] == x);
                                assert(before[i]@.contains(x));
                            }
                            if exists|q: int| 0 <= q < m + 1 && indices@[q] == x && queue@.contains(x) && level[x] == i {
                                let q = choose|q: int| 0 <= q < m + 1 && indices@[q] == x && queue@.contains(x) && level[x] == i;
                                if q < m {
                                    assert(before[i]@.contains(x));
                                    let a = choose|a: int| 0 <= a < old_row.len() && old_row[a] == x;
                                    assert(schedule@[i]@[a] == x);
                                } else {
                                    assert(schedule@[i]@[old_row.len() as int] == n);
                                }
                            }
                        } else {
                            if exists|q: int| 0 <= q < m + 1 && indices@[q] == x && queue@.contains(x) && level[x] == i {
                                let q = choose|q: int| 0 <= q < m + 1 && indices@[q] == x && queue@.contains(x) && level[x] == i;
                                assert(q != m);
                            }
                        }
                    }
                    assert forall|i: int, a: int, b: int| 0 <= i < schedule@.len() && 0 <= a < b < schedule@[i]@.len()
                        implies #[trigger] schedule@[i]@[a] < #[trigger] schedule@[i]@[b] by {
                        if i == l as int && b == old_row.len() {
                            let q = choose|q: int| 0 <= q < m && #[trigger] before[i]@[a] == indices@[q];
                            assert(old_row[a] == before[i]@[a]);
                        }
                    }
                    assert forall|i: int, a: int| 0 <= i < schedule@.len() && 0 <= a < schedule@[i]@.len()
                        implies exists|q: int| 0 <= q < m + 1 && #[trigger] schedule@[i]@[a] == indices@[q] by {
                        if i == l as int && a == old_row.len() {
                            assert(schedule@[i]@[a] == indices@[m as int]);
                        } else {
                            assert(schedule@[i]@[a] == before[i]@[a]);
                            let q = choose|q: int| 0 <= q < m && #[trigger] before[i]@[a] == indices@[q];
                        }
                    }
                }
            } else {
                proof {
                    assert forall|i: int, x: u32| 0 <= i < schedule@.len() implies (#[trigger] schedule@[i]@.contains(x)
                        <==> exists|q: int| 0 <= q < m + 1 && indices@[q] == x && queue@.contains(x) && level[x] == i) by {
                        if exists|q: int| 0 <= q < m + 1 && indices@[q] == x && queue@.contains(x) && level[x] == i {
                            let q = choose|q: int| 0 <= q < m + 1 && indices@[q] == x && queue@.contains(x) && level[x] == i;
                            assert(q != m);
                        }
                    }
                    assert forall|i: int, a: int| 0 <= i < schedule@.len() && 0 <= a < schedule@[i]@.len()
                        implies exists|q: int| 0 <= q < m + 1 && #[trigger] schedule@[i]@[a] == indices@[q] by {
                        let q = choose|q: int| 0 <= q < m && #[trigger] schedule@[i]@[a] == indices@[q];
                    }
                }
            }
            m = m + 1;
        }
        proof {
            assert forall|i: int, x: u32| 0 <= i < schedule@.len() implies (#[trigger] schedule@[i]@.contains(x)
                <==> self.nodes().contains_key(x) && self.queue@.contains(x) && level[x] == i) by {
                if self.nodes().contains_key(x) && self.queue@.contains(x) && level[x] == i {
                    assert(indices@.to_set().contains(x));
                    let q = choose|q: int| 0 <= q < indices@.len() && indices@[q] == x;
                }
            }
            if schedule@.len() > 1 {
                let n = order@[top];
                assert(order@.to_set().contains(n));
                assert(order@.no_duplicates());
                assert(order@.index_of(n) == top);
                assert(self.nodes().contains_key(n) && level[n] + 1 == schedule@.len());
            }
        }
        proof {
            let sv = schedule@.map_values(|g: Vec<u32>| g@);
            let nodes0 = self.nodes().dom();
            let q0 = self.queue@.to_set();
            assert forall|i: int, x: u32| 0 <= i < sv.len() implies (#[trigger] sv[i].contains(x)
                <==> nodes0.contains(x) && q0.contains(x) && level[x] == i) by {
                assert(sv[i] == schedule@[i]@);
                if q0.contains(x) { assert(self.queue@.contains(x)); }
                if self.queue@.contains(x) { assert(q0.contains(x)); }
            }
            assert forall|i: int, a: int, b: int| 0 <= i < sv.len() && 0 <= a < b < sv[i].len()
                implies #[trigger] sv[i][a] < #[trigger] sv[i][b] by {
                assert(sv[i] == schedule@[i]@);
            }
            assert forall|n: u32| #[trigger] nodes0.contains(n) implies level[n] < sv.len() by {}
            if sv.len() > 1 {
                let n = order@[top];
                assert(nodes0.contains(n) && level[n] + 1 == sv.len());
            }
            assert(is_schedule(nodes0, self.edges(), q0, sv));
        }
        self.queue = Vec::new();
        schedule
    }
}

impl ReactiveCircuit {
    /// Marks every node outdated and decides the update: every node, grouped
    /// by height, each group in increasing order; the queue is emptied.  The
    /// graph must be free of cycles.
    pub fn full_update(&mut self) -> (schedule: Vec<Vec<u32>>)
        requires
            old(self).wf(),
            acyclic(old(self).nodes().dom(), old(self).edges()),
        ensures
            final(self).wf(),
            final(self).queue@.len() == 0,
            final(self).structure == old(self).structure,
            final(self).dependencies == old(self).dependencies,
            final(self).targets == old(self).targets,
            is_schedule(old(self).nodes().dom(), old(self).edges(), old(self).nodes().dom(),
                schedule@.map_values(|g: Vec<u32>| g@)),
    {
        self.invalidate();
        let ghost mid = *self;
        let schedule = self.update();
        proof {
            let sv = schedule@.map_values(|g: Vec<u32>| g@);
            let nodes0 = mid.nodes().dom();
            let q0 = mid.queue@.to_set();
            let level = choose|level: Map<u32, nat>| {
                &&& is_height(level, nodes0, mid.edges())
                &&& forall|n: u32| #[trigger] nodes0.contains(n) ==> level[n] < sv.len()
                &&& sv.len() > 1 ==> exists|n: u32| #[trigger] nodes0.contains(n) && level[n] + 1 == sv.len()
                &&& forall|i: int, n: u32| 0 <= i < sv.len() ==> (#[trigger] sv[i].contains(n)
                    <==> nodes0.contains(n) && q0.contains(n) && level[n] == i)
            };
            assert forall|i: int, n: u32| 0 <= i < sv.len() implies (#[trigger] sv[i].contains(n)
                <==> nodes0.contains(n) && nodes0.contains(n) && level[n] == i) by {
                if nodes0.contains(n) {
                    assert(q0.contains(n));
                }
            }
            assert(is_schedule(nodes0, mid.edges(), nodes0, sv));
        }
        schedule
    }
}

/// A walk of `k + 1` steps is a walk of `k` steps and one more edge.
proof fn lemma_reach_last(edges: Map<u32, (u32, u32)>, a: u32, b: u32, k: nat)
    ensures
        reach_in(edges, a, b, k + 1) <==> exists|e: u32| #[trigger] edges.contains_key(e) && edges[e].1 == b
            && reach_in(edges, a, edges[e].0, k),
    decreases k,
{
    if k == 0 {
        reveal_with_fuel(reach_in, 2);
        if reach_in(edges, a, b, 1) {
            let e = choose|e: u32| #[trigger] edges.contains_key(e) && edges[e].0 == a && reach_in(edges, edges[e].1, b, 0);
            assert(reach_in(edges, a, edges[e].0, 0));
        }
        if exists|e: u32| #[trigger] edges.contains_key(e) && edges[e].1 == b && reach_in(edges, a, edges[e].0, 0) {
            let e = choose|e: u32| #[trigger] edges.contains_key(e) && edges[e].1 == b && reach_in(edges, a, edges[e].0, 0);
            assert(reach_in(edges, edges[e].1, b, 0));
        }
    } else {
        if reach_in(edges, a, b, k + 1) {
            let e0 = choose|e0: u32| #[trigger] edges.contains_key(e0) && edges[e0].0 == a && reach_in(edges, edges[e0].1, b, k);
            lemma_reach_last(edges, edges[e0].1, b, (k - 1) as nat);
            let e = choose|e: u32| #[trigger] edges.contains_key(e) && edges[e].1 == b && reach_in(edges, edges[e0].1, edges[e].0, (k - 1) as nat);
            assert(reach_in(edges, a, edges[e].0, k));
        }
        if exists|e: u32| #[trigger] edges.contains_key(e) && edges[e].1 == b && reach_in(edges, a, edges[e].0, k) {
            let e = choose|e: u32| #[trigger] edges.contains_key(e) && edges[e].1 == b && reach_in(edges, a, edges[e].0, k);
            let e0 = choose|e0: u32| #[trigger] edges.contains_key(e0) && edges[e0].0 == a && reach_in(edges, edges[e0].1, edges[e].0, (k - 1) as nat);
            lemma_reach_last(edges, edges[e0].1, b, (k - 1) as nat);
            assert(reach_in(edges, edges[e0].1, b, k));
        }
    }
}

/// Whether `b` is reached from `a` in `k` steps and in no fewer steps that
/// are at least one.
pub open spec fn first_reached(edges: Map<u32, (u32, u32)>, a: u32, b: u32, k: nat) -> bool {
    &&& reach_in(edges, a, b, k)
    &&& forall|j: nat| 1 <= j < k ==> !#[trigger] reach_in(edges, a, b, j)
}

/// A node first reached in `m + 1` steps (`m` at least one) has a parent
/// first reached in `m` steps.
proof fn lemma_first_parent(edges: Map<u32, (u32, u32)>, a: u32, n: u32, m: nat)
    requires
        m >= 1,
        first_reached(edges, a, n, m + 1),
    ensures
        exists|e: u32| #[trigger] edges.contains_key(e) && edges[e].1 == n && first_reached(edges, a, edges[e].0, m),
{
    lemma_reach_last(edges, a, n, m);
    let e = choose|e: u32| #[trigger] edges.contains_key(e) && edges[e].1 == n && reach_in(edges, a, edges[e].0, m);
    assert forall|j: nat| 1 <= j < m implies !#[trigger] reach_in(edges, a, edges[e].0, j) by {
        if reach_in(edges, a, edges[e].0, j) {
            lemma_reach_last(edges, a, n, j);
            assert(reach_in(edges, a, n, j + 1));
        }
    }
}

/// A node reached in `k` steps, `k` at least one, is first reached in some
/// number of steps between one and `k`.
proof fn lemma_first_exists(edges: Map<u32, (u32, u32)>, a: u32, n: u32, k: nat)
    requires
        k >= 1,
        reach_in(edges, a, n, k),
    ensures
        exists|j: nat| 1 <= j <= k && #[trigger] first_reached(edges, a, n, j),
    decreases k,
{
    if exists|j: nat| 1 <= j < k && #[trigger] reach_in(edges, a, n, j) {
        let j = choose|j: nat| 1 <= j < k && #[trigger] reach_in(edges, a, n, j);
        lemma_first_exists(edges, a, n, j);
        let i = choose|i: nat| 1 <= i <= j && #[trigger] first_reached(edges, a, n, i);
        assert(first_reached(edges, a, n, i));
    } else {
        assert(first_reached(edges, a, n, k));
    }
}

/// When no node is first reached in `d` steps, none is in more.
proof fn lemma_none_beyond(edges: Map<u32, (u32, u32)>, a: u32, n: u32, d: nat, m: nat)
    requires
        d >= 1,
        m >= d,
        forall|x: u32| !#[trigger] first_reached(edges, a, x, d),
    ensures
        !first_reached(edges, a, n, m),
    decreases m - d,
{
    if m > d && first_reached(edges, a, n, m) {
        lemma_first_parent(edges, a, n, (m - 1) as nat);
        let e = choose|e: u32| #[trigger] edges.contains_key(e) && edges[e].1 == n && first_reached(edges, a, edges[e].0, (m - 1) as nat);
        lemma_none_beyond(edges, a, edges[e].0, d, (m - 1) as nat);
    }
}

impl ReactiveCircuit {
    /// The children of the nodes `frontier` that are not in `visited`, each
    /// once; they are added to `visited`.
    fn expand(&self, frontier: &Vec<u32>, visited: &mut Vec<u32>) -> (next: Vec<u32>)
        requires
            self.wf(),
            old(visited)@.no_duplicates(),
        ensures
            next@.no_duplicates(),
            final(visited)@.no_duplicates(),
            final(visited)@ == old(visited)@ + next@,
            forall|c: u32| #[trigger] next@.contains(c) <==> !old(visited)@.contains(c) && exists|e: u32|
                #[trigger] self.edges().contains_key(e) && self.edges()[e].1 == c && frontier@.contains(self.edges()[e].0),
    {
        let ghost v0 = visited@;
        let ghost edges = self.edges();
        let mut next: Vec<u32> = Vec::new();
        let mut a: usize = 0;
        while a < frontier.len()
            invariant
                a <= frontier@.len(),
                edges == self.edges(),
                self.wf(),
                v0.no_duplicates(),
                next@.no_duplicates(),
                visited@.no_duplicates(),
                visited@ == v0 + next@,
                forall|c: u32| #[trigger] next@.contains(c) <==> !v0.contains(c) && exists|e: u32|
                    #[trigger] edges.contains_key(e) && edges[e].1 == c && frontier@.take(a as int).contains(edges[e].0),
            decreases frontier@.len() - a,
        {
            let x = frontier[a];
            let children = graph_edges_directed(&self.structure, x, false);
            let mut b: usize = 0;
            while b < children.len()
                invariant
                    a < frontier@.len(),
                    x == frontier@[a as int],
                    b <= children@.len(),
                    edges == self.edges(),
                    v0.no_duplicates(),
                    next@.no_duplicates(),
                    visited@.no_duplicates(),
                    visited@ == v0 + next@,
                    forall|k: int| 0 <= k < children@.len() ==> edges.contains_key(#[trigger] children@[k].0)
                        && edges[children@[k].0] == (x, children@[k].1),
                    forall|c: u32| #[trigger] next@.contains(c) <==> !v0.contains(c) && ((exists|e: u32|
                        #[trigger] edges.contains_key(e) && edges[e].1 == c && frontier@.take(a as int).contains(edges[e].0))
                        || exists|k: int| 0 <= k < b && #[trigger] children@[k].1 == c),
                decreases children@.len() - b,
            {
                let c = children[b].1;
                let ghost before = next@;
                let ghost vb = visited@;
                if !contains_u32(visited, c) {
                    visited.push(c);
                    proof {
                        assert forall|i: int, j: int| 0 <= i < visited@.len() && 0 <= j < visited@.len() && i != j implies visited@[i] != visited@[j] by {
                            if i < vb.len() && j < vb.len() { assert(vb[i] != vb[j]); }
                            else if i < vb.len() { assert(vb.contains(vb[i])); }
                            else { assert(vb.contains(vb[j])); }
                        }
                    }
                    next.push(c);
                    proof {
                        assert(visited@ =~= v0 + next@);
                        assert(!before.contains(c)) by {
                            if before.contains(c) {
                                let q = choose|q: int| 0 <= q < before.len() && before[q] == c;
                                assert((v0 + before)[v0.len() + q] == c);
                            }
                        }
                        assert forall|i: int, j: int| 0 <= i < next@.len() && 0 <= j < next@.len() && i != j implies next@[i] != next@[j] by {
                            if i < before.len() && j < before.len() { assert(before[i] != before[j]); }
                            else if i < before.len() { assert(before.contains(before[i])); }
                            else { assert(before.contains(before[j])); }
                        }
                        assert(!v0.contains(c)) by {
                            if v0.contains(c) {
                                let q = choose|q: int| 0 <= q < v0.len() && v0[q] == c;
                                assert((v0 + before)[q] == c);
                            }
                        }
                    }
                } else {
                    proof {
                        assert(v0.contains(c) || before.contains(c)) by {
                            let q = choose|q: int| 0 <= q < (v0 + before).len() && (v0 + before)[q] == c;
                            if q < v0.len() { assert(v0[q] == c); } else { assert(before[q - v0.len()] == c); }
                        }
                    }
                }
                proof {
                    assert forall|y: u32| #[trigger] next@.contains(y) <==> !v0.contains(y) && ((exists|e: u32|
                        #[trigger] edges.contains_key(e) && edges[e].1 == y && frontier@.take(a as int).contains(edges[e].0))
                        || exists|k: int| 0 <= k < b + 1 && #[trigger] children@[k].1 == y) by {
                        if next@.contains(y) && y != c {
                            let q = choose|q: int| 0 <= q < next@.len() && next@[q] == y;
                            assert(before[q] == y);
                            assert(before.contains(y));
                        }
                        if !v0.contains(y) && exists|k: int| 0 <= k < b + 1 && #[trigger] children@[k].1 == y {
                            let k = choose|k: int| 0 <= k < b + 1 && #[trigger] children@[k].1 == y;
                            if k < b {
                                assert(before.contains(y));
                                let q = choose|q: int| 0 <= q < before.len() && before[q] == y;
                                assert(next@[q] == y);
                            } else if before.contains(y) {
                                let q = choose|q: int| 0 <= q < before.len() && before[q] == y;
                                assert(next@[q] == y);
                            } else {
                                assert(next@[next@.len() - 1] == y);
                            }
                        }
                        if !v0.contains(y) && exists|e: u32| #[trigger] edges.contains_key(e) && edges[e].1 == y
                            && frontier@.take(a as int).contains(edges[e].0) {
                            assert(before.contains(y));
                            let q = choose|q: int| 0 <= q < before.len() && before[q] == y;
                            assert(next@[q] == y);
                        }
                    }
                }
                b = b + 1;
            }
            proof {
                assert(frontier@.take(a + 1) =~= frontier@.take(a as int).push(x));
                assert forall|c: u32| #[trigger] next@.contains(c) <==> !v0.contains(c) && exists|e: u32|
                    #[trigger] edges.contains_key(e) && edges[e].1 == c && frontier@.take(a + 1).contains(edges[e].0) by {
                    if next@.contains(c) {
                        if exists|k: int| 0 <= k < children@.len() && #[trigger] children@[k].1 == c {
                            let k = choose|k: int| 0 <= k < children@.len() && #[trigger] children@[k].1 == c;
                            let e = children@[k].0;
                            assert(frontier@.take(a + 1)[a as int] == x);
                            assert(edges.contains_key(e) && edges[e].1 == c && frontier@.take(a + 1).contains(edges[e].0));
                        } else {
                            let e = choose|e: u32| #[trigger] edges.contains_key(e) && edges[e].1 == c && frontier@.take(a as int).contains(edges[e].0);
                            let q = choose|q: int| 0 <= q < a && #[trigger] frontier@.take(a as int)[q] == edges[e].0;
                            assert(frontier@.take(a + 1)[q] == edges[e].0);
                        }
                    }
                    if !v0.contains(c) && exists|e: u32| #[trigger] edges.contains_key(e) && edges[e].1 == c && frontier@.take(a + 1).contains(edges[e].0) {
                        let e = choose|e: u32| #[trigger] edges.contains_key(e) && edges[e].1 == c && frontier@.take(a + 1).contains(edges[e].0);
                        let q = choose|q: int| 0 <= q < a + 1 && #[trigger] frontier@.take(a + 1)[q] == edges[e].0;
                        if q < a {
                            assert(frontier@.take(a as int)[q] == edges[e].0);
                            assert(frontier@.take(a as int).contains(edges[e].0));
                        } else {
                            assert(edges[e].0 == x);
                            let k = choose|k: int| 0 <= k < children@.len() && #[trigger] children@[k].0 == e;
                            assert(children@[k].1 == c);
                        }
                    }
                }
            }
            a = a + 1;
        }
        proof { assert(frontier@.take(frontier@.len() as int) =~= frontier@); }
        next
    }
}

impl ReactiveCircuit {
    /// The descendants of `node` grouped by depth: group `i` holds, once
    /// each, the nodes first reached from `node` in `i + 1` steps; every
    /// descendant is in a group; none when `node` is not in the graph.
    pub fn get_descendants_by_depth(&self, node: u32) -> (levels: Vec<Vec<u32>>)
        requires
            self.wf(),
        ensures
            !self.nodes().contains_key(node) ==> levels@.len() == 0,
            forall|i: int| 0 <= i < levels@.len() ==> (#[trigger] levels@[i])@.no_duplicates() && levels@[i]@.len() > 0,
            forall|i: int, n: u32| 0 <= i < levels@.len() ==> (#[trigger] levels@[i]@.contains(n)
                <==> first_reached(self.edges(), node, n, (i + 1) as nat)),
            self.nodes().contains_key(node) ==> forall|n: u32, k: nat| k >= 1 && #[trigger] reach_in(self.edges(), node, n, k)
                ==> exists|i: int| 0 <= i < levels@.len() && #[trigger] levels@[i]@.contains(n),
    {
        let mut levels: Vec<Vec<u32>> = Vec::new();
        if !graph_contains_node(&self.structure, node) {
            return levels;
        }
        let ghost edges = self.edges();
        let ghost dom = self.nodes().dom();
        let mut visited: Vec<u32> = Vec::new();
        let mut start: Vec<u32> = Vec::new();
        start.push(node);
        let mut current = self.expand(&start, &mut visited);
        proof {
            assert(visited@ =~= current@);
            assert forall|c: u32| #[trigger] current@.contains(c) <==> first_reached(edges, node, c, 1) by {
                reveal_with_fuel(reach_in, 2);
                if current@.contains(c) {
                    let e = choose|e: u32| #[trigger] edges.contains_key(e) && edges[e].1 == c && start@.contains(edges[e].0);
                    assert(start@[0] == node);
                    assert(edges[e].0 == node);
                    assert(reach_in(edges, edges[e].1, c, 0));
                }
                if first_reached(edges, node, c, 1) {
                    let e = choose|e: u32| #[trigger] edges.contains_key(e) && edges[e].0 == node && reach_in(edges, edges[e].1, c, 0);
                    assert(start@[0] == node);
                    assert(start@.contains(edges[e].0));
                }
            }
        }
        while current.len() > 0
            invariant
                self.wf(),
                edges == self.edges(),
                dom == self.nodes().dom(),
                dom.contains(node),
                current@.no_duplicates(),
                visited@.no_duplicates(),
                forall|c: u32| #[trigger] current@.contains(c) <==> first_reached(edges, node, c, (levels@.len() + 1) as nat),
                forall|c: u32| #[trigger] visited@.contains(c) <==> exists|j: nat| 1 <= j <= levels@.len() + 1
                    && #[trigger] reach_in(edges, node, c, j),
                forall|c: u32| #[trigger] visited@.contains(c) ==> dom.contains(c),
                current@.len() <= visited@.len(),
                forall|i: int| 0 <= i < levels@.len() ==> (#[trigger] levels@[i])@.no_duplicates() && levels@[i]@.len() > 0,
                forall|i: int, n: u32| 0 <= i < levels@.len() ==> (#[trigger] levels@[i]@.contains(n)
                    <==> first_reached(edges, node, n, (i + 1) as nat)),
            decreases dom.len() - (visited@.len() - current@.len()),
        {
            proof {
                assert(visited@.to_set().subset_of(dom)) by {
                    assert forall|c: u32| visited@.to_set().contains(c) implies dom.contains(c) by {
                        assert(visited@.contains(c));
                    }
                }
                crate::lemmas::lemma_no_dup_len_le(visited@, dom);
            }
            let ghost d = levels@.len();
            let ghost v0 = visited@;
            let next = self.expand(&current, &mut visited);
            proof {
                assert forall|c: u32| #[trigger] next@.contains(c) <==> first_reached(edges, node, c, (d + 2) as nat) by {
                    if next@.contains(c) {
                        let e = choose|e: u32| #[trigger] edges.contains_key(e) && edges[e].1 == c && current@.contains(edges[e].0);
                        lemma_reach_last(edges, node, c, (d + 1) as nat);
                        assert(reach_in(edges, node, c, (d + 2) as nat));
                        assert forall|j: nat| 1 <= j < d + 2 implies !#[trigger] reach_in(edges, node, c, j) by {
                            if reach_in(edges, node, c, j) { assert(v0.contains(c)); }
                        }
                    }
                    if first_reached(edges, node, c, (d + 2) as nat) {
                        lemma_first_parent(edges, node, c, (d + 1) as nat);
                        let e = choose|e: u32| #[trigger] edges.contains_key(e) && edges[e].1 == c && first_reached(edges, node, edges[e].0, (d + 1) as nat);
                        assert(current@.contains(edges[e].0));
                        assert(!v0.contains(c)) by {
                            if v0.contains(c) {
                                let j = choose|j: nat| 1 <= j <= d + 1 && #[trigger] reach_in(edges, node, c, j);
                            }
                        }
                    }
                }
                assert forall|c: u32| #[trigger] visited@.contains(c) <==> exists|j: nat| 1 <= j <= d + 2
                    && #[trigger] reach_in(edges, node, c, j) by {
                    if visited@.contains(c) {
                        let q = choose|q: int| 0 <= q < visited@.len() && visited@[q] == c;
                        if q < v0.len() {
                            assert(v0[q] == c);
                            assert(v0.contains(c));
                        } else {
                            assert(next@[q - v0.len()] == c);
                            assert(next@.contains(c));
                            assert(reach_in(edges, node, c, (d + 2) as nat));
                        }
                    }
                    if exists|j: nat| 1 <= j <= d + 2 && #[trigger] reach_in(edges, node, c, j) {
                        let j = choose|j: nat| 1 <= j <= d + 2 && #[trigger] reach_in(edges, node, c, j);
                        if j <= d + 1 {
                            assert(v0.contains(c));
                            let q = choose|q: int| 0 <= q < v0.len() && v0[q] == c;
                            assert(visited@[q] == c);
                        } else if v0.contains(c) {
                            let q = choose|q: int| 0 <= q < v0.len() && v0[q] == c;
                            assert(visited@[q] == c);
                        } else {
                            assert forall|i: nat| 1 <= i < d + 2 implies !#[trigger] reach_in(edges, node, c, i) by {
                                if reach_in(edges, node, c, i) { assert(v0.contains(c)); }
                            }
                            assert(first_reached(edges, node, c, (d + 2) as nat));
                            assert(next@.contains(c));
                            let q = choose|q: int| 0 <= q < next@.len() && next@[q] == c;
                            assert(visited@[v0.len() + q] == c);
                        }
                    }
                }
                assert forall|c: u32| #[trigger] visited@.contains(c) implies dom.contains(c) by {
                    let q = choose|q: int| 0 <= q < visited@.len() && visited@[q] == c;
                    if q < v0.len() { assert(v0[q] == c); assert(v0.contains(c)); }
                    else {
                        assert(next@[q - v0.len()] == c);
                        assert(next@.contains(c));
                        let e = choose|e: u32| #[trigger] edges.contains_key(e) && edges[e].1 == c && current@.contains(edges[e].0);
                    }
                }
            }
            let ghost old_levels = levels@;
            levels.push(current);
            proof {
                assert forall|i: int, n: u32| 0 <= i < levels@.len() implies (#[trigger] levels@[i]@.contains(n)
                    <==> first_reached(edges, node, n, (i + 1) as nat)) by {
                    if i < d { assert(levels@[i] == old_levels[i]); }
                }
                assert forall|i: int| 0 <= i < levels@.len() implies (#[trigger] levels@[i])@.no_duplicates() && levels@[i]@.len() > 0 by {
                    if i < d { assert(levels@[i] == old_levels[i]); }
                }
            }
            current = next;
        }
        proof {
            let d = levels@.len();
            assert forall|n: u32, k: nat| k >= 1 && #[trigger] reach_in(edges, node, n, k)
                implies exists|i: int| 0 <= i < levels@.len() && #[trigger] levels@[i]@.contains(n) by {
                lemma_first_exists(edges, node, n, k);
                let j = choose|j: nat| 1 <= j <= k && #[trigger] first_reached(edges, node, n, j);
                if j > d {
                    assert forall|x: u32| !#[trigger] first_reached(edges, node, x, (d + 1) as nat) by {
                        if first_reached(edges, node, x, (d + 1) as nat) { assert(current@.contains(x)); }
                    }
                    lemma_none_beyond(edges, node, n, (d + 1) as nat, j);
                }
                assert(levels@[j - 1]@.contains(n));
            }
        }
        levels
    }
}

/// Marks every node that depends on leaf `leaf_index` for recomputation.
pub fn force_invalidate_dependencies(reactive_circuit: &mut ReactiveCircuit, leaf_index: u32)
    requires
        old(reactive_circuit).wf(),
        leaf_index < old(reactive_circuit).dependencies@.len(),
    ensures
        final(reactive_circuit).wf(),
        final(reactive_circuit).queue@.to_set() == old(reactive_circuit).queue@.to_set()
            + old(reactive_circuit).dependencies@[leaf_index as int]@.to_set(),
        final(reactive_circuit).structure == old(reactive_circuit).structure,
        final(reactive_circuit).dependencies == old(reactive_circuit).dependencies,
        final(reactive_circuit).targets == old(reactive_circuit).targets,
        final(reactive_circuit).value_size == old(reactive_circuit).value_size,
        final(reactive_circuit).partitioning == old(reactive_circuit).partitioning,
{
    let ghost deps = old(reactive_circuit).dependencies@[leaf_index as int]@;
    let mut k: usize = 0;
    while k < reactive_circuit.dependencies[leaf_index as usize].len()
        invariant
            reactive_circuit.wf(),
            leaf_index < reactive_circuit.dependencies@.len(),
            reactive_circuit.dependencies == old(reactive_circuit).dependencies,
            deps == reactive_circuit.dependencies@[leaf_index as int]@,
            k <= deps.len(),
            reactive_circuit.queue@.to_set() == old(reactive_circuit).queue@.to_set() + deps.take(k as int).to_set(),
            reactive_circuit.structure == old(reactive_circuit).structure,
            reactive_circuit.targets == old(reactive_circuit).targets,
            reactive_circuit.value_size == old(reactive_circuit).value_size,
            reactive_circuit.partitioning == old(reactive_circuit).partitioning,
        decreases deps.len() - k,
    {
        let node = reactive_circuit.dependencies[leaf_index as usize][k];
        reactive_circuit.enqueue(node);
        proof {
            assert(deps.take(k + 1) =~= deps.take(k as int).push(node));
            crate::lemmas::lemma_to_set_push(deps.take(k as int), node);
            assert(reactive_circuit.queue@.to_set() =~= old(reactive_circuit).queue@.to_set() + deps.take(k + 1).to_set());
        }
        k = k + 1;
    }
    proof { assert(deps.take(deps.len() as int) =~= deps); }
}

} // verus!
