use vstd::prelude::*;
use petgraph::stable_graph::{NodeIndex, EdgeIndex, StableGraph};
use petgraph::Direction;
use crate::circuit::algebraic::{extend_leaves, extend_leaves_all, leaf_set, add_column, AlgebraicCircuit, Column};
use crate::text::str_eq;

verus! {

// ── the graph ───────────────────────────────────────────────────────────────

#[verifier::external_type_specification]
#[verifier::external_body]
#[verifier::reject_recursive_types(N)]
#[verifier::reject_recursive_types(E)]
#[verifier::reject_recursive_types(Ty)]
#[verifier::reject_recursive_types(Ix)]
pub struct ExStableGraph<N, E, Ty, Ix>(StableGraph<N, E, Ty, Ix>);

#[verifier::external_type_specification]
#[verifier::external_body]
pub struct ExDirected(petgraph::Directed);

/// A graph of circuits; the values on its edges are kept elsewhere.
pub type CircuitGraph = StableGraph<AlgebraicCircuit, ()>;

/// The circuits a graph holds, by node index.
pub uninterp spec fn graph_nodes(g: CircuitGraph) -> Map<u32, AlgebraicCircuit>;

/// The edges a graph holds, by edge index: their source and target nodes.
pub uninterp spec fn graph_edges(g: CircuitGraph) -> Map<u32, (u32, u32)>;

/// Whether `order` lists the nodes `nodes`, each once, with the source of
/// every edge before its target.
pub open spec fn is_topological(order: Seq<u32>, nodes: Set<u32>, edges: Map<u32, (u32, u32)>) -> bool {
    &&& order.no_duplicates()
    &&& order.to_set() == nodes
    &&& forall|e: u32| #[trigger] edges.contains_key(e) ==> exists|i: int, j: int|
        0 <= i < j < order.len() && #[trigger] order[i] == edges[e].0 && #[trigger] order[j] == edges[e].1
}

/// Whether the edges leave the nodes without a cycle: some order of the
/// nodes puts the source of every edge before its target.
pub open spec fn acyclic(nodes: Set<u32>, edges: Map<u32, (u32, u32)>) -> bool {
    exists|order: Seq<u32>| is_topological(order, nodes, edges)
}

/// What every graph keeps: finitely many nodes and edges, and every edge
/// between nodes of the graph.
pub open spec fn graph_ok(nodes: Map<u32, AlgebraicCircuit>, edges: Map<u32, (u32, u32)>) -> bool {
    &&& nodes.dom().finite()
    &&& edges.dom().finite()
    &&& forall|e: u32| #[trigger] edges.contains_key(e)
        ==> nodes.contains_key(edges[e].0) && nodes.contains_key(edges[e].1)
}

/// Trusted: `StableGraph::new`, an empty graph.
#[verifier::external_body]
pub(crate) fn graph_new() -> (empty: CircuitGraph)
    ensures
        graph_nodes(empty).dom() == Set::<u32>::empty(),
        graph_edges(empty).dom() == Set::<u32>::empty(),
{
    StableGraph::new()
}

/// Trusted: `StableGraph::add_node`, which stores `ac` under an index that
/// holds no node (a vacant slot or a new one) and returns that index.  It
/// panics only when the node indices are used up, which the bound rules out.
#[verifier::external_body]
pub(crate) fn graph_add_node(g: &mut CircuitGraph, ac: AlgebraicCircuit) -> (n: u32)
    requires
        graph_nodes(*old(g)).dom().finite(),
        graph_nodes(*old(g)).dom().len() < u32::MAX,
    ensures
        !graph_nodes(*old(g)).contains_key(n),
        n < u32::MAX,
        graph_nodes(*final(g)) == graph_nodes(*old(g)).insert(n, ac),
        graph_edges(*final(g)) == graph_edges(*old(g)),
{
    g.add_node(ac).index() as u32
}

/// Trusted: `StableGraph::remove_node`, which removes node `n` with every
/// edge to or from it and returns its circuit, or returns `None` and leaves
/// the graph as it is when there is no such node.
#[verifier::external_body]
pub(crate) fn graph_remove_node(g: &mut CircuitGraph, n: u32) -> (removed: Option<AlgebraicCircuit>)
    ensures
        graph_nodes(*old(g)).contains_key(n) ==> {
            &&& removed == Some(graph_nodes(*old(g))[n])
            &&& graph_nodes(*final(g)) == graph_nodes(*old(g)).remove(n)
            &&& forall|e: u32| #[trigger] graph_edges(*final(g)).contains_key(e) <==> graph_edges(*old(g)).contains_key(e)
                && graph_edges(*old(g))[e].0 != n && graph_edges(*old(g))[e].1 != n
            &&& forall|e: u32| #[trigger] graph_edges(*final(g)).contains_key(e) ==> graph_edges(*final(g))[e] == graph_edges(*old(g))[e]
        },
        !graph_nodes(*old(g)).contains_key(n) ==> removed is None && *final(g) == *old(g),
{
    g.remove_node(NodeIndex::new(n as usize))
}

/// Trusted: `StableGraph::add_edge` with no weight, which stores an edge
/// from `a` to `b` under an index that holds no edge and returns that
/// index.  It panics when either node is missing or the edge indices are
/// used up, which the requirements rule out.
#[verifier::external_body]
pub(crate) fn graph_add_edge(g: &mut CircuitGraph, a: u32, b: u32) -> (e: u32)
    requires
        graph_nodes(*old(g)).contains_key(a),
        graph_nodes(*old(g)).contains_key(b),
        graph_edges(*old(g)).dom().finite(),
        graph_edges(*old(g)).dom().len() < u32::MAX,
    ensures
        !graph_edges(*old(g)).contains_key(e),
        e < u32::MAX,
        graph_edges(*final(g)) == graph_edges(*old(g)).insert(e, (a, b)),
        graph_nodes(*final(g)) == graph_nodes(*old(g)),
{
    g.add_edge(NodeIndex::new(a as usize), NodeIndex::new(b as usize), ()).index() as u32
}

/// Trusted: `StableGraph::remove_edge`, which removes edge `e` if there is
/// one and says whether there was.
#[verifier::external_body]
pub(crate) fn graph_remove_edge(g: &mut CircuitGraph, e: u32) -> (removed: bool)
    ensures
        removed == graph_edges(*old(g)).contains_key(e),
        graph_edges(*final(g)) == graph_edges(*old(g)).remove(e),
        graph_nodes(*final(g)) == graph_nodes(*old(g)),
{
    g.remove_edge(EdgeIndex::new(e as usize)).is_some()
}

/// Trusted: `StableGraph::edge_endpoints`, the source and target of edge
/// `e`, if there is one.
#[verifier::external_body]
pub(crate) fn graph_edge_endpoints(g: &CircuitGraph, e: u32) -> (ends: Option<(u32, u32)>)
    ensures
        graph_edges(*g).contains_key(e) ==> ends == Some(graph_edges(*g)[e]),
        !graph_edges(*g).contains_key(e) ==> ends is None,
{
    g.edge_endpoints(EdgeIndex::new(e as usize)).map(|(a, b)| (a.index() as u32, b.index() as u32))
}

/// Trusted: `StableGraph::contains_node`, whether node `n` is in the graph.
#[verifier::external_body]
pub(crate) fn graph_contains_node(g: &CircuitGraph, n: u32) -> (b: bool)
    ensures
        b == graph_nodes(*g).contains_key(n),
{
    g.contains_node(NodeIndex::new(n as usize))
}

/// Trusted: `StableGraph::node_weight`, the circuit of node `n`.
#[verifier::external_body]
pub(crate) fn graph_node(g: &CircuitGraph, n: u32) -> (ac: &AlgebraicCircuit)
    requires
        graph_nodes(*g).contains_key(n),
    ensures
        *ac == graph_nodes(*g)[n],
{
    g.node_weight(NodeIndex::new(n as usize)).unwrap()
}

/// Trusted: `StableGraph::node_weight_mut` with `std::mem::replace`, which
/// puts `ac` in place of the circuit of node `n` and returns the old one.
#[verifier::external_body]
pub(crate) fn graph_replace_node(g: &mut CircuitGraph, n: u32, ac: AlgebraicCircuit) -> (previous: AlgebraicCircuit)
    requires
        graph_nodes(*old(g)).contains_key(n),
    ensures
        previous == graph_nodes(*old(g))[n],
        graph_nodes(*final(g)) == graph_nodes(*old(g)).insert(n, ac),
        graph_edges(*final(g)) == graph_edges(*old(g)),
{
    std::mem::replace(g.node_weight_mut(NodeIndex::new(n as usize)).unwrap(), ac)
}

/// Trusted: `StableGraph::edges_directed`, the edges into node `n`
/// (`incoming`) or out of it, each once, each paired with the node at its
/// other end; none when there is no such node.
#[verifier::external_body]
pub(crate) fn graph_edges_directed(g: &CircuitGraph, n: u32, incoming: bool) -> (found: Vec<(u32, u32)>)
    ensures
        found@.map_values(|p: (u32, u32)| p.0).no_duplicates(),
        forall|k: int| 0 <= k < found@.len() ==> graph_edges(*g).contains_key(#[trigger] found@[k].0)
            && graph_edges(*g)[found@[k].0] == if incoming { (found@[k].1, n) } else { (n, found@[k].1) },
        forall|e: u32| #[trigger] graph_edges(*g).contains_key(e)
            && (if incoming { graph_edges(*g)[e].1 == n } else { graph_edges(*g)[e].0 == n })
            ==> exists|k: int| 0 <= k < found@.len() && #[trigger] found@[k].0 == e,
{
    let dir = if incoming { Direction::Incoming } else { Direction::Outgoing };
    g.edges_directed(NodeIndex::new(n as usize), dir)
        .map(|r| {
            let other = if incoming { petgraph::visit::EdgeRef::source(&r) } else { petgraph::visit::EdgeRef::target(&r) };
            (petgraph::visit::EdgeRef::id(&r).index() as u32, other.index() as u32)
        })
        .collect()
}

/// Trusted: `StableGraph::node_indices`, the indices of the nodes in
/// increasing order.
#[verifier::external_body]
pub(crate) fn graph_node_indices(g: &CircuitGraph) -> (indices: Vec<u32>)
    ensures
        forall|i: int, j: int| 0 <= i < j < indices@.len() ==> indices@[i] < indices@[j],
        indices@.to_set() == graph_nodes(*g).dom(),
{
    g.node_indices().map(|n| n.index() as u32).collect()
}

/// Trusted: `StableGraph::node_count`, the number of nodes.
#[verifier::external_body]
pub(crate) fn graph_node_count(g: &CircuitGraph) -> (count: usize)
    ensures
        count == graph_nodes(*g).dom().len(),
{
    g.node_count()
}

/// Trusted: `StableGraph::edge_count`, the number of edges.
#[verifier::external_body]
pub(crate) fn graph_edge_count(g: &CircuitGraph) -> (count: usize)
    ensures
        count == graph_edges(*g).dom().len(),
{
    g.edge_count()
}

/// Trusted: `petgraph::algo::toposort`, which lists the nodes with every
/// edge's source before its target, or fails when the graph has a cycle.
#[verifier::external_body]
pub(crate) fn graph_toposort(g: &CircuitGraph) -> (order: Option<Vec<u32>>)
    ensures
        order is Some <==> acyclic(graph_nodes(*g).dom(), graph_edges(*g)),
        order matches Some(o) ==> is_topological(o@, graph_nodes(*g).dom(), graph_edges(*g)),
{
    petgraph::algo::toposort(g, None).ok().map(|o| o.into_iter().map(|n| n.index() as u32).collect())
}

// ── node sets ───────────────────────────────────────────────────────────────

/// Whether `s` increases strictly.
pub open spec fn increasing(s: Seq<u32>) -> bool {
    forall|i: int, j: int| 0 <= i < j < s.len() ==> s[i] < s[j]
}

/// The increasing sequence `v` with `x` added, if it was not there.
pub(crate) fn with_member(v: &Vec<u32>, x: u32) -> (w: Vec<u32>)
    requires
        increasing(v@),
    ensures
        increasing(w@),
        w@.to_set() == v@.to_set().insert(x),
{
    let mut w: Vec<u32> = Vec::new();
    let mut i: usize = 0;
    while i < v.len() && v[i] < x
        invariant
            i <= v@.len(),
            increasing(v@),
            w@ == v@.take(i as int),
            forall|j: int| 0 <= j < i ==> v@[j] < x,
        decreases v@.len() - i,
    {
        w.push(v[i]);
        proof { assert(v@.take(i + 1) =~= v@.take(i as int).push(v@[i as int])); }
        i = i + 1;
    }
    let present = i < v.len() && v[i] == x;
    if !present {
        w.push(x);
    }
    let ghost mid = w@;
    let mut k: usize = i;
    while k < v.len()
        invariant
            i <= k <= v@.len(),
            increasing(v@),
            w@ == mid + v@.subrange(i as int, k as int),
        decreases v@.len() - k,
    {
        w.push(v[k]);
        proof { assert(v@.subrange(i as int, k + 1) =~= v@.subrange(i as int, k as int).push(v@[k as int])); }
        k = k + 1;
    }
    proof {
        assert forall|a: int, b: int| 0 <= a < b < w@.len() implies w@[a] < w@[b] by {
            let m = mid.len() as int;
            if b < i as int {
                assert(w@[a] == v@[a] && w@[b] == v@[b]);
            } else if !present && b == i as int {
                assert(w@[b] == x);
                assert(w@[a] == v@[a]);
            } else {
                let vb = if present { b } else { b - 1 };
                assert(w@[b] == v@[vb]);
                if a < i as int {
                    assert(w@[a] == v@[a]);
                } else if !present && a == i as int {
                    assert(w@[a] == x);
                    if vb < v@.len() { assert(v@[vb] >= v@[i as int]); assert(v@[i as int] >= x); }
                } else {
                    let va = if present { a } else { a - 1 };
                    assert(w@[a] == v@[va]);
                }
            }
        }
        assert forall|y: u32| w@.to_set().contains(y) <==> v@.to_set().insert(x).contains(y) by {
            if w@.to_set().contains(y) {
                let q = choose|q: int| 0 <= q < w@.len() && w@[q] == y;
                if q < i as int { assert(v@[q] == y); }
                else if !present && q == i as int { assert(y == x); }
                else { let vq = if present { q } else { q - 1 }; assert(v@[vq] == y); assert(v@.contains(y)); }
            }
            if v@.contains(y) {
                let q = choose|q: int| 0 <= q < v@.len() && v@[q] == y;
                if q < i as int { assert(w@[q] == y); }
                else { let wq = if present { q } else { q + 1 }; assert(w@[wq] == y); }
                assert(w@.contains(y));
            }
            if y == x {
                if present { assert(w@[i as int] == x); } else { assert(w@[i as int] == x); }
                assert(w@.contains(y));
            }
        }
        assert(w@.to_set() =~= v@.to_set().insert(x));
    }
    w
}

/// `v` with `x` appended unless it holds `x` already.
pub(crate) fn insert_once(v: &mut Vec<u32>, x: u32)
    requires
        old(v)@.no_duplicates(),
    ensures
        final(v)@.no_duplicates(),
        final(v)@.to_set() == old(v)@.to_set().insert(x),
{
    let mut k: usize = 0;
    while k < v.len()
        invariant
            k <= v@.len(),
            v@ == old(v)@,
            old(v)@.no_duplicates(),
            forall|j: int| 0 <= j < k ==> v@[j] != x,
        decreases v@.len() - k,
    {
        if v[k] == x {
            proof {
                assert(v@.to_set() =~= old(v)@.to_set().insert(x));
                assert(v@.no_duplicates());
            }
            return;
        }
        k = k + 1;
    }
    v.push(x);
    proof {
        assert(v@ =~= old(v)@.push(x));
        crate::lemmas::lemma_to_set_push(old(v)@, x);
        assert forall|i: int, j: int| 0 <= i < v@.len() && 0 <= j < v@.len() && i != j implies v@[i] != v@[j] by {
            if i < old(v)@.len() && j < old(v)@.len() { assert(old(v)@[i] != old(v)@[j]); }
        }
        assert(v@.to_set() =~= old(v)@.to_set().insert(x));
    }
}

// ── the reactive circuit ────────────────────────────────────────────────────

/// A dynamic computation graph whose nodes hold algebraic circuits; the
/// result of a node is cached on the edges into it, in the memory columns
/// of its parents (the cached values are kept by the caller, by edge index).
pub struct ReactiveCircuit {
    pub structure: CircuitGraph,
    pub value_size: usize,
    /// For each leaf, the nodes whose value depends on it, in increasing order.
    pub dependencies: Vec<Vec<u32>>,
    /// The nodes to recompute, each once.
    pub queue: Vec<u32>,
    /// The output nodes, by token.
    pub targets: Vec<(String, u32)>,
    /// The layer of each leaf after the last adaptation.
    pub partitioning: Vec<usize>,
}

impl ReactiveCircuit {
    /// The circuits, by node index.
    pub open spec fn nodes(&self) -> Map<u32, AlgebraicCircuit> {
        graph_nodes(self.structure)
    }

    /// The edges, by edge index: source and target.
    pub open spec fn edges(&self) -> Map<u32, (u32, u32)> {
        graph_edges(self.structure)
    }

    /// The targets: token and node.
    pub open spec fn target_list(&self) -> Seq<(Seq<char>, u32)> {
        self.targets@.map_values(|t: (String, u32)| (t.0@, t.1))
    }

    /// The well-formed reactive circuits: every node's circuit is well
    /// formed and carries `value_size` values; every edge has a memory
    /// column in its source's circuit, and every memory column refers to an
    /// edge out of its node; dependency lists increase; the queue holds no
    /// node twice.
    pub open spec fn wf(&self) -> bool {
        &&& graph_ok(self.nodes(), self.edges())
        &&& forall|n: u32| #[trigger] self.nodes().contains_key(n)
            ==> self.nodes()[n].wf() && self.nodes()[n].size() == self.value_size
        &&& forall|e: u32| #[trigger] self.edges().contains_key(e)
            ==> self.nodes()[self.edges()[e].0].cols().contains(Column::Memory(e))
        &&& forall|n: u32, k: u32| self.nodes().contains_key(n) && #[trigger] self.nodes()[n].cols().contains(Column::Memory(k))
            ==> self.edges().contains_key(k) && self.edges()[k].0 == n
        &&& forall|l: int| 0 <= l < self.dependencies@.len() ==> increasing(#[trigger] self.dependencies@[l]@)
        &&& self.queue@.no_duplicates()
    }

    /// The node of target `token`, if there is one (the first such).
    pub open spec fn target_of(&self, token: Seq<char>) -> Option<u32> {
        target_in(self.target_list(), token, 0)
    }
}

/// The node of the first target with token `token` from position `k` on.
pub open spec fn target_in(targets: Seq<(Seq<char>, u32)>, token: Seq<char>, k: int) -> Option<u32>
    decreases targets.len() - k,
{
    if k < 0 || k >= targets.len() {
        None
    } else if targets[k].0 == token {
        Some(targets[k].1)
    } else {
        target_in(targets, token, k + 1)
    }
}

/// Memory columns stay as they are when leaves are added.
pub(crate) proof fn lemma_extend_keeps_memories(cols: Seq<Column>, indices: Seq<u32>, k: u32)
    ensures
        extend_leaves(cols, indices).contains(Column::Memory(k)) == cols.contains(Column::Memory(k)),
    decreases indices.len(),
{
    if indices.len() > 0 {
        lemma_extend_keeps_memories(cols, indices.drop_last(), k);
        let c = extend_leaves(cols, indices.drop_last());
        if !c.contains(Column::Leaf(indices.last())) {
            if c.push(Column::Leaf(indices.last())).contains(Column::Memory(k)) {
                let q = choose|q: int| 0 <= q < c.len() + 1 && c.push(Column::Leaf(indices.last()))[q] == Column::Memory(k);
                assert(q < c.len());
                assert(c[q] == Column::Memory(k));
            }
            if c.contains(Column::Memory(k)) {
                let q = choose|q: int| 0 <= q < c.len() && c[q] == Column::Memory(k);
                assert(c.push(Column::Leaf(indices.last()))[q] == Column::Memory(k));
            }
        }
    }
}

proof fn lemma_extend_all_keeps_memories(cols: Seq<Column>, sum_product: Seq<Seq<u32>>, k: u32)
    ensures
        extend_leaves_all(cols, sum_product).contains(Column::Memory(k)) == cols.contains(Column::Memory(k)),
    decreases sum_product.len(),
{
    if sum_product.len() > 0 {
        lemma_extend_all_keeps_memories(cols, sum_product.drop_last(), k);
        lemma_extend_keeps_memories(extend_leaves_all(cols, sum_product.drop_last()), sum_product.last(), k);
    }
}

impl ReactiveCircuit {
    /// An empty reactive circuit carrying `value_size` values per leaf.
    pub fn new(value_size: usize) -> (rc: ReactiveCircuit)
        requires
            value_size > 0,
        ensures
            rc.wf(),
            rc.value_size == value_size,
            rc.nodes().dom() == Set::<u32>::empty(),
            rc.edges().dom() == Set::<u32>::empty(),
            rc.dependencies@ == Seq::<Vec<u32>>::empty(),
            rc.queue@ == Seq::<u32>::empty(),
            rc.targets@ == Seq::<(String, u32)>::empty(),
            rc.partitioning@ == Seq::<usize>::empty(),
    {
        let rc = ReactiveCircuit {
            structure: graph_new(),
            value_size,
            dependencies: Vec::new(),
            queue: Vec::new(),
            targets: Vec::new(),
            partitioning: Vec::new(),
        };
        proof {
            assert(rc.nodes().dom().finite());
            assert(rc.edges().dom().finite());
            assert forall|n: u32, k: u32| rc.nodes().contains_key(n) && #[trigger] rc.nodes()[n].cols().contains(Column::Memory(k))
                implies rc.edges().contains_key(k) && rc.edges()[k].0 == n by {
                assert(rc.nodes().dom().contains(n));
            }
        }
        rc
    }

    /// Adds a leaf that no node depends on yet; returns its index.
    pub fn add_leaf(&mut self) -> (index: u32)
        requires
            old(self).wf(),
            old(self).dependencies@.len() + 1 < u32::MAX,
        ensures
            final(self).wf(),
            index == old(self).dependencies@.len(),
            final(self).dependencies@ == old(self).dependencies@.push(final(self).dependencies@.last()),
            final(self).dependencies@.last()@ == Seq::<u32>::empty(),
            final(self).structure == old(self).structure,
            final(self).queue == old(self).queue,
            final(self).targets == old(self).targets,
    {
        let index = self.dependencies.len() as u32;
        self.dependencies.push(Vec::new());
        index
    }

    /// Registers `node` as depending on leaf `index`.
    pub fn set_dependency(&mut self, index: u32, node: u32)
        requires
            old(self).wf(),
            index < old(self).dependencies@.len(),
        ensures
            final(self).wf(),
            final(self).dependencies@.len() == old(self).dependencies@.len(),
            final(self).dependencies@[index as int]@.to_set() == old(self).dependencies@[index as int]@.to_set().insert(node),
            forall|l: int| 0 <= l < final(self).dependencies@.len() && l != index
                ==> #[trigger] final(self).dependencies@[l] == old(self).dependencies@[l],
            final(self).structure == old(self).structure,
            final(self).queue == old(self).queue,
            final(self).targets == old(self).targets,
    {
        let updated = with_member(&self.dependencies[index as usize], node);
        self.dependencies.set(index as usize, updated);
    }

    /// Marks `node` for recomputation.
    pub(crate) fn enqueue(&mut self, node: u32)
        requires
            old(self).wf(),
        ensures
            final(self).wf(),
            final(self).queue@.to_set() == old(self).queue@.to_set().insert(node),
            final(self).structure == old(self).structure,
            final(self).dependencies == old(self).dependencies,
            final(self).targets == old(self).targets,
            final(self).value_size == old(self).value_size,
            final(self).partitioning == old(self).partitioning,
    {
        insert_once(&mut self.queue, node);
    }

    /// The node of target `token`, if there is one.
    pub fn find_target(&self, token: &str) -> (node: Option<u32>)
        ensures
            node == self.target_of(token@),
    {
        let ghost tv = self.target_list();
        let mut k: usize = 0;
        while k < self.targets.len()
            invariant
                k <= self.targets@.len(),
                tv == self.target_list(),
                target_in(tv, token@, 0) == target_in(tv, token@, k as int),
            decreases self.targets@.len() - k,
        {
            if str_eq(self.targets[k].0.as_str(), token) {
                return Some(self.targets[k].1);
            }
            k = k + 1;
        }
        None
    }
}

/// Whether leaf `l` occurs in the product.
pub open spec fn holds_leaf(product: Seq<u32>, l: int) -> bool {
    exists|j: int| 0 <= j < product.len() && #[trigger] product[j] == l
}

/// Whether leaf `l` occurs in one of the products.
pub open spec fn mentions_leaf(sum_product: Seq<Seq<u32>>, l: int) -> bool {
    exists|i: int, j: int| 0 <= i < sum_product.len() && 0 <= j < sum_product[i].len() && #[trigger] sum_product[i][j] == l
}

impl ReactiveCircuit {
    /// Puts `ac` in place of the circuit of node `n` and returns the old one.
    pub(crate) fn swap_circuit(&mut self, n: u32, ac: AlgebraicCircuit) -> (previous: AlgebraicCircuit)
        requires
            old(self).nodes().contains_key(n),
        ensures
            previous == old(self).nodes()[n],
            final(self).nodes() == old(self).nodes().insert(n, ac),
            final(self).edges() == old(self).edges(),
            final(self).value_size == old(self).value_size,
            final(self).dependencies == old(self).dependencies,
            final(self).queue == old(self).queue,
            final(self).targets == old(self).targets,
            final(self).partitioning == old(self).partitioning,
    {
        graph_replace_node(&mut self.structure, n, ac)
    }

    /// Adds an empty target node for `target_token`; returns the node.
    pub fn new_target(&mut self, target_token: &str) -> (node: u32)
        requires
            old(self).wf(),
            old(self).target_of(target_token@) is None,
            old(self).nodes().dom().len() < u32::MAX,
        ensures
            final(self).wf(),
            !old(self).nodes().contains_key(node),
            final(self).nodes().contains_key(node),
            final(self).nodes().remove(node) == old(self).nodes(),
            final(self).nodes()[node].rows().len() == 0,
            final(self).nodes()[node].cols().len() == 0,
            final(self).edges() == old(self).edges(),
            final(self).target_list() == old(self).target_list().push((target_token@, node)),
            final(self).dependencies == old(self).dependencies,
            final(self).queue == old(self).queue,
    {
        let ac = AlgebraicCircuit::new(self.value_size);
        let node = graph_add_node(&mut self.structure, ac);
        self.targets.push((target_token.to_owned(), node));
        proof {
            assert(self.nodes().remove(node) =~= old(self).nodes());
            assert(self.target_list() =~= old(self).target_list().push((target_token@, node)));
            assert forall|n: u32, k: u32| self.nodes().contains_key(n) && #[trigger] self.nodes()[n].cols().contains(Column::Memory(k))
                implies self.edges().contains_key(k) && self.edges()[k].0 == n by {
                if n == node { assert(self.nodes()[n].cols().len() == 0); }
                else { assert(old(self).nodes()[n] == self.nodes()[n]); }
            }
        }
        node
    }

    /// Appends the products `sum_product` (leaf indices) to the circuit of
    /// target `target_token`, creating that target's node when there is
    /// none, registers the node as depending on every leaf in them, and
    /// marks it for recomputation.
    pub fn add_sum_product(&mut self, sum_product: &[Vec<u32>], target_token: &str)
        requires
            old(self).wf(),
            forall|i: int, j: int| 0 <= i < sum_product@.len() && 0 <= j < sum_product@[i]@.len()
                ==> #[trigger] sum_product@[i]@[j] < old(self).dependencies@.len(),
            old(self).target_of(target_token@) matches Some(n) ==> old(self).nodes().contains_key(n),
            old(self).target_of(target_token@) is None ==> old(self).nodes().dom().len() < u32::MAX,
        ensures
            final(self).wf(),
            final(self).target_of(target_token@) matches Some(n) && {
                &&& final(self).nodes().contains_key(n)
                &&& final(self).nodes().remove(n) == old(self).nodes().remove(n)
                &&& final(self).nodes()[n].products() == (if old(self).target_of(target_token@) is Some {
                        old(self).nodes()[n].products()
                    } else {
                        Seq::empty()
                    }) + sum_product@.map_values(|p: Vec<u32>| leaf_set(p@))
                &&& old(self).target_of(target_token@) is None ==> !old(self).nodes().contains_key(n)
                    && final(self).target_list() == old(self).target_list().push((target_token@, n))
                &&& old(self).target_of(target_token@) is Some ==> final(self).target_list() == old(self).target_list()
                &&& final(self).queue@.to_set() == old(self).queue@.to_set().insert(n)
                &&& final(self).dependencies@.len() == old(self).dependencies@.len()
                &&& forall|l: int| 0 <= l < final(self).dependencies@.len() ==> (#[trigger] final(self).dependencies@[l])@.to_set()
                    == if mentions_leaf(sum_product@.map_values(|p: Vec<u32>| p@), l) {
                        old(self).dependencies@[l]@.to_set().insert(n)
                    } else {
                        old(self).dependencies@[l]@.to_set()
                    }
            },
            final(self).edges() == old(self).edges(),
    {
        let node = match self.find_target(target_token) {
            Some(n) => n,
            None => {
                let n = self.new_target(target_token);
                proof {
                    assert(self.target_list() == old(self).target_list().push((target_token@, n)));
                    lemma_target_in_push(old(self).target_list(), target_token@, n, 0);
                }
                n
            },
        };
        let ghost mid = *self;
        let placeholder = AlgebraicCircuit::new(self.value_size);
        let mut ac = self.swap_circuit(node, placeholder);
        ac.add_sum_product(sum_product);
        self.swap_circuit(node, ac);
        proof {
            assert(self.nodes() =~= mid.nodes().insert(node, ac));
            assert forall|k: u32| #[trigger] ac.cols().contains(Column::Memory(k)) == mid.nodes()[node].cols().contains(Column::Memory(k)) by {
                lemma_extend_all_keeps_memories(mid.nodes()[node].cols(), sum_product@.map_values(|p: Vec<u32>| p@), k);
            }
            assert forall|n: u32, k: u32| self.nodes().contains_key(n) && #[trigger] self.nodes()[n].cols().contains(Column::Memory(k))
                implies self.edges().contains_key(k) && self.edges()[k].0 == n by {
                if n != node { assert(self.nodes()[n] == mid.nodes()[n]); }
            }
            assert forall|e: u32| #[trigger] self.edges().contains_key(e)
                implies self.nodes()[self.edges()[e].0].cols().contains(Column::Memory(e)) by {
                let src = self.edges()[e].0;
                if src != node { assert(self.nodes()[src] == mid.nodes()[src]); }
                else { assert(ac.cols().contains(Column::Memory(e)) == mid.nodes()[node].cols().contains(Column::Memory(e))); }
            }
            assert(self.wf());
        }
        let ghost before_deps = self.dependencies@;
        let ghost sp = sum_product@.map_values(|p: Vec<u32>| p@);
        let mut i: usize = 0;
        while i < sum_product.len()
            invariant
                i <= sum_product@.len(),
                self.wf(),
                self.nodes() == mid.nodes().insert(node, ac),
                self.edges() == mid.edges(),
                self.targets == mid.targets,
                self.queue == mid.queue,
                sp == sum_product@.map_values(|p: Vec<u32>| p@),
                forall|a: int, b: int| 0 <= a < sum_product@.len() && 0 <= b < sum_product@[a]@.len()
                    ==> #[trigger] sum_product@[a]@[b] < before_deps.len(),
                self.dependencies@.len() == before_deps.len(),
                forall|l: int| 0 <= l < before_deps.len() ==> (#[trigger] self.dependencies@[l])@.to_set()
                    == if mentions_leaf(sp.take(i as int), l) { before_deps[l]@.to_set().insert(node) } else { before_deps[l]@.to_set() },
            decreases sum_product@.len() - i,
        {
            let product = &sum_product[i];
            let ghost row_start = self.dependencies@;
            let mut j: usize = 0;
            while j < product.len()
                invariant
                    i < sum_product@.len(),
                    j <= product@.len(),
                    product == sum_product@[i as int],
                    self.wf(),
                    self.nodes() == mid.nodes().insert(node, ac),
                    self.edges() == mid.edges(),
                    self.targets == mid.targets,
                    self.queue == mid.queue,
                    forall|a: int, b: int| 0 <= a < sum_product@.len() && 0 <= b < sum_product@[a]@.len()
                        ==> #[trigger] sum_product@[a]@[b] < before_deps.len(),
                    self.dependencies@.len() == before_deps.len(),
                    row_start.len() == before_deps.len(),
                    forall|l: int| 0 <= l < before_deps.len() ==> (#[trigger] self.dependencies@[l])@.to_set()
                        == if exists|b: int| 0 <= b < j && product@[b] == l { row_start[l]@.to_set().insert(node) } else { row_start[l]@.to_set() },
                decreases product@.len() - j,
            {
                let ghost before = self.dependencies@;
                proof { assert(sum_product@[i as int]@[j as int] < before_deps.len()); }
                self.set_dependency(product[j], node);
                proof {
                    assert forall|l: int| 0 <= l < before_deps.len() implies (#[trigger] self.dependencies@[l])@.to_set()
                        == if exists|b: int| 0 <= b < j + 1 && product@[b] == l { row_start[l]@.to_set().insert(node) } else { row_start[l]@.to_set() } by {
                        if l == product@[j as int] {
                            assert(product@[j as int] == l);
                            if exists|b: int| 0 <= b < j && product@[b] == l {
                                assert(before[l]@.to_set() == row_start[l]@.to_set().insert(node));
                                assert(self.dependencies@[l]@.to_set() =~= row_start[l]@.to_set().insert(node));
                            }
                        } else {
                            assert(self.dependencies@[l] == before[l]);
                            if exists|b: int| 0 <= b < j + 1 && product@[b] == l {
                                let b = choose|b: int| 0 <= b < j + 1 && product@[b] == l;
                                assert(b < j);
                            }
                        }
                    }
                }
                j = j + 1;
            }
            proof {
                assert forall|l: int| 0 <= l < before_deps.len() implies (#[trigger] self.dependencies@[l])@.to_set()
                    == if mentions_leaf(sp.take(i + 1), l) { before_deps[l]@.to_set().insert(node) } else { before_deps[l]@.to_set() } by {
                    let in_row = exists|b: int| 0 <= b < product@.len() && product@[b] == l;
                    assert(sp.take(i + 1)[i as int] == product@);
                    let t1 = sp.take(i + 1);
                    let t0 = sp.take(i as int);
                    if mentions_leaf(t1, l) {
                        let (a, b) = choose|a: int, b: int| 0 <= a < t1.len() && 0 <= b < t1[a].len() && #[trigger] t1[a][b] == l;
                        if a < i { assert(t0[a][b] == l); assert(mentions_leaf(t0, l)); }
                        else { assert(product@[b] == l); }
                    } else {
                        if mentions_leaf(t0, l) {
                            let (a, b) = choose|a: int, b: int| 0 <= a < t0.len() && 0 <= b < t0[a].len() && #[trigger] t0[a][b] == l;
                            assert(t1[a][b] == l);
                        }
                        if in_row {
                            let b = choose|b: int| 0 <= b < product@.len() && product@[b] == l;
                            assert(sp.take(i + 1)[i as int][b] == l);
                        }
                    }
                    if in_row && mentions_leaf(sp.take(i as int), l) {
                        assert(self.dependencies@[l]@.to_set() =~= before_deps[l]@.to_set().insert(node));
                    }
                }
            }
            i = i + 1;
        }
        self.enqueue(node);
        proof {
            assert(sp.take(sum_product@.len() as int) =~= sp);
            assert(self.nodes().remove(node) =~= old(self).nodes().remove(node)) by {
                if old(self).target_of(target_token@) is None {
                    assert(mid.nodes().remove(node) =~= old(self).nodes());
                    assert(old(self).nodes().remove(node) =~= old(self).nodes());
                }
            }
            if old(self).target_of(target_token@) is None {
                assert(mid.nodes()[node].products() =~= Seq::<Set<Column>>::empty());
            }
            assert(ac.products() == mid.nodes()[node].products() + sum_product@.map_values(|p: Vec<u32>| leaf_set(p@)));
        }
        proof { lemma_target_in_same(old(self).target_list(), self.target_list(), target_token@, node); }
    }
}

proof fn lemma_target_in_push(targets: Seq<(Seq<char>, u32)>, token: Seq<char>, n: u32, k: int)
    requires
        target_in(targets, token, k) is None,
        0 <= k <= targets.len(),
    ensures
        target_in(targets.push((token, n)), token, k) == Some(n),
    decreases targets.len() - k,
{
    if k < targets.len() {
        assert(targets.push((token, n))[k] == targets[k]);
        assert(targets[k].0 != token);
        lemma_target_in_push(targets, token, n, k + 1);
    } else {
        assert(k == targets.len());
        assert(targets.push((token, n))[k] == (token, n));
    }
}

proof fn lemma_target_in_same(before: Seq<(Seq<char>, u32)>, after: Seq<(Seq<char>, u32)>, token: Seq<char>, n: u32)
    requires
        after == before || after == before.push((token, n)),
        target_in(before, token, 0) is None ==> after == before.push((token, n)),
        target_in(before, token, 0) matches Some(m) ==> after == before && m == n,
    ensures
        target_in(after, token, 0) == Some(n),
{
    if target_in(before, token, 0) is None {
        lemma_target_in_push(before, token, n, 0);
    }
}

// ── reachability ────────────────────────────────────────────────────────────

/// Whether `a` reaches `b` in exactly `k` steps along the edges.
pub open spec fn reach_in(edges: Map<u32, (u32, u32)>, a: u32, b: u32, k: nat) -> bool
    decreases k,
{
    if k == 0 {
        a == b
    } else {
        exists|e: u32| #[trigger] edges.contains_key(e) && edges[e].0 == a && reach_in(edges, edges[e].1, b, (k - 1) as nat)
    }
}

/// Whether `a` reaches `b` along the edges (every node reaches itself).
pub open spec fn reaches(edges: Map<u32, (u32, u32)>, a: u32, b: u32) -> bool {
    exists|k: nat| #[trigger] reach_in(edges, a, b, k)
}

/// The ancestors of node `n`: the nodes that reach it, `n` included.
pub open spec fn ancestors(edges: Map<u32, (u32, u32)>, n: u32) -> Set<u32> {
    Set::new(|a: u32| reaches(edges, a, n))
}

/// A set that holds the source of every edge whose target it holds holds
/// every node that reaches one of its members.
proof fn lemma_closed_holds_reachers(edges: Map<u32, (u32, u32)>, s: Set<u32>, a: u32, b: u32, k: nat)
    requires
        forall|e: u32| #[trigger] edges.contains_key(e) && s.contains(edges[e].1) ==> s.contains(edges[e].0),
        s.contains(b),
        reach_in(edges, a, b, k),
    ensures
        s.contains(a),
    decreases k,
{
    if k > 0 {
        let e = choose|e: u32| #[trigger] edges.contains_key(e) && edges[e].0 == a && reach_in(edges, edges[e].1, b, (k - 1) as nat);
        lemma_closed_holds_reachers(edges, s, edges[e].1, b, (k - 1) as nat);
    }
}

impl ReactiveCircuit {
    /// Adds the product of the leaves `product` to the circuit of target
    /// `target_token`, registers the target's node as depending on them and
    /// marks it for recomputation.
    pub fn add(&mut self, product: &[u32], target_token: &str)
        requires
            old(self).wf(),
            old(self).target_of(target_token@) matches Some(n) && old(self).nodes().contains_key(n),
            forall|j: int| 0 <= j < product@.len() ==> #[trigger] product@[j] < old(self).dependencies@.len(),
        ensures
            final(self).wf(),
            old(self).target_of(target_token@) matches Some(n) && {
                &&& final(self).nodes().remove(n) == old(self).nodes().remove(n)
                &&& final(self).nodes().contains_key(n)
                &&& final(self).nodes()[n].products() == old(self).nodes()[n].products().push(leaf_set(product@))
                &&& final(self).queue@.to_set() == old(self).queue@.to_set().insert(n)
                &&& final(self).dependencies@.len() == old(self).dependencies@.len()
                &&& forall|l: int| 0 <= l < final(self).dependencies@.len() ==> (#[trigger] final(self).dependencies@[l])@.to_set()
                    == if holds_leaf(product@, l) {
                        old(self).dependencies@[l]@.to_set().insert(n)
                    } else {
                        old(self).dependencies@[l]@.to_set()
                    }
            },
            final(self).target_list() == old(self).target_list(),
            final(self).edges() == old(self).edges(),
    {
        let mut copy: Vec<u32> = Vec::new();
        let mut j: usize = 0;
        while j < product.len()
            invariant
                j <= product@.len(),
                copy@ == product@.take(j as int),
            decreases product@.len() - j,
        {
            copy.push(product[j]);
            proof { assert(product@.take(j + 1) =~= product@.take(j as int).push(product@[j as int])); }
            j = j + 1;
        }
        proof { assert(product@.take(product@.len() as int) =~= product@); }
        let sum_product = vec![copy];
        proof {
            assert(sum_product@.len() == 1);
            assert(sum_product@[0]@ == product@);
        }
        self.add_sum_product(sum_product.as_slice(), target_token);
        proof {
            let sp = sum_product@.map_values(|p: Vec<u32>| p@);
            assert(sum_product@.map_values(|p: Vec<u32>| leaf_set(p@)) =~= seq![leaf_set(product@)]);
            assert forall|l: int| 0 <= l < self.dependencies@.len() implies
                mentions_leaf(sp, l) == holds_leaf(product@, l) by {
                if mentions_leaf(sp, l) {
                    let (a, b) = choose|a: int, b: int| 0 <= a < sp.len() && 0 <= b < sp[a].len() && #[trigger] sp[a][b] == l;
                    assert(a == 0);
                    assert(product@[b] == l);
                }
                if holds_leaf(product@, l) {
                    let b = choose|b: int| 0 <= b < product@.len() && #[trigger] product@[b] == l;
                    assert(sp[0][b] == l);
                }
            }
        }
    }

    /// Marks every node for recomputation.  The graph must be free of
    /// cycles, which the topological sort it uses relies on.
    pub fn invalidate(&mut self)
        requires
            old(self).wf(),
            acyclic(old(self).nodes().dom(), old(self).edges()),
        ensures
            final(self).wf(),
            final(self).queue@.to_set() == old(self).queue@.to_set() + old(self).nodes().dom(),
            final(self).structure == old(self).structure,
            final(self).dependencies == old(self).dependencies,
            final(self).targets == old(self).targets,
    {
        let order = match graph_toposort(&self.structure) {
            Some(o) => o,
            None => return,
        };
        let mut i: usize = 0;
        while i < order.len()
            invariant
                i <= order@.len(),
                self.wf(),
                self.structure == old(self).structure,
                self.dependencies == old(self).dependencies,
                self.targets == old(self).targets,
                is_topological(order@, old(self).nodes().dom(), old(self).edges()),
                self.queue@.to_set() == old(self).queue@.to_set() + order@.take(i as int).to_set(),
            decreases order@.len() - i,
        {
            self.enqueue(order[i]);
            proof {
                assert(order@.take(i + 1) =~= order@.take(i as int).push(order@[i as int]));
                crate::lemmas::lemma_to_set_push(order@.take(i as int), order@[i as int]);
                assert(self.queue@.to_set() =~= old(self).queue@.to_set() + order@.take(i + 1).to_set());
            }
            i = i + 1;
        }
        proof { assert(order@.take(order@.len() as int) =~= order@); }
    }

    /// All ancestors of `node` (the nodes that reach it), `node` included;
    /// none when `node` is not in the graph.
    pub fn get_ancestors(&self, node: u32) -> (found: Vec<u32>)
        requires
            self.wf(),
        ensures
            found@.no_duplicates(),
            self.nodes().contains_key(node) ==> found@.to_set() == ancestors(self.edges(), node),
            !self.nodes().contains_key(node) ==> found@.len() == 0,
    {
        let ghost edges = self.edges();
        let ghost dom = self.nodes().dom();
        if !self.contains_node(node) {
            return Vec::new();
        }
        let mut visited: Vec<u32> = Vec::new();
        visited.push(node);
        let mut next: usize = 0;
        proof {
            assert(reach_in(edges, node, node, 0));
        }
        while next < visited.len()
            invariant
                self.wf(),
                edges == self.edges(),
                dom == self.nodes().dom(),
                dom.contains(node),
                next <= visited@.len(),
                visited@.no_duplicates(),
                visited@.len() >= 1,
                visited@[0] == node,
                forall|j: int| 0 <= j < visited@.len() ==> dom.contains(#[trigger] visited@[j]),
                forall|j: int| 0 <= j < visited@.len() ==> reaches(edges, #[trigger] visited@[j], node),
                forall|e: u32| #[trigger] edges.contains_key(e) && visited@.take(next as int).contains(edges[e].1)
                    ==> visited@.contains(edges[e].0),
            decreases dom.len() - next,
        {
            proof {
                crate::lemmas::lemma_no_dup_len_le(visited@, dom);
            }
            let current = visited[next];
            let parents = graph_edges_directed(&self.structure, current, true);
            let mut k: usize = 0;
            while k < parents.len()
                invariant
                    self.wf(),
                    edges == self.edges(),
                    dom == self.nodes().dom(),
                    next < visited@.len(),
                    visited@[next as int] == current,
                    visited@.no_duplicates(),
                    visited@.len() >= 1,
                    visited@[0] == node,
                    k <= parents@.len(),
                    forall|q: int| 0 <= q < parents@.len() ==> edges.contains_key(#[trigger] parents@[q].0)
                        && edges[parents@[q].0] == (parents@[q].1, current),
                    forall|j: int| 0 <= j < visited@.len() ==> dom.contains(#[trigger] visited@[j]),
                    forall|j: int| 0 <= j < visited@.len() ==> reaches(edges, #[trigger] visited@[j], node),
                    forall|e: u32| #[trigger] edges.contains_key(e) && visited@.take(next as int).contains(edges[e].1)
                        ==> visited@.contains(edges[e].0),
                    forall|q: int| 0 <= q < k ==> visited@.contains(#[trigger] parents@[q].1),
                decreases parents@.len() - k,
            {
                let parent = parents[k].1;
                if !contains_u32(&visited, parent) {
                    let ghost before = visited@;
                    proof {
                        let e = parents@[k as int].0;
                        assert(edges.contains_key(e) && edges[e] == (parent, current));
                        assert(reaches(edges, current, node));
                        let steps = choose|steps: nat| #[trigger] reach_in(edges, current, node, steps);
                        assert(reach_in(edges, parent, node, steps + 1));
                        assert(dom.contains(parent));
                    }
                    visited.push(parent);
                    proof {
                        assert forall|j: int| 0 <= j < visited@.len() implies reaches(edges, #[trigger] visited@[j], node) by {
                            if j < before.len() { assert(visited@[j] == before[j]); }
                            else {
                                let steps = choose|steps: nat| #[trigger] reach_in(edges, current, node, steps);
                                assert(reach_in(edges, parent, node, steps + 1));
                            }
                        }
                        assert forall|i: int, j: int| 0 <= i < visited@.len() && 0 <= j < visited@.len() && i != j
                            implies visited@[i] != visited@[j] by {
                            if i < before.len() && j < before.len() { assert(before[i] != before[j]); }
                            else if i < before.len() { assert(before.contains(before[i])); }
                            else { assert(before.contains(before[j])); }
                        }
                        assert forall|e: u32| #[trigger] edges.contains_key(e) && visited@.take(next as int).contains(edges[e].1)
                            implies visited@.contains(edges[e].0) by {
                            assert(visited@.take(next as int) =~= before.take(next as int));
                            assert(before.contains(edges[e].0));
                            let q = choose|q: int| 0 <= q < before.len() && before[q] == edges[e].0;
                            assert(visited@[q] == edges[e].0);
                        }
                        assert forall|q: int| 0 <= q < k + 1 implies visited@.contains(#[trigger] parents@[q].1) by {
                            if q < k {
                                let w = choose|w: int| 0 <= w < before.len() && before[w] == parents@[q].1;
                                assert(visited@[w] == parents@[q].1);
                            } else {
                                assert(visited@[before.len() as int] == parent);
                            }
                        }
                    }
                }
                k = k + 1;
            }
            proof {
                assert forall|e: u32| #[trigger] edges.contains_key(e) && visited@.take(next + 1).contains(edges[e].1)
                    implies visited@.contains(edges[e].0) by {
                    if visited@.take(next as int).contains(edges[e].1) {
                    } else {
                        let t = visited@.take(next + 1);
                        let w = choose|w: int| 0 <= w < t.len() && #[trigger] t[w] == edges[e].1;
                        if w < next {
                            assert(visited@.take(next as int)[w] == edges[e].1);
                        } else {
                            assert(edges[e].1 == current);
                            let q = choose|q: int| 0 <= q < parents@.len() && #[trigger] parents@[q].0 == e;
                            assert(visited@.contains(parents@[q].1));
                        }
                    }
                }
            }
            next = next + 1;
        }
        proof {
            assert(visited@.take(visited@.len() as int) =~= visited@);
            let s = visited@.to_set();
            assert forall|a: u32| s.contains(a) <==> ancestors(edges, node).contains(a) by {
                if s.contains(a) {
                    let j = choose|j: int| 0 <= j < visited@.len() && visited@[j] == a;
                    assert(reaches(edges, visited@[j], node));
                }
                if ancestors(edges, node).contains(a) {
                    let steps = choose|steps: nat| #[trigger] reach_in(edges, a, node, steps);
                    assert(s.contains(node));
                    lemma_closed_holds_reachers(edges, s, a, node, steps);
                }
            }
            assert(s =~= ancestors(edges, node));
        }
        visited
    }

    /// Whether node `n` is in the graph.
    pub(crate) fn contains_node(&self, n: u32) -> (b: bool)
        ensures
            b == self.nodes().contains_key(n),
    {
        graph_contains_node(&self.structure, n)
    }
}

/// Whether `v` holds `x`.
pub(crate) fn contains_u32(v: &Vec<u32>, x: u32) -> (b: bool)
    ensures
        b == v@.contains(x),
{
    let mut k: usize = 0;
    while k < v.len()
        invariant
            k <= v@.len(),
            forall|j: int| 0 <= j < k ==> v@[j] != x,
        decreases v@.len() - k,
    {
        if v[k] == x {
            return true;
        }
        k = k + 1;
    }
    false
}

/// The nodes that depend on leaf `l`: the ancestors of every node whose
/// circuit holds it.
pub open spec fn leaf_dependents(nodes: Map<u32, AlgebraicCircuit>, edges: Map<u32, (u32, u32)>, l: u32) -> Set<u32> {
    Set::new(|a: u32| exists|n: u32| #[trigger] nodes.contains_key(n) && nodes[n].cols().contains(Column::Leaf(l)) && reaches(edges, a, n))
}

/// Whether the memory column `Memory(k)` is in `cols.remove(c)`: when it was
/// in `cols` and not at position `c`.
pub(crate) proof fn lemma_remove_col_contains(cols: Seq<Column>, c: int, v: Column)
    requires
        cols.no_duplicates(),
        0 <= c < cols.len(),
    ensures
        cols.remove(c).contains(v) == (cols.contains(v) && cols[c] != v),
{
    let r = cols.remove(c);
    if r.contains(v) {
        let q = choose|q: int| 0 <= q < r.len() && r[q] == v;
        if q < c { assert(cols[q] == v); assert(q != c); } else { assert(cols[q + 1] == v); assert(q + 1 != c); }
    }
    if cols.contains(v) && cols[c] != v {
        let q = choose|q: int| 0 <= q < cols.len() && cols[q] == v;
        assert(q != c);
        if q < c { assert(r[q] == v); } else { assert(r[q - 1] == v); }
    }
}

impl ReactiveCircuit {
    /// Recomputes, for every leaf, the nodes that depend on it: the
    /// ancestors of every node whose circuit holds the leaf.
    pub fn update_dependencies(&mut self)
        requires
            old(self).wf(),
            old(self).dependencies@.len() <= u32::MAX,
        ensures
            final(self).wf(),
            final(self).dependencies@.len() == old(self).dependencies@.len(),
            forall|l: int| 0 <= l < final(self).dependencies@.len() ==> (#[trigger] final(self).dependencies@[l])@.to_set()
                == leaf_dependents(old(self).nodes(), old(self).edges(), l as u32),
            final(self).structure == old(self).structure,
            final(self).queue == old(self).queue,
            final(self).targets == old(self).targets,
            final(self).value_size == old(self).value_size,
            final(self).partitioning == old(self).partitioning,
    {
        let order = graph_node_indices(&self.structure);
        let ghost nodes = self.nodes();
        let ghost edges = self.edges();
        let mut index: usize = 0;
        while index < self.dependencies.len()
            invariant
                index <= self.dependencies@.len(),
                self.dependencies@.len() == old(self).dependencies@.len(),
                old(self).dependencies@.len() <= u32::MAX,
                self.wf(),
                self.structure == old(self).structure,
                self.queue == old(self).queue,
                self.targets == old(self).targets,
                self.value_size == old(self).value_size,
                self.partitioning == old(self).partitioning,
                nodes == self.nodes(),
                edges == self.edges(),
                order@.to_set() == nodes.dom(),
                forall|l: int| 0 <= l < index ==> (#[trigger] self.dependencies@[l])@.to_set()
                    == leaf_dependents(nodes, edges, l as u32),
            decreases self.dependencies@.len() - index,
        {
            let leaf = index as u32;
            let mut deps: Vec<u32> = Vec::new();
            let mut k: usize = 0;
            while k < order.len()
                invariant
                    k <= order@.len(),
                    self.wf(),
                    nodes == self.nodes(),
                    edges == self.edges(),
                    order@.to_set() == nodes.dom(),
                    increasing(deps@),
                    deps@.to_set() == Set::new(|a: u32| exists|q: int| 0 <= q < k && nodes[#[trigger] order@[q]].cols().contains(Column::Leaf(leaf))
                        && reaches(edges, a, order@[q])),
                decreases order@.len() - k,
            {
                let node = order[k];
                proof { assert(order@.to_set().contains(node)); }
                let ghost before = deps@.to_set();
                if graph_node(&self.structure, node).is_in_circuit(leaf) {
                    let found = self.get_ancestors(node);
                    let mut m: usize = 0;
                    while m < found.len()
                        invariant
                            m <= found@.len(),
                            increasing(deps@),
                            deps@.to_set() == before + found@.take(m as int).to_set(),
                        decreases found@.len() - m,
                    {
                        let ghost prev = deps@;
                        deps = with_member(&deps, found[m]);
                        proof {
                            assert(found@.take(m + 1) =~= found@.take(m as int).push(found@[m as int]));
                            crate::lemmas::lemma_to_set_push(found@.take(m as int), found@[m as int]);
                            assert(deps@.to_set() =~= before + found@.take(m + 1).to_set());
                        }
                        m = m + 1;
                    }
                    proof {
                        assert(found@.take(found@.len() as int) =~= found@);
                        assert(found@.to_set() == ancestors(edges, node));
                    }
                }
                proof {
                    assert(deps@.to_set() =~= Set::new(|a: u32| exists|q: int| 0 <= q < k + 1 && nodes[#[trigger] order@[q]].cols().contains(Column::Leaf(leaf))
                        && reaches(edges, a, order@[q]))) by {
                        assert forall|a: u32| deps@.to_set().contains(a) == (exists|q: int| 0 <= q < k + 1 && nodes[#[trigger] order@[q]].cols().contains(Column::Leaf(leaf))
                            && reaches(edges, a, order@[q])) by {
                            if exists|q: int| 0 <= q < k + 1 && nodes[#[trigger] order@[q]].cols().contains(Column::Leaf(leaf)) && reaches(edges, a, order@[q]) {
                                let q = choose|q: int| 0 <= q < k + 1 && nodes[#[trigger] order@[q]].cols().contains(Column::Leaf(leaf)) && reaches(edges, a, order@[q]);
                                if q < k {
                                    assert(before.contains(a));
                                } else {
                                    assert(ancestors(edges, node).contains(a));
                                }
                            }
                        }
                    }
                }
                k = k + 1;
            }
            proof {
                assert(deps@.to_set() =~= leaf_dependents(nodes, edges, leaf)) by {
                    assert forall|a: u32| deps@.to_set().contains(a) == leaf_dependents(nodes, edges, leaf).contains(a) by {
                        if leaf_dependents(nodes, edges, leaf).contains(a) {
                            let n = choose|n: u32| #[trigger] nodes.contains_key(n) && nodes[n].cols().contains(Column::Leaf(leaf)) && reaches(edges, a, n);
                            assert(order@.to_set().contains(n));
                            let q = choose|q: int| 0 <= q < order@.len() && order@[q] == n;
                            assert(nodes[order@[q]].cols().contains(Column::Leaf(leaf)));
                        }
                        if deps@.to_set().contains(a) {
                            let q = choose|q: int| 0 <= q < order@.len() && nodes[#[trigger] order@[q]].cols().contains(Column::Leaf(leaf)) && reaches(edges, a, order@[q]);
                            assert(order@.to_set().contains(order@[q]));
                            assert(nodes.contains_key(order@[q]));
                        }
                    }
                }
            }
            self.dependencies.set(index, deps);
            proof {
                assert forall|l: int| 0 <= l < index + 1 implies (#[trigger] self.dependencies@[l])@.to_set()
                    == leaf_dependents(nodes, edges, l as u32) by {
                    if l == index { assert(leaf == l as u32); }
                }
            }
            index = index + 1;
        }
    }

    /// Adds an edge from `parent` to `child` and a memory column for it in
    /// the parent's circuit, placed in row `row`; returns that column.
    pub fn connect(&mut self, parent: u32, child: u32, row: usize) -> (col: usize)
        requires
            old(self).wf(),
            old(self).nodes().contains_key(parent),
            old(self).nodes().contains_key(child),
            row < old(self).nodes()[parent].rows().len(),
            old(self).edges().dom().len() < u32::MAX,
        ensures
            final(self).wf(),
            exists|e: u32| {
                &&& !old(self).edges().contains_key(e)
                &&& final(self).edges() == old(self).edges().insert(e, (parent, child))
                &&& final(self).nodes()[parent].cols() == old(self).nodes()[parent].cols().push(Column::Memory(e))
                &&& col == old(self).nodes()[parent].cols().len()
                &&& final(self).nodes()[parent].products() == old(self).nodes()[parent].products().update(row as int,
                    old(self).nodes()[parent].products()[row as int].insert(Column::Memory(e)))
            },
            final(self).nodes().dom() == old(self).nodes().dom(),
            forall|n: u32| #[trigger] final(self).nodes().contains_key(n) && n != parent ==> final(self).nodes()[n] == old(self).nodes()[n],
            final(self).nodes()[parent].rows().len() == old(self).nodes()[parent].rows().len(),
            forall|r: int| 0 <= r < old(self).nodes()[parent].rows().len() && r != row
                ==> #[trigger] final(self).nodes()[parent].rows()[r] == old(self).nodes()[parent].rows()[r],
            final(self).nodes()[parent].rows()[row as int].to_set() == old(self).nodes()[parent].rows()[row as int].to_set().insert(col),
            final(self).dependencies == old(self).dependencies,
            final(self).queue == old(self).queue,
            final(self).targets == old(self).targets,
            final(self).value_size == old(self).value_size,
            final(self).partitioning == old(self).partitioning,
    {
        let edge = graph_add_edge(&mut self.structure, parent, child);
        let placeholder = AlgebraicCircuit::new(self.value_size);
        let mut ac = self.swap_circuit(parent, placeholder);
        proof {
            if ac.cols().contains(Column::Memory(edge)) {
                assert(old(self).nodes()[parent].cols().contains(Column::Memory(edge)));
            }
        }
        let col = ac.create_memory(edge);
        proof { ac.lemma_wf(); }
        ac.add_col_to_minterm(row, col);
        self.swap_circuit(parent, ac);
        proof {
            let nodes = self.nodes();
            let edges = self.edges();
            assert(nodes =~= old(self).nodes().insert(parent, ac));
            assert forall|e: u32| #[trigger] edges.contains_key(e) implies nodes[edges[e].0].cols().contains(Column::Memory(e)) by {
                if e != edge {
                    let src = edges[e].0;
                    assert(old(self).nodes()[src].cols().contains(Column::Memory(e)));
                    if src == parent {
                        let q = choose|q: int| 0 <= q < old(self).nodes()[parent].cols().len() && old(self).nodes()[parent].cols()[q] == Column::Memory(e);
                        assert(ac.cols()[q] == Column::Memory(e));
                    }
                } else {
                    assert(ac.cols()[col as int] == Column::Memory(edge));
                }
            }
            assert forall|n: u32, k: u32| nodes.contains_key(n) && #[trigger] nodes[n].cols().contains(Column::Memory(k))
                implies edges.contains_key(k) && edges[k].0 == n by {
                if n == parent && k != edge {
                    let q = choose|q: int| 0 <= q < ac.cols().len() && ac.cols()[q] == Column::Memory(k);
                    assert(old(self).nodes()[parent].cols()[q] == Column::Memory(k));
                    assert(old(self).nodes()[parent].cols().contains(Column::Memory(k)));
                }
            }
            let before = old(self).nodes()[parent];
            before.lemma_wf();
            ac.lemma_sizes();
            assert forall|i: int| 0 <= i < before.rows().len() implies #[trigger] ac.products()[i]
                == before.products().update(row as int, before.products()[row as int].insert(Column::Memory(edge)))[i] by {
                assert(crate::circuit::algebraic::row_ok(before.rows()[i], before.cols().len()));
                if i == row {
                    crate::circuit::semantics::lemma_row_vars_push(before.rows()[i], ac.rows()[i], before.cols(),
                        Column::Memory(edge));
                } else {
                    crate::circuit::lift_values::lemma_row_vars_prefix(before.rows()[i], before.cols(), ac.cols());
                }
            }
            assert(ac.products() =~= before.products().update(row as int, before.products()[row as int].insert(Column::Memory(edge))));
        }
        col
    }
}

/// Adding a leaf column keeps the memory columns.
pub(crate) proof fn lemma_add_leaf_keeps_memories(cols: Seq<Column>, i: u32, k: u32)
    ensures
        add_column(cols, Column::Leaf(i)).contains(Column::Memory(k)) == cols.contains(Column::Memory(k)),
{
    if !cols.contains(Column::Leaf(i)) {
        let c = cols.push(Column::Leaf(i));
        if c.contains(Column::Memory(k)) {
            let q = choose|q: int| 0 <= q < c.len() && c[q] == Column::Memory(k);
            assert(q < cols.len());
            assert(cols[q] == Column::Memory(k));
        }
        if cols.contains(Column::Memory(k)) {
            let q = choose|q: int| 0 <= q < cols.len() && cols[q] == Column::Memory(k);
            assert(c[q] == Column::Memory(k));
        }
    }
}

impl ReactiveCircuit {
    /// Whether every edge from `parent` to `child` has its memory column in
    /// a row of the parent's circuit.
    pub open spec fn memories_in_rows(&self, parent: u32, child: u32) -> bool {
        forall|e: u32| #[trigger] self.edges().contains_key(e) && self.edges()[e] == (parent, child)
            ==> exists|r: int, c: int| 0 <= r < self.nodes()[parent].rows().len()
                && 0 <= c < self.nodes()[parent].cols().len()
                && self.nodes()[parent].cols()[c] == Column::Memory(e)
                && #[trigger] self.nodes()[parent].rows()[r].contains(c as usize)
    }

    /// Removes an edge from `parent` to `child` and its memory column; the
    /// first row that held that column stays (without it) and is returned.
    pub fn disconnect(&mut self, parent: u32, child: u32) -> (row: usize)
        requires
            old(self).wf(),
            old(self).nodes().contains_key(parent),
            exists|e: u32| #[trigger] old(self).edges().contains_key(e) && old(self).edges()[e] == (parent, child),
            old(self).memories_in_rows(parent, child),
        ensures
            final(self).wf(),
            exists|e: u32, c: int| #![trigger old(self).edges().contains_key(e), old(self).nodes()[parent].cols()[c]] {
                &&& old(self).edges().contains_key(e)
                &&& old(self).edges()[e] == (parent, child)
                &&& final(self).edges() == old(self).edges().remove(e)
                &&& 0 <= c < old(self).nodes()[parent].cols().len()
                &&& old(self).nodes()[parent].cols()[c] == Column::Memory(e)
                &&& final(self).nodes()[parent].cols() == old(self).nodes()[parent].cols().remove(c)
                &&& final(self).nodes()[parent].rows() == old(self).nodes()[parent].rows().map_values(
                    |r: Seq<usize>| crate::circuit::algebraic::shift_row(r, c as usize))
                &&& row < old(self).nodes()[parent].rows().len()
                &&& old(self).nodes()[parent].rows()[row as int].contains(c as usize)
                &&& forall|r: int| 0 <= r < row ==> !(#[trigger] old(self).nodes()[parent].rows()[r]).contains(c as usize)
            },
            final(self).nodes().dom() == old(self).nodes().dom(),
            forall|n: u32| #[trigger] final(self).nodes().contains_key(n) && n != parent ==> final(self).nodes()[n] == old(self).nodes()[n],
            final(self).dependencies == old(self).dependencies,
            final(self).queue == old(self).queue,
            final(self).targets == old(self).targets,
    {
        let ghost nodes0 = self.nodes();
        let ghost edges0 = self.edges();
        let out = graph_edges_directed(&self.structure, parent, false);
        let mut k: usize = 0;
        while k < out.len() && out[k].1 != child
            invariant
                k <= out@.len(),
                forall|q: int| 0 <= q < k ==> (#[trigger] out@[q]).1 != child,
            decreases out@.len() - k,
        {
            k = k + 1;
        }
        if k == out.len() {
            proof {
                let e = choose|e: u32| #[trigger] edges0.contains_key(e) && edges0[e] == (parent, child);
                let q = choose|q: int| 0 <= q < out@.len() && #[trigger] out@[q].0 == e;
                assert(edges0[out@[q].0] == (parent, out@[q].1));
                assert(false);
            }
            return 0;
        }
        let edge = out[k].0;
        proof { assert(edges0[edge] == (parent, child)); }
        let placeholder = AlgebraicCircuit::new(self.value_size);
        let mut ac = self.swap_circuit(parent, placeholder);
        proof {
            assert(ac.cols().contains(Column::Memory(edge)));
            ac.lemma_wf();
            ac.lemma_sizes();
            let q = choose|q: int| 0 <= q < ac.cols().len() && ac.cols()[q] == Column::Memory(edge);
            assert((q as usize) < ac.cols().len() && ac.cols()[(q as usize) as int] == Column::Memory(edge));
        }
        let col = match ac.get_memory(edge) {
            Some(c) => c,
            None => {
                proof { assert(false); }
                0
            },
        };
        proof {
            assert(col < ac.cols().len() && ac.cols()[col as int] == Column::Memory(edge));
        }
        let rows = ac.minterms_containing_col(col);
        if rows.len() == 0 {
            proof {
                let (r, c) = choose|r: int, c: int| 0 <= r < nodes0[parent].rows().len()
                    && 0 <= c < nodes0[parent].cols().len()
                    && nodes0[parent].cols()[c] == Column::Memory(edge)
                    && #[trigger] nodes0[parent].rows()[r].contains(c as usize);
                assert(c == col as int);
                assert(ac == nodes0[parent]);
                ac.lemma_sizes();
                assert(ac.rows()[(r as usize) as int].contains(col));
                assert(rows@.contains(r as usize));
            }
            self.swap_circuit(parent, ac);
            return 0;
        }
        let row = rows[0];
        proof {
            assert(rows@.contains(row));
            assert forall|r: int| 0 <= r < row implies !(#[trigger] nodes0[parent].rows()[r]).contains(col) by {
                if nodes0[parent].rows()[r].contains(col) {
                    assert(rows@.contains(r as usize));
                    let q = choose|q: int| 0 <= q < rows@.len() && rows@[q] == r as usize;
                    if q > 0 { assert(rows@[0] < rows@[q]); }
                }
            }
        }
        let ghost before = ac;
        ac.remove_col_keep_rows(col);
        self.swap_circuit(parent, ac);
        graph_remove_edge(&mut self.structure, edge);
        proof {
            let nodes = self.nodes();
            let edges = self.edges();
            assert(nodes =~= nodes0.insert(parent, ac));
            assert(before.cols().no_duplicates()) by { before.lemma_wf(); }
            assert forall|e: u32| #[trigger] edges.contains_key(e) implies nodes[edges[e].0].cols().contains(Column::Memory(e)) by {
                let src = edges[e].0;
                assert(e != edge);
                assert(nodes0[src].cols().contains(Column::Memory(e)));
                if src == parent {
                    lemma_remove_col_contains(before.cols(), col as int, Column::Memory(e));
                }
            }
            assert forall|n: u32, m: u32| nodes.contains_key(n) && #[trigger] nodes[n].cols().contains(Column::Memory(m))
                implies edges.contains_key(m) && edges[m].0 == n by {
                if n == parent {
                    lemma_remove_col_contains(before.cols(), col as int, Column::Memory(m));
                    assert(m != edge);
                }
            }
        }
        row
    }
}

impl ReactiveCircuit {
    /// The targets with every target on node `from` moved to node `to`.
    fn retarget(&mut self, from: u32, to: u32)
        ensures
            final(self).target_list() == old(self).target_list().map_values(
                |t: (Seq<char>, u32)| if t.1 == from { (t.0, to) } else { t }),
            final(self).structure == old(self).structure,
            final(self).value_size == old(self).value_size,
            final(self).dependencies == old(self).dependencies,
            final(self).queue == old(self).queue,
            final(self).partitioning == old(self).partitioning,
    {
        let mut k: usize = 0;
        while k < self.targets.len()
            invariant
                k <= self.targets@.len(),
                self.targets@.len() == old(self).targets@.len(),
                self.structure == old(self).structure,
                self.value_size == old(self).value_size,
                self.dependencies == old(self).dependencies,
                self.queue == old(self).queue,
                self.partitioning == old(self).partitioning,
                forall|q: int| 0 <= q < k ==> (#[trigger] self.target_list()[q]) == (if old(self).target_list()[q].1 == from {
                    (old(self).target_list()[q].0, to) } else { old(self).target_list()[q] }),
                forall|q: int| k <= q < self.targets@.len() ==> #[trigger] self.targets@[q] == old(self).targets@[q],
            decreases self.targets@.len() - k,
        {
            let ghost before = self.targets@;
            let ghost before_list = self.target_list();
            if self.targets[k].1 == from {
                let token = self.targets[k].0.clone();
                self.targets.set(k, (token, to));
                proof {
                    assert(self.targets@[k as int] == (token, to));
                    assert(token == before[k as int].0);
                    assert(self.target_list()[k as int] == (before[k as int].0@, to));
                }
            } else {
                proof { assert(self.target_list()[k as int] == (before[k as int].0@, before[k as int].1)); }
            }
            proof {
                assert(before[k as int] == old(self).targets@[k as int]);
                assert forall|q: int| 0 <= q < k + 1 implies (#[trigger] self.target_list()[q]) == (if old(self).target_list()[q].1 == from {
                    (old(self).target_list()[q].0, to) } else { old(self).target_list()[q] }) by {
                    if q < k {
                        assert(self.targets@[q] == before[q]);
                        assert(self.target_list()[q] == (before[q].0@, before[q].1));
                        assert(before_list[q] == (before[q].0@, before[q].1));
                    } else {
                        assert(old(self).target_list()[q] == (old(self).targets@[q].0@, old(self).targets@[q].1));
                    }
                }
            }
            k = k + 1;
        }
        proof {
            assert(self.target_list() =~= old(self).target_list().map_values(
                |t: (Seq<char>, u32)| if t.1 == from { (t.0, to) } else { t }));
        }
    }

    /// The parents of `node` with the edges from them; when it has none, a
    /// new parent node is made whose circuit is the single memory of an
    /// edge to `node`, the targets on `node` move to it, and it is marked
    /// for recomputation.
    pub fn ensure_parent(&mut self, node: u32) -> (parents: Vec<(u32, u32)>)
        requires
            old(self).wf(),
            old(self).nodes().contains_key(node),
            old(self).nodes().dom().len() < u32::MAX,
            old(self).edges().dom().len() < u32::MAX,
        ensures
            final(self).wf(),
            parents@.len() > 0,
            forall|q: int| 0 <= q < parents@.len() ==> final(self).edges().contains_key(#[trigger] parents@[q].1)
                && final(self).edges()[parents@[q].1] == (parents@[q].0, node),
            parents@.map_values(|p: (u32, u32)| p.1).no_duplicates(),
            forall|e: u32| #[trigger] final(self).edges().contains_key(e) && final(self).edges()[e].1 == node
                ==> exists|q: int| 0 <= q < parents@.len() && #[trigger] parents@[q].1 == e,
            (exists|e: u32| #[trigger] old(self).edges().contains_key(e) && old(self).edges()[e].1 == node) ==> {
                &&& final(self).structure == old(self).structure
                &&& final(self).queue == old(self).queue
                &&& final(self).targets == old(self).targets
            },
            !(exists|e: u32| #[trigger] old(self).edges().contains_key(e) && old(self).edges()[e].1 == node) ==> {
                let (parent, edge) = parents@[0];
                &&& parents@.len() == 1
                &&& !old(self).nodes().contains_key(parent)
                &&& !old(self).edges().contains_key(edge)
                &&& final(self).nodes().remove(parent) == old(self).nodes()
                &&& final(self).edges() == old(self).edges().insert(edge, (parent, node))
                &&& final(self).nodes()[parent].cols() == seq![Column::Memory(edge)]
                &&& final(self).nodes()[parent].rows() == seq![seq![0usize]]
                &&& final(self).queue@.to_set() == old(self).queue@.to_set().insert(parent)
                &&& final(self).target_list() == old(self).target_list().map_values(
                    |t: (Seq<char>, u32)| if t.1 == node { (t.0, parent) } else { t })
            },
            final(self).dependencies == old(self).dependencies,
            final(self).value_size == old(self).value_size,
            final(self).partitioning == old(self).partitioning,
    {
        let incoming = graph_edges_directed(&self.structure, node, true);
        if incoming.len() > 0 {
            let mut parents: Vec<(u32, u32)> = Vec::new();
            let mut k: usize = 0;
            while k < incoming.len()
                invariant
                    k <= incoming@.len(),
                    parents@.len() == k,
                    forall|q: int| 0 <= q < k ==> #[trigger] parents@[q] == (incoming@[q].1, incoming@[q].0),
                decreases incoming@.len() - k,
            {
                parents.push((incoming[k].1, incoming[k].0));
                k = k + 1;
            }
            proof {
                assert(parents@.map_values(|p: (u32, u32)| p.1) =~= incoming@.map_values(|p: (u32, u32)| p.0));
                let e0 = incoming@[0].0;
                assert(old(self).edges().contains_key(e0) && old(self).edges()[e0].1 == node);
                assert forall|e: u32| #[trigger] self.edges().contains_key(e) && self.edges()[e].1 == node
                    implies exists|q: int| 0 <= q < parents@.len() && #[trigger] parents@[q].1 == e by {
                    let q = choose|q: int| 0 <= q < incoming@.len() && #[trigger] incoming@[q].0 == e;
                    assert(parents@[q].1 == e);
                }
            }
            return parents;
        }
        proof {
            assert(!(exists|e: u32| #[trigger] old(self).edges().contains_key(e) && old(self).edges()[e].1 == node)) by {
                if exists|e: u32| #[trigger] old(self).edges().contains_key(e) && old(self).edges()[e].1 == node {
                    let e = choose|e: u32| #[trigger] old(self).edges().contains_key(e) && old(self).edges()[e].1 == node;
                    let q = choose|q: int| 0 <= q < incoming@.len() && #[trigger] incoming@[q].0 == e;
                }
            }
        }
        let ghost nodes0 = self.nodes();
        let parent = graph_add_node(&mut self.structure, AlgebraicCircuit::new(self.value_size));
        let ghost nodes1 = self.nodes();
        proof { assert(graph_nodes(self.structure).dom() =~= nodes0.dom().insert(parent)); }
        let edge = graph_add_edge(&mut self.structure, parent, node);
        let placeholder = AlgebraicCircuit::new(self.value_size);
        let mut ac = self.swap_circuit(parent, placeholder);
        let col = ac.create_memory(edge);
        ac.push_single(col);
        self.swap_circuit(parent, ac);
        proof {
            assert(ac.cols() =~= seq![Column::Memory(edge)]);
            assert(ac.rows() =~= seq![seq![0usize]]);
            let nodes = self.nodes();
            let edges = self.edges();
            assert(nodes =~= nodes0.insert(parent, ac));
            assert(nodes.remove(parent) =~= nodes0);
            assert forall|e: u32| #[trigger] edges.contains_key(e) implies nodes[edges[e].0].cols().contains(Column::Memory(e)) by {
                if e == edge { assert(ac.cols()[0] == Column::Memory(edge)); }
                else { assert(edges[e].0 != parent); }
            }
            assert forall|n: u32, m: u32| nodes.contains_key(n) && #[trigger] nodes[n].cols().contains(Column::Memory(m))
                implies edges.contains_key(m) && edges[m].0 == n by {
                if n == parent {
                    let q = choose|q: int| 0 <= q < ac.cols().len() && ac.cols()[q] == Column::Memory(m);
                    assert(q == 0);
                }
            }
            assert(graph_ok(nodes, edges));
        }
        self.enqueue(parent);
        self.retarget(node, parent);
        let mut parents: Vec<(u32, u32)> = Vec::new();
        parents.push((parent, edge));
        proof {
            assert(parents@.map_values(|p: (u32, u32)| p.1) =~= seq![edge]);
            assert forall|e: u32| #[trigger] self.edges().contains_key(e) && self.edges()[e].1 == node
                implies exists|q: int| 0 <= q < parents@.len() && #[trigger] parents@[q].1 == e by {
                assert(e == edge);
                assert(parents@[0].1 == e);
            }
        }
        parents
    }
}

} // verus!
