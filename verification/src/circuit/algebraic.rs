use std::collections::HashMap;
use vstd::prelude::*;
use crate::lemmas::{lemma_filter_elem, lemma_filter_no_dup, lemma_filter_contains_index, lemma_filter_map_commute, lemma_multiset_insert, lemma_to_set_push};
use crate::text::{decimal, join, push_char, push_decimal, push_str, lemma_join_push};

verus! {

broadcast use vstd::std_specs::hash::group_hash_axioms;

/// A variable in the circuit; either a reactive leaf or a cached memory from a
/// child circuit node (identified by the index of the graph edge that holds it).
#[derive(Clone, Copy, Debug, PartialEq, Eq, Structural, Hash, PartialOrd, Ord)]
pub enum Column {
    Leaf(u32),
    Memory(u32),
}

/// An arithmetic circuit representing a sum-of-products formula.
///
/// Stored as a matrix: each row is a minterm (a conjunction of variables),
/// each column is a variable (leaf or memory).  Every minterm is a strictly
/// increasing list of column indices, no variable occurs twice among the
/// columns, and `leafs` / `memories` index the columns by variable id.
#[derive(Clone, Debug)]
pub struct AlgebraicCircuit {
    minterms: Vec<Vec<usize>>,
    columns: Vec<Column>,
    leafs: HashMap<u32, usize>,
    memories: HashMap<u32, usize>,
    value_size: usize,
}

/// A strictly increasing sequence of indices.
pub open spec fn strictly_sorted(s: Seq<usize>) -> bool {
    forall|i: int, j: int| 0 <= i < j < s.len() ==> s[i] < s[j]
}

/// A row of column indices that is strictly increasing and refers only to
/// existing columns.
pub open spec fn row_ok(row: Seq<usize>, n: nat) -> bool {
    &&& forall|i: int| 0 <= i < row.len() ==> #[trigger] row[i] < n
    &&& strictly_sorted(row)
}

/// `m` indexes exactly the columns `Leaf(k)` (when `leaf`) or `Memory(k)`.
pub open spec fn index_ok(m: Map<u32, usize>, cols: Seq<Column>, leaf: bool) -> bool {
    &&& forall|k: u32| #[trigger] m.contains_key(k) ==> m[k] < cols.len() && cols[m[k] as int]
        == (if leaf { Column::Leaf(k) } else { Column::Memory(k) })
    &&& forall|c: int| 0 <= c < cols.len() ==> match #[trigger] cols[c] {
        Column::Leaf(k) => leaf ==> m.contains_key(k) && m[k] == c,
        Column::Memory(k) => !leaf ==> m.contains_key(k) && m[k] == c,
    }
}

/// The variables of a row, as a set.
pub open spec fn row_vars(row: Seq<usize>, cols: Seq<Column>) -> Set<Column> {
    row.to_set().map(|c: usize| cols[c as int])
}

/// The set of leaf variables with the given indices.
pub open spec fn leaf_set(indices: Seq<u32>) -> Set<Column> {
    indices.to_set().map(|i: u32| Column::Leaf(i))
}

/// The columns after making sure that every leaf in `indices` is among them,
/// adding the missing ones in order of first appearance.
pub open spec fn extend_leaves(cols: Seq<Column>, indices: Seq<u32>) -> Seq<Column>
    decreases indices.len(),
{
    if indices.len() == 0 {
        cols
    } else {
        add_column(extend_leaves(cols, indices.drop_last()), Column::Leaf(indices.last()))
    }
}

/// `extend_leaves` over every product of a sum of products, in order.
pub open spec fn extend_leaves_all(cols: Seq<Column>, sum_product: Seq<Seq<u32>>) -> Seq<Column>
    decreases sum_product.len(),
{
    if sum_product.len() == 0 {
        cols
    } else {
        extend_leaves(extend_leaves_all(cols, sum_product.drop_last()), sum_product.last())
    }
}

/// `c1` is a prefix of `c2`.
pub open spec fn cols_prefix(c1: Seq<Column>, c2: Seq<Column>) -> bool {
    c1.len() <= c2.len() && forall|j: int| 0 <= j < c1.len() ==> #[trigger] c2[j] == c1[j]
}

/// The variables of a row do not change when columns are only appended.
pub(crate) proof fn lemma_row_vars_prefix(row: Seq<usize>, c1: Seq<Column>, c2: Seq<Column>)
    requires
        forall|i: int| 0 <= i < row.len() ==> #[trigger] row[i] < c1.len(),
        cols_prefix(c1, c2),
    ensures
        row_vars(row, c1) == row_vars(row, c2),
{
    assert forall|x: Column| row_vars(row, c1).contains(x) <==> row_vars(row, c2).contains(x) by {
        if row_vars(row, c1).contains(x) {
            let c = choose|c: usize| row.to_set().contains(c) && c1[c as int] == x;
            assert(c2[c as int] == x);
        }
        if row_vars(row, c2).contains(x) {
            let c = choose|c: usize| row.to_set().contains(c) && c2[c as int] == x;
            let i = choose|i: int| 0 <= i < row.len() && row[i] == c;
            assert(c1[c as int] == x);
        }
    }
    assert(row_vars(row, c1) =~= row_vars(row, c2));
}

/// Insert `c` into a strictly increasing row, unless it is already present.
fn sorted_insert(row: &mut Vec<usize>, c: usize)
    requires
        strictly_sorted(old(row)@),
    ensures
        strictly_sorted(final(row)@),
        final(row)@.to_set() == old(row)@.to_set().insert(c),
        final(row)@.len() <= old(row)@.len() + 1,
        forall|i: int| 0 <= i < final(row)@.len() ==> #[trigger] final(row)@[i] == c || old(row)@.contains(final(row)@[i]),
{
    let mut pos: usize = 0;
    while pos < row.len() && row[pos] < c
        invariant
            pos <= row@.len(),
            row@ == old(row)@,
            forall|i: int| 0 <= i < pos ==> #[trigger] row@[i] < c,
        decreases row@.len() - pos,
    {
        pos = pos + 1;
    }
    if pos < row.len() && row[pos] == c {
        assert(row@.to_set() =~= old(row)@.to_set().insert(c));
        return;
    }
    let ghost old_row = row@;
    row.insert(pos, c);
    proof {
        old_row.insert_ensures(pos as int, c);
        assert forall|i: int, j: int| 0 <= i < j < row@.len() implies row@[i] < row@[j] by {
            if i < pos && j < pos {
            } else if i < pos && j == pos {
            } else if i < pos {
                assert(old_row[i] < old_row[j - 1] || i == j - 1);
            } else if i == pos {
                assert(old_row[pos as int] >= c);
                assert(old_row[pos as int] <= old_row[j - 1]);
            } else {
            }
        }
        assert forall|x: usize| row@.to_set().contains(x) <==> old_row.to_set().insert(c).contains(x) by {
            if row@.to_set().contains(x) {
                let i = choose|i: int| 0 <= i < row@.len() && row@[i] == x;
                if i < pos { assert(old_row[i] == x); } else if i > pos { assert(old_row[i - 1] == x); }
            }
            if old_row.to_set().contains(x) && x != c {
                let i = choose|i: int| 0 <= i < old_row.len() && old_row[i] == x;
                if i < pos { assert(row@[i] == x); } else { assert(row@[i + 1] == x); }
            }
            if x == c { assert(row@[pos as int] == c); }
        }
        assert(row@.to_set() =~= old_row.to_set().insert(c));
        assert forall|i: int| 0 <= i < row@.len() implies #[trigger] row@[i] == c || old_row.contains(row@[i]) by {
            if i < pos { assert(row@[i] == old_row[i]); } else if i > pos { assert(row@[i] == old_row[i - 1]); }
        }
    }
}

impl AlgebraicCircuit {
    /// The minterms as sequences of column indices.
    pub closed spec fn rows(&self) -> Seq<Seq<usize>> {
        self.minterms@.map_values(|r: Vec<usize>| r@)
    }

    /// The variables, by column index.
    pub closed spec fn cols(&self) -> Seq<Column> {
        self.columns@
    }

    /// The number of values carried per variable.
    pub closed spec fn size(&self) -> usize {
        self.value_size
    }

    /// The formula: for each minterm, the set of variables it multiplies.
    pub open spec fn products(&self) -> Seq<Set<Column>> {
        self.rows().map_values(|r: Seq<usize>| row_vars(r, self.cols()))
    }

    /// The circuit's internal invariant.
    pub closed spec fn wf(&self) -> bool {
        &&& forall|r: int| 0 <= r < self.minterms@.len()
            ==> row_ok(#[trigger] self.minterms@[r]@, self.columns@.len())
        &&& self.columns@.no_duplicates()
        &&& index_ok(self.leafs@, self.columns@, true)
        &&& index_ok(self.memories@, self.columns@, false)
    }

    /// Every column index in every minterm is valid and increasing, and no
    /// variable has two columns.
    pub proof fn lemma_wf(&self)
        requires
            self.wf(),
        ensures
            self.cols().no_duplicates(),
            forall|r: int| 0 <= r < self.rows().len() ==> row_ok(#[trigger] self.rows()[r], self.cols().len()),
    {
    }

    /// The numbers of columns and of rows fit in a `usize`.
    pub proof fn lemma_sizes(&self)
        ensures
            self.cols().len() <= usize::MAX,
            self.rows().len() <= usize::MAX,
    {
        assert(self.columns.len() == self.columns@.len());
        assert(self.minterms.len() == self.minterms@.len());
    }

    pub fn new(value_size: usize) -> (ac: Self)
        ensures
            ac.wf(),
            ac.rows() == Seq::<Seq<usize>>::empty(),
            ac.cols() == Seq::<Column>::empty(),
            ac.size() == value_size,
    {
        let ac = AlgebraicCircuit {
            minterms: Vec::new(),
            columns: Vec::new(),
            leafs: HashMap::new(),
            memories: HashMap::new(),
            value_size,
        };
        assert(ac.rows() =~= Seq::<Seq<usize>>::empty());
        ac
    }

    /// Return the column index for leaf `index`, creating a new column if absent.
    pub fn ensure_leaf(&mut self, index: u32) -> (col: usize)
        requires
            old(self).wf(),
        ensures
            final(self).wf(),
            final(self).rows() == old(self).rows(),
            final(self).size() == old(self).size(),
            final(self).cols() == add_column(old(self).cols(), Column::Leaf(index)),
            col < final(self).cols().len(),
            final(self).cols()[col as int] == Column::Leaf(index),
    {
        if let Some(c) = self.leafs.get(&index) {
            return *c;
        }
        proof { self.lemma_absent(Column::Leaf(index)); }
        let col = self.columns.len();
        let ghost old_rows = self.rows();
        self.columns.push(Column::Leaf(index));
        self.leafs.insert(index, col);
        proof { old(self).lemma_push_column(*self, Column::Leaf(index), col); }
        col
    }

    /// Return `Some(col)` if leaf `index` is present.
    pub fn get_leaf(&self, index: u32) -> (col: Option<usize>)
        requires
            self.wf(),
        ensures
            col == find_column(self.cols(), Column::Leaf(index)),
    {
        proof { self.lemma_find(Column::Leaf(index)); }
        match self.leafs.get(&index) {
            Some(c) => Some(*c),
            None => None,
        }
    }

    /// Whether leaf `index` is a variable of this circuit.
    pub fn is_in_circuit(&self, index: u32) -> (b: bool)
        requires
            self.wf(),
        ensures
            b == self.cols().contains(Column::Leaf(index)),
    {
        proof { self.lemma_find(Column::Leaf(index)); }
        self.leafs.contains_key(&index)
    }

    /// Create (or return the existing) memory column for the edge with index `edge`.
    pub fn create_memory(&mut self, edge: u32) -> (col: usize)
        requires
            old(self).wf(),
        ensures
            final(self).wf(),
            final(self).rows() == old(self).rows(),
            final(self).size() == old(self).size(),
            final(self).cols() == add_column(old(self).cols(), Column::Memory(edge)),
            col < final(self).cols().len(),
            final(self).cols()[col as int] == Column::Memory(edge),
    {
        if let Some(c) = self.memories.get(&edge) {
            return *c;
        }
        proof { self.lemma_absent(Column::Memory(edge)); }
        let col = self.columns.len();
        self.columns.push(Column::Memory(edge));
        self.memories.insert(edge, col);
        proof { old(self).lemma_push_column(*self, Column::Memory(edge), col); }
        col
    }

    /// Return `Some(col)` if a memory for the edge with index `edge` exists.
    pub fn get_memory(&self, edge: u32) -> (col: Option<usize>)
        requires
            self.wf(),
        ensures
            col == find_column(self.cols(), Column::Memory(edge)),
    {
        proof { self.lemma_find(Column::Memory(edge)); }
        match self.memories.get(&edge) {
            Some(c) => Some(*c),
            None => None,
        }
    }

    /// Retarget memory column `col` from edge `old_key` to edge `new_edge`.
    pub fn remap_memory(&mut self, col: usize, old_key: u32, new_edge: u32)
        requires
            old(self).wf(),
            col < old(self).cols().len(),
            old(self).cols()[col as int] == Column::Memory(old_key),
            old_key != new_edge ==> !old(self).cols().contains(Column::Memory(new_edge)),
        ensures
            final(self).wf(),
            final(self).rows() == old(self).rows(),
            final(self).size() == old(self).size(),
            final(self).cols() == old(self).cols().update(col as int, Column::Memory(new_edge)),
    {
        let ghost old_cols = self.columns@;
        self.columns.set(col, Column::Memory(new_edge));
        self.memories.remove(&old_key);
        self.memories.insert(new_edge, col);
        proof {
            assert forall|i: int, j: int| 0 <= i < self.columns@.len() && 0 <= j < self.columns@.len() && i != j
                implies self.columns@[i] != self.columns@[j] by {
                if i != col as int && j != col as int {
                    assert(old_cols[i] != old_cols[j]);
                } else if i == col as int {
                    if old_key != new_edge {
                        assert(old_cols.contains(old_cols[j]));
                    } else {
                        assert(old_cols[i] != old_cols[j]);
                    }
                } else {
                    if old_key != new_edge {
                        assert(old_cols.contains(old_cols[i]));
                    } else {
                        assert(old_cols[i] != old_cols[j]);
                    }
                }
            }
            assert forall|k: u32| #[trigger] self.memories@.contains_key(k) implies self.memories@[k] < self.columns@.len()
                && self.columns@[self.memories@[k] as int] == Column::Memory(k) by {
                if k != new_edge {
                    assert(old(self).memories@.contains_key(k));
                    let c = old(self).memories@[k];
                    assert(old_cols[c as int] == Column::Memory(k));
                    assert(c != col);
                }
            }
            assert forall|c: int| 0 <= c < self.columns@.len() implies match #[trigger] self.columns@[c] {
                Column::Leaf(k) => self.leafs@.contains_key(k) && self.leafs@[k] == c,
                Column::Memory(k) => self.memories@.contains_key(k) && self.memories@[k] == c,
            } by {
                if c != col as int {
                    assert(self.columns@[c] == old_cols[c]);
                    match old_cols[c] {
                        Column::Leaf(k) => {},
                        Column::Memory(k) => {
                            assert(k != old_key) by {
                                if k == old_key { assert(old_cols[c] == old_cols[col as int]); }
                            }
                            assert(k != new_edge) by {
                                if k == new_edge && old_key != new_edge { assert(old_cols.contains(Column::Memory(new_edge))); }
                            }
                        },
                    }
                }
            }
            assert(self.rows() =~= old(self).rows());
        }
    }

    /// Whether column `col` holds a memory.
    pub fn col_is_memory(&self, col: usize) -> (b: bool)
        requires
            col < self.cols().len(),
        ensures
            b == (self.cols()[col as int] is Memory),
    {
        match self.columns[col] {
            Column::Memory(_) => true,
            _ => false,
        }
    }

    /// The edge index held by column `col`, if it is a memory.
    pub fn col_memory_edge(&self, col: usize) -> (edge: Option<u32>)
        requires
            col < self.cols().len(),
        ensures
            edge == (match self.cols()[col as int] {
                Column::Memory(k) => Some(k),
                Column::Leaf(_) => None::<u32>,
            }),
    {
        match self.columns[col] {
            Column::Memory(key) => Some(key),
            _ => None,
        }
    }

    // ── minterm management ──────────────────────────────────────────────────

    /// Add a minterm over the given column indices (sorted and without
    /// duplicates in the stored row).  Returns its row index.
    pub fn push_minterm(&mut self, cols: Vec<usize>) -> (row: usize)
        ensures
            old(self).wf() && (forall|i: int| 0 <= i < cols@.len() ==> #[trigger] cols@[i] < old(self).cols().len())
                ==> final(self).wf(),
            final(self).cols() == old(self).cols(),
            final(self).size() == old(self).size(),
            row == old(self).rows().len(),
            final(self).rows().len() == old(self).rows().len() + 1,
            final(self).rows().take(row as int) == old(self).rows(),
            strictly_sorted(final(self).rows()[row as int]),
            final(self).rows()[row as int].to_set() == cols@.to_set(),
            final(self).products() == old(self).products().push(row_vars(cols@, old(self).cols())),
    {
        let mut new_row: Vec<usize> = Vec::new();
        let mut i: usize = 0;
        while i < cols.len()
            invariant
                i <= cols@.len(),
                strictly_sorted(new_row@),
                new_row@.to_set() == cols@.take(i as int).to_set(),
                self.columns == old(self).columns,
            decreases cols@.len() - i,
        {
            sorted_insert(&mut new_row, cols[i]);
            proof {
                assert(cols@.take(i + 1) =~= cols@.take(i as int).push(cols@[i as int]));
                lemma_to_set_push(cols@.take(i as int), cols@[i as int]);
            }
            i = i + 1;
        }
        assert(cols@.take(cols@.len() as int) =~= cols@);
        let idx = self.minterms.len();
        let ghost old_rows = self.rows();
        self.minterms.push(new_row);
        proof {
            assert(self.rows() =~= old_rows.push(new_row@));
            assert(self.rows().take(idx as int) =~= old_rows);
            if old(self).wf() && (forall|i: int| 0 <= i < cols@.len() ==> #[trigger] cols@[i] < old(self).cols().len()) {
                assert forall|j: int| 0 <= j < new_row@.len() implies #[trigger] new_row@[j] < self.columns@.len() by {
                    assert(new_row@.to_set().contains(new_row@[j]));
                    assert(cols@.to_set().contains(new_row@[j]));
                    let k = choose|k: int| 0 <= k < cols@.len() && cols@[k] == new_row@[j];
                }
                assert forall|r: int| 0 <= r < self.minterms@.len() implies row_ok(#[trigger] self.minterms@[r]@, self.columns@.len()) by {
                    if r < idx { assert(self.minterms@[r] == old(self).minterms@[r]); }
                }
            }
            assert(row_vars(new_row@, self.columns@) =~= row_vars(cols@, self.columns@));
            assert(self.products() =~= old(self).products().push(row_vars(cols@, old(self).cols())));
        }
        idx
    }

    /// Add a single-column minterm (used when wiring a lone memory into the root).
    pub fn push_single(&mut self, col: usize) -> (row: usize)
        requires
            old(self).wf(),
            col < old(self).cols().len(),
        ensures
            final(self).wf(),
            final(self).cols() == old(self).cols(),
            final(self).size() == old(self).size(),
            row == old(self).rows().len(),
            final(self).rows() == old(self).rows().push(seq![col]),
    {
        let v = vec![col];
        let row = self.push_minterm(v);
        proof {
            let r = self.rows()[row as int];
            assert(v@ =~= seq![col]);
            assert(r.to_set().contains(col));
            assert(r =~= seq![col]) by {
                assert forall|i: int| 0 <= i < r.len() implies r[i] == col by {
                    assert(r.to_set().contains(r[i]));
                    assert(seq![col].to_set().contains(r[i]));
                }
                if r.len() > 1 {
                    assert(r[0] == col && r[1] == col);
                }
                let k = choose|k: int| 0 <= k < r.len() && r[k] == col;
            }
            assert(self.rows() =~= self.rows().take(row as int).push(r));
        }
        row
    }

    /// Add column `col` to minterm `row`.
    pub fn add_col_to_minterm(&mut self, row: usize, col: usize)
        requires
            row < old(self).rows().len(),
            strictly_sorted(old(self).rows()[row as int]),
        ensures
            old(self).wf() && col < old(self).cols().len() ==> final(self).wf(),
            final(self).cols() == old(self).cols(),
            final(self).size() == old(self).size(),
            final(self).rows().len() == old(self).rows().len(),
            forall|r: int| 0 <= r < old(self).rows().len() && r != row ==> #[trigger] final(self).rows()[r] == old(self).rows()[r],
            strictly_sorted(final(self).rows()[row as int]),
            final(self).rows()[row as int].to_set() == old(self).rows()[row as int].to_set().insert(col),
    {
        let mut r: Vec<usize> = Vec::new();
        self.minterms.set_and_swap(row, &mut r);
        proof { assert(r@ == old(self).rows()[row as int]); }
        sorted_insert(&mut r, col);
        self.minterms.set_and_swap(row, &mut r);
        proof {
            if old(self).wf() && col < old(self).cols().len() {
                assert(row_ok(old(self).minterms@[row as int]@, self.columns@.len()));
                assert forall|q: int| 0 <= q < self.minterms@.len() implies row_ok(#[trigger] self.minterms@[q]@, self.columns@.len()) by {
                    if q != row { assert(self.minterms@[q] == old(self).minterms@[q]); }
                    else {
                        let o = old(self).minterms@[row as int]@;
                        assert(row_ok(o, self.columns@.len()));
                        assert forall|i: int| 0 <= i < self.minterms@[q]@.len() implies #[trigger] self.minterms@[q]@[i] < self.columns@.len() by {
                            if self.minterms@[q]@[i] != col {
                                let k = choose|k: int| 0 <= k < o.len() && o[k] == self.minterms@[q]@[i];
                            }
                        }
                    }
                }
            }
        }
    }

    /// Remove minterm `row`.
    pub fn remove_minterm(&mut self, row: usize)
        requires
            old(self).wf(),
            row < old(self).rows().len(),
        ensures
            final(self).wf(),
            final(self).cols() == old(self).cols(),
            final(self).size() == old(self).size(),
            final(self).rows() == old(self).rows().remove(row as int),
    {
        self.minterms.remove(row);
        proof {
            assert(self.rows() =~= old(self).rows().remove(row as int));
            assert forall|r: int| 0 <= r < self.minterms@.len()
                implies row_ok(#[trigger] self.minterms@[r]@, self.columns@.len()) by {
                if r < row { assert(self.minterms@[r] == old(self).minterms@[r]); }
                else { assert(self.minterms@[r] == old(self).minterms@[r + 1]); }
            }
        }
    }

    /// Return the column indices of minterm `row`.
    pub fn get_minterm_cols(&self, row: usize) -> (cols: &[usize])
        requires
            row < self.rows().len(),
        ensures
            cols@ == self.rows()[row as int],
    {
        self.minterms[row].as_slice()
    }

    /// Return all row indices whose minterm contains `col`, in increasing order.
    pub fn minterms_containing_col(&self, col: usize) -> (rows: Vec<usize>)
        ensures
            strictly_sorted(rows@),
            forall|r: usize| #[trigger] rows@.contains(r) <==> (r < self.rows().len() && self.rows()[r as int].contains(col)),
    {
        let mut rows: Vec<usize> = Vec::new();
        let mut r: usize = 0;
        while r < self.minterms.len()
            invariant
                r <= self.minterms@.len(),
                strictly_sorted(rows@),
                forall|i: int| 0 <= i < rows@.len() ==> #[trigger] rows@[i] < r,
                forall|q: usize| #[trigger] rows@.contains(q) <==> (q < r && self.rows()[q as int].contains(col)),
            decreases self.minterms@.len() - r,
        {
            proof { assert(self.rows()[r as int] == self.minterms@[r as int]@); }
            if contains_index(&self.minterms[r], col) {
                let ghost before = rows@;
                rows.push(r);
                proof {
                    assert forall|q: usize| #[trigger] rows@.contains(q) <==> (q < r + 1 && self.rows()[q as int].contains(col)) by {
                        if q == r { assert(rows@[before.len() as int] == q); assert(self.rows()[q as int].contains(col)); }
                        if rows@.contains(q) && q != r {
                            let k = choose|k: int| 0 <= k < rows@.len() && rows@[k] == q;
                            assert(before[k] == q);
                            assert(before.contains(q));
                        }
                        if q < r && self.rows()[q as int].contains(col) {
                            assert(before.contains(q));
                            let k = choose|k: int| 0 <= k < before.len() && before[k] == q;
                            assert(rows@[k] == q);
                        }
                    }
                }
            } else {
                proof {
                    assert forall|q: usize| #[trigger] rows@.contains(q) <==> (q < r + 1 && self.rows()[q as int].contains(col)) by {
                        if rows@.contains(q) {
                            let k = choose|k: int| 0 <= k < rows@.len() && rows@[k] == q;
                        }
                    }
                }
            }
            r = r + 1;
        }
        rows
    }

    /// Whether the circuit has no minterms.
    pub fn is_empty(&self) -> (b: bool)
        ensures
            b == (self.rows().len() == 0),
    {
        self.minterms.is_empty()
    }

    // ── bulk mutation ───────────────────────────────────────────────────────

    /// Add one minterm, the product of the leaves with the given indices.
    pub fn add(&mut self, indices: &[u32])
        requires
            old(self).wf(),
        ensures
            final(self).wf(),
            final(self).size() == old(self).size(),
            final(self).cols() == extend_leaves(old(self).cols(), indices@),
            final(self).products() == old(self).products().push(leaf_set(indices@)),
    {
        let mut cols: Vec<usize> = Vec::new();
        let mut i: usize = 0;
        while i < indices.len()
            invariant
                i <= indices@.len(),
                self.wf(),
                self.size() == old(self).size(),
                self.rows() == old(self).rows(),
                self.cols() == extend_leaves(old(self).cols(), indices@.take(i as int)),
                cols_prefix(old(self).cols(), self.cols()),
                cols@.len() == i,
                forall|j: int| 0 <= j < i ==> #[trigger] cols@[j] < self.cols().len()
                    && self.cols()[cols@[j] as int] == Column::Leaf(indices@[j]),
            decreases indices@.len() - i,
        {
            let ghost before = self.cols();
            let c = self.ensure_leaf(indices[i]);
            cols.push(c);
            proof {
                assert(indices@.take(i + 1).drop_last() =~= indices@.take(i as int));
                assert(cols_prefix(before, self.cols()));
                assert forall|j: int| 0 <= j < i + 1 implies #[trigger] cols@[j] < self.cols().len()
                    && self.cols()[cols@[j] as int] == Column::Leaf(indices@[j]) by {
                    if j < i { assert(before[cols@[j] as int] == Column::Leaf(indices@[j])); }
                }
            }
            i = i + 1;
        }
        assert(indices@.take(indices@.len() as int) =~= indices@);
        let ghost mid = *self;
        proof {
            self.lemma_wf();
            assert forall|r: int| 0 <= r < self.rows().len() implies #[trigger] self.products()[r] == old(self).products()[r] by {
                assert(row_ok(self.rows()[r], old(self).cols().len()));
                lemma_row_vars_prefix(self.rows()[r], old(self).cols(), self.cols());
            }
            assert(mid.products() =~= old(self).products());
            assert forall|x: Column| row_vars(cols@, mid.cols()).contains(x) <==> leaf_set(indices@).contains(x) by {
                if row_vars(cols@, mid.cols()).contains(x) {
                    let c = choose|c: usize| cols@.to_set().contains(c) && mid.cols()[c as int] == x;
                    let j = choose|j: int| 0 <= j < cols@.len() && cols@[j] == c;
                    assert(indices@.to_set().contains(indices@[j]));
                }
                if leaf_set(indices@).contains(x) {
                    let k = choose|k: u32| indices@.to_set().contains(k) && Column::Leaf(k) == x;
                    let j = choose|j: int| 0 <= j < indices@.len() && indices@[j] == k;
                    assert(cols@.to_set().contains(cols@[j]));
                }
            }
            assert(row_vars(cols@, mid.cols()) =~= leaf_set(indices@));
        }
        self.push_minterm(cols);
    }

    /// Add many minterms, one per product of leaf indices.
    pub fn add_sum_product(&mut self, sum_product: &[Vec<u32>])
        requires
            old(self).wf(),
        ensures
            final(self).wf(),
            final(self).size() == old(self).size(),
            final(self).cols() == extend_leaves_all(old(self).cols(), sum_product@.map_values(|p: Vec<u32>| p@)),
            final(self).products() == old(self).products() + sum_product@.map_values(|p: Vec<u32>| leaf_set(p@)),
    {
        let mut i: usize = 0;
        while i < sum_product.len()
            invariant
                i <= sum_product@.len(),
                self.wf(),
                self.size() == old(self).size(),
                self.cols() == extend_leaves_all(old(self).cols(), sum_product@.map_values(|p: Vec<u32>| p@).take(i as int)),
                self.products() == old(self).products() + sum_product@.map_values(|p: Vec<u32>| leaf_set(p@)).take(i as int),
            decreases sum_product@.len() - i,
        {
            self.add(sum_product[i].as_slice());
            proof {
                let sp = sum_product@.map_values(|p: Vec<u32>| p@);
                assert(sp.take(i + 1).drop_last() =~= sp.take(i as int));
                assert(sum_product@.map_values(|p: Vec<u32>| leaf_set(p@)).take(i + 1)
                    =~= sum_product@.map_values(|p: Vec<u32>| leaf_set(p@)).take(i as int).push(leaf_set(sum_product@[i as int]@)));
            }
            i = i + 1;
        }
        assert(sum_product@.map_values(|p: Vec<u32>| p@).take(sum_product@.len() as int) =~= sum_product@.map_values(|p: Vec<u32>| p@));
        assert(sum_product@.map_values(|p: Vec<u32>| leaf_set(p@)).take(sum_product@.len() as int) =~= sum_product@.map_values(|p: Vec<u32>| leaf_set(p@)));
    }

    /// Build a circuit from products expressed as leaf-index vectors: the
    /// circuit that `new` followed by one `add` per product, in order, makes
    /// (the columns that `extend_leaves` adds product by product, and the
    /// products `added_products`), with one minterm per product.
    pub fn from_sum_product(value_size: usize, sum_product: &[Vec<u32>]) -> (ac: Self)
        ensures
            ac.wf(),
            ac.size() == value_size,
            ac.cols() == extend_leaves_all(Seq::empty(), sum_product@.map_values(|p: Vec<u32>| p@)),
            ac.products() == sum_product@.map_values(|p: Vec<u32>| leaf_set(p@)),
            ac.products() == added_products(sum_product@.map_values(|p: Vec<u32>| p@)),
            ac.rows().len() == sum_product@.len(),
    {
        let mut ac = AlgebraicCircuit::new(value_size);
        assert(ac.products() =~= Seq::<Set<Column>>::empty());
        ac.add_sum_product(sum_product);
        assert(ac.products() =~= sum_product@.map_values(|p: Vec<u32>| leaf_set(p@)));
        proof {
            let ps = sum_product@.map_values(|p: Vec<u32>| p@);
            law_from_sum_product_adds(ps);
            assert(ps.map_values(|p: Seq<u32>| leaf_set(p)) =~= sum_product@.map_values(|p: Vec<u32>| leaf_set(p@)));
        }
        ac
    }

    /// Multiply every minterm by leaf `index`.
    pub fn multiply(&mut self, index: u32)
        requires
            old(self).wf(),
        ensures
            final(self).wf(),
            final(self).size() == old(self).size(),
            final(self).cols() == add_column(old(self).cols(), Column::Leaf(index)),
            final(self).products() == old(self).products().map_values(|p: Set<Column>| p.insert(Column::Leaf(index))),
    {
        let col = self.ensure_leaf(index);
        let ghost mid = *self;
        let mut r: usize = 0;
        while r < self.minterms.len()
            invariant
                r <= self.minterms@.len(),
                self.wf(),
                self.cols() == mid.cols(),
                self.size() == mid.size(),
                self.rows().len() == mid.rows().len(),
                col < self.cols().len(),
                forall|q: int| r <= q < self.rows().len() ==> #[trigger] self.rows()[q] == mid.rows()[q],
                forall|q: int| 0 <= q < r ==> #[trigger] self.rows()[q].to_set() == mid.rows()[q].to_set().insert(col),
            decreases self.minterms@.len() - r,
        {
            self.add_col_to_minterm(r, col);
            r = r + 1;
        }
        proof {
            mid.lemma_wf();
            assert forall|q: int| 0 <= q < self.rows().len() implies #[trigger] self.products()[q]
                == old(self).products()[q].insert(Column::Leaf(index)) by {
                assert(row_ok(mid.rows()[q], old(self).cols().len()));
                lemma_row_vars_prefix(mid.rows()[q], old(self).cols(), mid.cols());
                let a = self.rows()[q];
                assert forall|x: Column| row_vars(a, self.cols()).contains(x) <==> row_vars(mid.rows()[q], mid.cols()).insert(Column::Leaf(index)).contains(x) by {
                    if row_vars(a, self.cols()).contains(x) {
                        let c = choose|c: usize| a.to_set().contains(c) && self.cols()[c as int] == x;
                        if c != col {
                            assert(mid.rows()[q].to_set().contains(c));
                        }
                    }
                    if x == Column::Leaf(index) {
                        assert(a.to_set().contains(col));
                    } else if row_vars(mid.rows()[q], mid.cols()).contains(x) {
                        let c = choose|c: usize| mid.rows()[q].to_set().contains(c) && mid.cols()[c as int] == x;
                        assert(a.to_set().contains(c));
                    }
                }
                assert(row_vars(a, self.cols()) =~= row_vars(mid.rows()[q], mid.cols()).insert(Column::Leaf(index)));
            }
            assert(self.products() =~= old(self).products().map_values(|p: Set<Column>| p.insert(Column::Leaf(index))));
        }
    }

    // ── column removal ──────────────────────────────────────────────────────

    /// Remove column `col` from the variable list, every minterm, and the
    /// index maps.  Column indices above `col` shift down by one; minterms
    /// that become empty are removed.
    pub fn remove_col(&mut self, col: usize)
        requires
            old(self).wf(),
            col < old(self).cols().len(),
        ensures
            final(self).wf(),
            final(self).size() == old(self).size(),
            final(self).cols() == old(self).cols().remove(col as int),
            final(self).rows() == old(self).rows().map_values(|r: Seq<usize>| shift_row(r, col)).filter(
                |r: Seq<usize>| r.len() > 0,
            ),
            final(self).products() == old(self).products().map_values(
                |p: Set<Column>| p.remove(old(self).cols()[col as int]),
            ).filter(|p: Set<Column>| p.len() > 0),
    {
        self.remove_col_inner(col);
        let ghost mid = *self;
        let mut kept: Vec<Vec<usize>> = Vec::new();
        let mut r: usize = 0;
        let n = self.minterms.len();
        while r < n
            invariant
                n == self.minterms@.len(),
                n == mid.minterms@.len(),
                mid.rows().len() == n,
                r <= n,
                self.columns@ == mid.columns@,
                self.leafs == mid.leafs,
                self.memories == mid.memories,
                self.value_size == mid.value_size,
                mid.wf(),
                forall|q: int| r <= q < n ==> #[trigger] self.minterms@[q] == mid.minterms@[q],
                kept@.map_values(|v: Vec<usize>| v@) == mid.rows().take(r as int).filter(|x: Seq<usize>| x.len() > 0),
                forall|q: int| 0 <= q < kept@.len() ==> row_ok(#[trigger] kept@[q]@, self.columns@.len()),
            decreases n - r,
        {
            let mut row: Vec<usize> = Vec::new();
            self.minterms.set_and_swap(r, &mut row);
            proof {
                assert(row@ == mid.rows()[r as int]);
                reveal_with_fuel(Seq::filter, 1);
                assert(mid.rows().take(r + 1).drop_last() =~= mid.rows().take(r as int));
                assert(mid.rows().take(r + 1).last() == row@);
                assert(row_ok(mid.minterms@[r as int]@, mid.columns@.len()));
            }
            if row.len() > 0 {
                let ghost before = kept@;
                kept.push(row);
                proof {
                    assert(kept@.map_values(|v: Vec<usize>| v@) =~= before.map_values(|v: Vec<usize>| v@).push(mid.rows()[r as int]));
                }
            }
            r = r + 1;
        }
        proof {
            assert(mid.rows().take(n as int) =~= mid.rows());
        }
        self.minterms = kept;
        proof {
            assert(self.rows() =~= mid.rows().filter(|x: Seq<usize>| x.len() > 0));
            let v = old(self).cols()[col as int];
            assert forall|q: int| 0 <= q < mid.rows().len() implies
                (#[trigger] mid.rows()[q]).len() > 0 <==> row_vars(mid.rows()[q], mid.cols()).len() > 0 by {
                lemma_row_vars_empty(mid.rows()[q], mid.cols());
            }
            lemma_filter_map_commute(mid.rows(), |x: Seq<usize>| x.len() > 0,
                |x: Set<Column>| x.len() > 0, |x: Seq<usize>| row_vars(x, mid.cols()));
            assert(mid.products() =~= old(self).products().map_values(|p: Set<Column>| p.remove(v)));
            assert(self.products() =~= mid.rows().filter(|x: Seq<usize>| x.len() > 0).map_values(|x: Seq<usize>| row_vars(x, mid.cols())));
        }
    }

    /// Same as `remove_col` but keeps empty minterms so that stored row
    /// indices remain valid.
    pub fn remove_col_keep_rows(&mut self, col: usize)
        requires
            old(self).wf(),
            col < old(self).cols().len(),
        ensures
            final(self).wf(),
            final(self).size() == old(self).size(),
            final(self).cols() == old(self).cols().remove(col as int),
            final(self).rows() == old(self).rows().map_values(|r: Seq<usize>| shift_row(r, col)),
            final(self).products() == old(self).products().map_values(
                |p: Set<Column>| p.remove(old(self).cols()[col as int]),
            ),
    {
        self.remove_col_inner(col);
    }

    fn remove_col_inner(&mut self, col: usize)
        requires
            old(self).wf(),
            col < old(self).cols().len(),
        ensures
            final(self).wf(),
            final(self).value_size == old(self).value_size,
            final(self).cols() == old(self).cols().remove(col as int),
            final(self).rows() == old(self).rows().map_values(|r: Seq<usize>| shift_row(r, col)),
            final(self).products() == old(self).products().map_values(
                |p: Set<Column>| p.remove(old(self).cols()[col as int]),
            ),
    {
        let ghost old_cols = self.columns@;
        self.columns.remove(col);
        let n = self.minterms.len();
        let mut r: usize = 0;
        while r < n
            invariant
                n == self.minterms@.len(),
                n == old(self).minterms@.len(),
                r <= n,
                col < old_cols.len(),
                old_cols == old(self).columns@,
                self.columns@ == old_cols.remove(col as int),
                self.value_size == old(self).value_size,
                forall|q: int| r <= q < n ==> #[trigger] self.minterms@[q] == old(self).minterms@[q],
                forall|q: int| 0 <= q < r ==> #[trigger] self.minterms@[q]@ == shift_row(old(self).minterms@[q]@, col),
            decreases n - r,
        {
            let mut row: Vec<usize> = Vec::new();
            self.minterms.set_and_swap(r, &mut row);
            let shifted = shift_vec(&row, col);
            let mut shifted_mut = shifted;
            self.minterms.set_and_swap(r, &mut shifted_mut);
            r = r + 1;
        }
        self.rebuild_index();
        proof {
            assert(self.rows() =~= old(self).rows().map_values(|x: Seq<usize>| shift_row(x, col)));
            old(self).lemma_wf();
            assert forall|q: int| 0 <= q < self.minterms@.len() implies row_ok(#[trigger] self.minterms@[q]@, self.columns@.len()) by {
                assert(row_ok(old(self).minterms@[q]@, old_cols.len()));
                lemma_shift_row_ok(old(self).minterms@[q]@, col, old_cols.len());
            }
            lemma_remove_no_dup(old_cols, col as int);
            assert forall|q: int| 0 <= q < self.rows().len() implies #[trigger] self.products()[q]
                == old(self).products()[q].remove(old_cols[col as int]) by {
                assert(row_ok(old(self).rows()[q], old_cols.len()));
                lemma_shift_row_vars(old(self).rows()[q], col, old_cols);
            }
            assert(self.products() =~= old(self).products().map_values(|p: Set<Column>| p.remove(old_cols[col as int])));
        }
    }

    /// Rebuild both index maps from the columns.
    fn rebuild_index(&mut self)
        requires
            old(self).columns@.no_duplicates(),
        ensures
            final(self).minterms == old(self).minterms,
            final(self).columns == old(self).columns,
            final(self).value_size == old(self).value_size,
            index_ok(final(self).leafs@, final(self).columns@, true),
            index_ok(final(self).memories@, final(self).columns@, false),
    {
        let mut leafs: HashMap<u32, usize> = HashMap::new();
        let mut memories: HashMap<u32, usize> = HashMap::new();
        let mut c: usize = 0;
        while c < self.columns.len()
            invariant
                c <= self.columns@.len(),
                self.columns@.no_duplicates(),
                index_ok(leafs@, self.columns@.take(c as int), true),
                index_ok(memories@, self.columns@.take(c as int), false),
            decreases self.columns@.len() - c,
        {
            let ghost pre = self.columns@.take(c as int);
            let ghost post = self.columns@.take(c + 1);
            assert(post =~= pre.push(self.columns@[c as int]));
            match self.columns[c] {
                Column::Leaf(k) => {
                    proof {
                        assert(!leafs@.contains_key(k)) by {
                            if leafs@.contains_key(k) {
                                let d = leafs@[k];
                                assert(pre[d as int] == Column::Leaf(k));
                                assert(self.columns@[d as int] == self.columns@[c as int]);
                            }
                        }
                    }
                    leafs.insert(k, c);
                },
                Column::Memory(k) => {
                    proof {
                        assert(!memories@.contains_key(k)) by {
                            if memories@.contains_key(k) {
                                let d = memories@[k];
                                assert(pre[d as int] == Column::Memory(k));
                                assert(self.columns@[d as int] == self.columns@[c as int]);
                            }
                        }
                    }
                    memories.insert(k, c);
                },
            }
            proof {
                assert forall|i: int| 0 <= i < post.len() implies match #[trigger] post[i] {
                    Column::Leaf(k) => leafs@.contains_key(k) && leafs@[k] == i,
                    Column::Memory(k) => true,
                } by {
                    if i < c { assert(post[i] == pre[i]); match pre[i] { Column::Leaf(k) => {
                        if self.columns@[c as int] == Column::Leaf(k) { assert(self.columns@[i] == self.columns@[c as int]); }
                    }, _ => {} } }
                }
                assert forall|i: int| 0 <= i < post.len() implies match #[trigger] post[i] {
                    Column::Leaf(k) => true,
                    Column::Memory(k) => memories@.contains_key(k) && memories@[k] == i,
                } by {
                    if i < c { assert(post[i] == pre[i]); match pre[i] { Column::Memory(k) => {
                        if self.columns@[c as int] == Column::Memory(k) { assert(self.columns@[i] == self.columns@[c as int]); }
                    }, _ => {} } }
                }
            }
            c = c + 1;
        }
        assert(self.columns@.take(self.columns@.len() as int) =~= self.columns@);
        self.leafs = leafs;
        self.memories = memories;
    }

    // ── split ───────────────────────────────────────────────────────────────

    /// Partition the circuit on leaf `index`.
    ///
    /// Returns `(in_scope, out_of_scope)` where `in_scope` holds exactly the
    /// minterms that include the leaf (with it still present) and
    /// `out_of_scope` those that do not; a side without minterms is `None`,
    /// and both are `None` when the leaf is not a variable of the circuit.
    pub fn split(&self, index: u32) -> (parts: (Option<AlgebraicCircuit>, Option<AlgebraicCircuit>))
        requires
            self.wf(),
        ensures
            !self.cols().contains(Column::Leaf(index)) ==> parts.0.is_none() && parts.1.is_none(),
            self.cols().contains(Column::Leaf(index)) ==> {
                &&& split_part(*self, parts.0, has_var(Column::Leaf(index), true))
                &&& split_part(*self, parts.1, has_var(Column::Leaf(index), false))
            },
    {
        let col = match self.leafs.get(&index) {
            Some(c) => *c,
            None => {
                proof { self.lemma_find(Column::Leaf(index)); }
                return (None, None);
            },
        };
        proof { self.lemma_find(Column::Leaf(index)); }
        let ins = self.rows_with(col, true);
        let outs = self.rows_with(col, false);
        (self.sub_circuit(&ins), self.sub_circuit(&outs))
    }

    /// The rows whose minterm holds column `col` (when `inside`) or does not.
    fn rows_with(&self, col: usize, inside: bool) -> (sel: Vec<usize>)
        requires
            self.wf(),
            col < self.cols().len(),
        ensures
            strictly_sorted(sel@),
            forall|i: int| 0 <= i < sel@.len() ==> #[trigger] sel@[i] < self.rows().len(),
            sel@.map_values(|r: usize| self.products()[r as int]) == self.products().filter(
                has_var(self.cols()[col as int], inside),
            ),
    {
        let ghost pred = has_var(self.cols()[col as int], inside);
        let ghost prods = self.products();
        let mut sel: Vec<usize> = Vec::new();
        let mut r: usize = 0;
        while r < self.minterms.len()
            invariant
                self.wf(),
                col < self.cols().len(),
                prods == self.products(),
                pred == has_var(self.cols()[col as int], inside),
                r <= self.minterms@.len(),
                strictly_sorted(sel@),
                forall|i: int| 0 <= i < sel@.len() ==> #[trigger] sel@[i] < r,
                sel@.map_values(|q: usize| prods[q as int]) == prods.take(r as int).filter(pred),
            decreases self.minterms@.len() - r,
        {
            proof {
                reveal_with_fuel(Seq::filter, 1);
                assert(prods.take(r + 1).drop_last() =~= prods.take(r as int));
                assert(self.rows()[r as int] == self.minterms@[r as int]@);
                self.lemma_row_has_col(r as int, col);
            }
            if contains_index(&self.minterms[r], col) == inside {
                let ghost before = sel@;
                sel.push(r);
                assert(sel@.map_values(|q: usize| prods[q as int]) =~= before.map_values(|q: usize| prods[q as int]).push(prods[r as int]));
            }
            r = r + 1;
        }
        assert(prods.take(self.minterms@.len() as int) =~= prods);
        sel
    }

    /// Build a sub-circuit from the selected rows (strictly increasing row
    /// indices), keeping only the columns they use, in the order they had.
    fn sub_circuit(&self, rows: &Vec<usize>) -> (sub: Option<AlgebraicCircuit>)
        requires
            self.wf(),
            strictly_sorted(rows@),
            forall|i: int| 0 <= i < rows@.len() ==> #[trigger] rows@[i] < self.rows().len(),
        ensures
            rows@.len() == 0 ==> sub.is_none(),
            rows@.len() > 0 ==> sub is Some,
            sub matches Some(a) ==> {
                &&& a.wf()
                &&& a.size() == self.size()
                &&& a.products() == rows@.map_values(|r: usize| self.products()[r as int])
                &&& a.cols() == self.cols().filter(occurs(a.products()))
            },
    {
        if rows.len() == 0 {
            return None;
        }
        let ghost prods = rows@.map_values(|r: usize| self.products()[r as int]);
        let ncols = self.columns.len();
        // Mark the columns used by the selected rows.
        let mut used: Vec<bool> = Vec::new();
        let mut c: usize = 0;
        while c < ncols
            invariant
                c <= ncols,
                used@.len() == c,
                forall|i: int| 0 <= i < c ==> !used@[i],
            decreases ncols - c,
        {
            used.push(false);
            c = c + 1;
        }
        let mut k: usize = 0;
        while k < rows.len()
            invariant
                self.wf(),
                ncols == self.columns@.len(),
                used@.len() == ncols,
                k <= rows@.len(),
                forall|i: int| 0 <= i < rows@.len() ==> #[trigger] rows@[i] < self.rows().len(),
                forall|c: int| 0 <= c < ncols ==> (#[trigger] used@[c] <==> exists|j: int| 0 <= j < k && self.rows()[rows@[j] as int].contains(c as usize)),
            decreases rows@.len() - k,
        {
            let row = &self.minterms[rows[k]];
            proof { assert(row@ == self.rows()[rows@[k as int] as int]); assert(row_ok(row@, ncols as nat)); }
            let mut i: usize = 0;
            while i < row.len()
                invariant
                    used@.len() == ncols,
                    i <= row@.len(),
                    row_ok(row@, ncols as nat),
                    row@ == self.rows()[rows@[k as int] as int],
                    forall|c: int| 0 <= c < ncols ==> (#[trigger] used@[c] <==> (exists|j: int| 0 <= j < k && self.rows()[rows@[j] as int].contains(c as usize))
                        || row@.take(i as int).contains(c as usize)),
                decreases row@.len() - i,
            {
                used.set(row[i], true);
                proof {
                    assert forall|c: int| 0 <= c < ncols implies (#[trigger] used@[c] <==> (exists|j: int| 0 <= j < k && self.rows()[rows@[j] as int].contains(c as usize))
                        || row@.take(i + 1).contains(c as usize)) by {
                        if row@.take(i + 1).contains(c as usize) && c != row@[i as int] {
                            let pre = row@.take(i + 1);
                            let t = choose|t: int| 0 <= t < pre.len() && pre[t] == c as usize;
                            assert(row@.take(i as int)[t] == c as usize);
                        }
                        if row@.take(i as int).contains(c as usize) {
                            let pre = row@.take(i as int);
                            let t = choose|t: int| 0 <= t < pre.len() && pre[t] == c as usize;
                            assert(row@.take(i + 1)[t] == c as usize);
                        }
                        if c == row@[i as int] { assert(row@.take(i + 1)[i as int] == c as usize); }
                    }
                }
                i = i + 1;
            }
            proof {
                assert(row@.take(row@.len() as int) =~= row@);
                assert forall|c: int| 0 <= c < ncols implies (#[trigger] used@[c] <==> exists|j: int| 0 <= j < k + 1 && self.rows()[rows@[j] as int].contains(c as usize)) by {
                    if row@.contains(c as usize) { assert(self.rows()[rows@[k as int] as int].contains(c as usize)); }
                    if exists|j: int| 0 <= j < k + 1 && self.rows()[rows@[j] as int].contains(c as usize) {
                        let j = choose|j: int| 0 <= j < k + 1 && self.rows()[rows@[j] as int].contains(c as usize);
                        if j == k { assert(row@.contains(c as usize)); }
                    }
                }
            }
            k = k + 1;
        }
        // Keep the used columns, in order, and remember where each went.
        let ghost occ = occurs(prods);
        proof { self.lemma_used_occurs(rows@, used@); }
        let mut sub = AlgebraicCircuit::new(self.value_size);
        assert(sub.minterms@.len() == sub.rows().len());
        let mut remap: Vec<usize> = Vec::new();
        let mut old: usize = 0;
        while old < ncols
            invariant
                self.wf(),
                ncols == self.columns@.len(),
                used@.len() == ncols,
                forall|c: int| 0 <= c < ncols ==> #[trigger] used@[c] == occ(self.columns@[c]),
                old <= ncols,
                remap@.len() == old,
                sub.minterms@.len() == 0,
                sub.value_size == self.value_size,
                sub.columns@ == self.columns@.take(old as int).filter(occ),
                forall|c: int| 0 <= c < old && used@[c] ==> #[trigger] remap@[c] < sub.columns@.len()
                    && sub.columns@[remap@[c] as int] == self.columns@[c],
                forall|c1: int, c2: int| 0 <= c1 < c2 < old && used@[c1] && used@[c2] ==> #[trigger] remap@[c1] < #[trigger] remap@[c2],
            decreases ncols - old,
        {
            proof {
                reveal_with_fuel(Seq::filter, 1);
                assert(self.columns@.take(old + 1).drop_last() =~= self.columns@.take(old as int));
            }
            if used[old] {
                remap.push(sub.columns.len());
                sub.columns.push(self.columns[old]);
            } else {
                remap.push(0);
            }
            old = old + 1;
        }
        assert(self.columns@.take(ncols as int) =~= self.columns@);
        proof { lemma_filter_no_dup(self.columns@, occ); }
        // Remap the selected rows.
        let mut k: usize = 0;
        while k < rows.len()
            invariant
                self.wf(),
                ncols == self.columns@.len(),
                used@.len() == ncols,
                remap@.len() == ncols,
                forall|c: int| 0 <= c < ncols ==> #[trigger] used@[c] == occ(self.columns@[c]),
                forall|c: int| 0 <= c < ncols && used@[c] ==> #[trigger] remap@[c] < sub.columns@.len()
                    && sub.columns@[remap@[c] as int] == self.columns@[c],
                forall|c1: int, c2: int| 0 <= c1 < c2 < ncols && used@[c1] && used@[c2] ==> #[trigger] remap@[c1] < #[trigger] remap@[c2],
                forall|c: int| 0 <= c < ncols ==> (#[trigger] used@[c] <==> exists|j: int| 0 <= j < rows@.len() && self.rows()[rows@[j] as int].contains(c as usize)),
                forall|i: int| 0 <= i < rows@.len() ==> #[trigger] rows@[i] < self.rows().len(),
                sub.columns@ == self.columns@.filter(occ),
                sub.value_size == self.value_size,
                prods == rows@.map_values(|r: usize| self.products()[r as int]),
                k <= rows@.len(),
                sub.minterms@.len() == k,
                forall|q: int| 0 <= q < k ==> row_ok(#[trigger] sub.minterms@[q]@, sub.columns@.len()),
                forall|q: int| 0 <= q < k ==> #[trigger] row_vars(sub.minterms@[q]@, sub.columns@) == prods[q],
            decreases rows@.len() - k,
        {
            let row = &self.minterms[rows[k]];
            proof {
                assert(row@ == self.rows()[rows@[k as int] as int]);
                assert(row_ok(row@, ncols as nat));
                assert forall|t: int| 0 <= t < row@.len() implies #[trigger] used@[row@[t] as int] by {
                    assert(self.rows()[rows@[k as int] as int].contains(row@[t]));
                }
            }
            let mut new_row: Vec<usize> = Vec::new();
            let mut i: usize = 0;
            while i < row.len()
                invariant
                    i <= row@.len(),
                    row_ok(row@, ncols as nat),
                    remap@.len() == ncols,
                    forall|t: int| 0 <= t < row@.len() ==> #[trigger] used@[row@[t] as int],
                    new_row@ == row@.take(i as int).map_values(|c: usize| remap@[c as int]),
                decreases row@.len() - i,
            {
                new_row.push(remap[row[i]]);
                proof {
                    assert(row@.take(i + 1) =~= row@.take(i as int).push(row@[i as int]));
                    assert(new_row@ =~= row@.take(i + 1).map_values(|c: usize| remap@[c as int]));
                }
                i = i + 1;
            }
            proof {
                assert(row@.take(row@.len() as int) =~= row@);
                assert(row_ok(new_row@, sub.columns@.len()));
                assert forall|x: Column| row_vars(new_row@, sub.columns@).contains(x) <==> row_vars(row@, self.columns@).contains(x) by {
                    if row_vars(new_row@, sub.columns@).contains(x) {
                        let n = choose|n: usize| new_row@.to_set().contains(n) && sub.columns@[n as int] == x;
                        let t = choose|t: int| 0 <= t < new_row@.len() && new_row@[t] == n;
                        assert(row@.to_set().contains(row@[t]));
                    }
                    if row_vars(row@, self.columns@).contains(x) {
                        let c = choose|c: usize| row@.to_set().contains(c) && self.columns@[c as int] == x;
                        let t = choose|t: int| 0 <= t < row@.len() && row@[t] == c;
                        assert(new_row@.to_set().contains(new_row@[t]));
                    }
                }
                assert(row_vars(new_row@, sub.columns@) =~= row_vars(row@, self.columns@));
                assert(prods[k as int] == self.products()[rows@[k as int] as int]);
            }
            sub.minterms.push(new_row);
            k = k + 1;
        }
        sub.rebuild_index();
        proof {
            assert(sub.products() =~= prods);
            assert(sub.wf());
        }
        Some(sub)
    }

    /// A row holds column `col` exactly when its product holds that column's variable.
    proof fn lemma_row_has_col(&self, r: int, col: usize)
        requires
            self.wf(),
            0 <= r < self.rows().len(),
            col < self.cols().len(),
        ensures
            self.rows()[r].contains(col) <==> self.products()[r].contains(self.cols()[col as int]),
    {
        let row = self.rows()[r];
        assert(row_ok(self.minterms@[r]@, self.columns@.len()));
        if self.products()[r].contains(self.cols()[col as int]) {
            let c = choose|c: usize| row.to_set().contains(c) && self.cols()[c as int] == self.cols()[col as int];
            let t = choose|t: int| 0 <= t < row.len() && row[t] == c;
            assert(self.columns@[c as int] == self.columns@[col as int]);
        }
        if row.contains(col) {
            assert(row.to_set().contains(col));
        }
    }

    /// A column is marked used exactly when its variable occurs in a selected product.
    proof fn lemma_used_occurs(&self, rows: Seq<usize>, used: Seq<bool>)
        requires
            self.wf(),
            used.len() == self.cols().len(),
            forall|i: int| 0 <= i < rows.len() ==> #[trigger] rows[i] < self.rows().len(),
            forall|c: int| 0 <= c < used.len() ==> (#[trigger] used[c] <==> exists|j: int| 0 <= j < rows.len() && self.rows()[rows[j] as int].contains(c as usize)),
        ensures
            forall|c: int| 0 <= c < used.len() ==> #[trigger] used[c] == occurs(rows.map_values(|r: usize| self.products()[r as int]))(self.cols()[c]),
    {
        let prods = rows.map_values(|r: usize| self.products()[r as int]);
        assert forall|c: int| 0 <= c < used.len() implies #[trigger] used[c] == occurs(prods)(self.cols()[c]) by {
            if used[c] {
                let j = choose|j: int| 0 <= j < rows.len() && self.rows()[rows[j] as int].contains(c as usize);
                self.lemma_row_has_col(rows[j] as int, c as usize);
                assert(prods[j].contains(self.cols()[c]));
            }
            if occurs(prods)(self.cols()[c]) {
                let j = choose|j: int| 0 <= j < prods.len() && prods[j].contains(self.cols()[c]);
                self.lemma_row_has_col(rows[j] as int, c as usize);
            }
        }
    }

    // ── canonicalisation ────────────────────────────────────────────────────

    /// Produce a canonical form: sort the columns by variable, re-index every
    /// minterm, and sort the minterms lexicographically.  The formula (as a
    /// multiset of products) and the set of variables are unchanged, and a
    /// circuit already in canonical form is left as it is, so a second call
    /// changes nothing.
    pub fn canonicalize(&mut self)
        requires
            old(self).wf(),
        ensures
            canonical_of(*old(self), *final(self)),
            cols_sorted(old(self).cols()) && rows_sorted(old(self).rows())
                ==> final(self).cols() == old(self).cols() && final(self).rows() == old(self).rows(),
    {
        self.sort_matrix();
        proof {
            if cols_sorted(old(self).cols()) && rows_sorted(old(self).rows()) {
                law_canonical_form_unique(*self, *old(self));
            }
        }
    }

    /// Sorts the columns and the minterms (see `canonicalize`).
    fn sort_matrix(&mut self)
        requires
            old(self).wf(),
        ensures
            final(self).wf(),
            final(self).size() == old(self).size(),
            final(self).cols().to_set() == old(self).cols().to_set(),
            cols_sorted(final(self).cols()),
            rows_sorted(final(self).rows()),
            final(self).products().to_multiset() == old(self).products().to_multiset(),
    {
        if self.columns.len() == 0 {
            proof {
                assert forall|i: int, j: int| 0 <= i < j < self.rows().len() implies lex_le(#[trigger] self.rows()[i], #[trigger] self.rows()[j]) by {
                    assert(row_ok(self.minterms@[i]@, 0));
                    assert(row_ok(self.minterms@[j]@, 0));
                    assert(self.rows()[i].len() == 0) by {
                        if self.rows()[i].len() > 0 { assert(self.rows()[i][0] < 0); }
                    }
                }
            }
            return;
        }
        let n = self.columns.len();
        // Sort column positions by variable.
        let mut order: Vec<usize> = Vec::new();
        let mut i: usize = 0;
        while i < n
            invariant
                n == self.columns@.len(),
                self.columns@.no_duplicates(),
                i <= n,
                order@.len() == i,
                order@.no_duplicates(),
                forall|j: int| 0 <= j < i ==> #[trigger] order@[j] < i,
                forall|c: usize| c < i ==> #[trigger] order@.contains(c),
                forall|a: int, b: int| 0 <= a < b < i ==> col_lt(self.columns@[#[trigger] order@[a] as int], self.columns@[#[trigger] order@[b] as int]),
            decreases n - i,
        {
            let mut pos: usize = 0;
            while pos < order.len() && column_lt(&self.columns[order[pos]], &self.columns[i])
                invariant
                    n == self.columns@.len(),
                    i < n,
                    pos <= order@.len(),
                    order@.len() == i,
                    forall|j: int| 0 <= j < i ==> #[trigger] order@[j] < i,
                    forall|j: int| 0 <= j < pos ==> col_lt(self.columns@[#[trigger] order@[j] as int], self.columns@[i as int]),
                decreases order@.len() - pos,
            {
                pos = pos + 1;
            }
            let ghost before = order@;
            order.insert(pos, i);
            proof {
                before.insert_ensures(pos as int, i);
                assert(!before.contains(i));
                if pos < i {
                    assert(!col_lt(self.columns@[before[pos as int] as int], self.columns@[i as int]));
                    assert(self.columns@[before[pos as int] as int] != self.columns@[i as int]);
                    lemma_col_lt_total(self.columns@[before[pos as int] as int], self.columns@[i as int]);
                }
                assert forall|a: int, b: int| 0 <= a < b < i + 1 implies col_lt(self.columns@[#[trigger] order@[a] as int], self.columns@[#[trigger] order@[b] as int]) by {
                    if b < pos {
                        assert(order@[a] == before[a] && order@[b] == before[b]);
                    } else if b == pos {
                        assert(order@[a] == before[a]);
                    } else if a < pos {
                        assert(order@[a] == before[a] && order@[b] == before[b - 1]);
                        if b - 1 > pos as int {
                            lemma_col_lt_trans(self.columns@[i as int], self.columns@[before[pos as int] as int], self.columns@[before[b - 1] as int]);
                        }
                        lemma_col_lt_trans(self.columns@[before[a] as int], self.columns@[i as int], self.columns@[before[b - 1] as int]);
                    } else if a == pos {
                        assert(order@[b] == before[b - 1]);
                        if b - 1 > pos as int {
                            lemma_col_lt_trans(self.columns@[i as int], self.columns@[before[pos as int] as int], self.columns@[before[b - 1] as int]);
                        }
                    } else {
                        assert(order@[a] == before[a - 1] && order@[b] == before[b - 1]);
                    }
                }
                assert forall|c: usize| c < i + 1 implies #[trigger] order@.contains(c) by {
                    if c == i { assert(order@[pos as int] == i); } else {
                        assert(before.contains(c));
                        let k = choose|k: int| 0 <= k < before.len() && before[k] == c;
                        if k < pos { assert(order@[k] == c); } else { assert(order@[k + 1] == c); }
                    }
                }
                assert forall|a: int, b: int| 0 <= a < order@.len() && 0 <= b < order@.len() && a != b implies order@[a] != order@[b] by {
                    if a != pos as int && b != pos as int {
                        let aa = if a < pos { a } else { a - 1 };
                        let bb = if b < pos { b } else { b - 1 };
                        assert(order@[a] == before[aa] && order@[b] == before[bb]);
                    } else if a == pos as int {
                        let bb = if b < pos { b } else { b - 1 };
                        assert(order@[b] == before[bb]);
                    } else {
                        let aa = if a < pos { a } else { a - 1 };
                        assert(order@[a] == before[aa]);
                    }
                }
                assert forall|j: int| 0 <= j < i + 1 implies #[trigger] order@[j] < i + 1 by {
                    if j < pos { assert(order@[j] == before[j]); } else if j > pos { assert(order@[j] == before[j - 1]); }
                }
            }
            i = i + 1;
        }
        // Inverse permutation: old column index -> new column index.
        let mut inv: Vec<usize> = Vec::new();
        let mut k: usize = 0;
        while k < n
            invariant
                k <= n,
                inv@.len() == k,
                forall|j: int| 0 <= j < k ==> #[trigger] inv@[j] == 0,
            decreases n - k,
        {
            inv.push(0);
            k = k + 1;
        }
        let mut k: usize = 0;
        while k < n
            invariant
                k <= n,
                n == self.columns@.len(),
                inv@.len() == n,
                order@.len() == n,
                order@.no_duplicates(),
                forall|j: int| 0 <= j < n ==> #[trigger] order@[j] < n,
                forall|j: int| 0 <= j < k ==> #[trigger] inv@[order@[j] as int] == j,
            decreases n - k,
        {
            let ghost before = inv@;
            inv.set(order[k], k);
            proof {
                assert forall|j: int| 0 <= j < k + 1 implies #[trigger] inv@[order@[j] as int] == j by {
                    if j < k { assert(order@[j] != order@[k as int]); assert(inv@[order@[j] as int] == before[order@[j] as int]); }
                }
            }
            k = k + 1;
        }
        proof {
            assert forall|c: int| 0 <= c < n implies #[trigger] inv@[c] < n && order@[inv@[c] as int] == c by {
                assert(order@.contains(c as usize));
                let j = choose|j: int| 0 <= j < order@.len() && order@[j] == c as usize;
                assert(inv@[order@[j] as int] == j);
            }
        }
        // Permuted columns.
        let mut new_cols: Vec<Column> = Vec::new();
        let mut k: usize = 0;
        while k < n
            invariant
                k <= n,
                n == self.columns@.len(),
                order@.len() == n,
                forall|j: int| 0 <= j < n ==> #[trigger] order@[j] < n,
                new_cols@.len() == k,
                forall|j: int| 0 <= j < k ==> #[trigger] new_cols@[j] == self.columns@[order@[j] as int],
            decreases n - k,
        {
            new_cols.push(self.columns[order[k]]);
            k = k + 1;
        }
        let ghost old_cols = self.columns@;
        proof {
            assert(forall|c: int| 0 <= c < n ==> #[trigger] new_cols@[inv@[c] as int] == old_cols[c]);
            lemma_perm_cols(old_cols, new_cols@, order@, inv@);
        }
        // Re-index every row.
        let m = self.minterms.len();
        let mut remapped: Vec<Vec<usize>> = Vec::new();
        let mut r: usize = 0;
        while r < m
            invariant
                self.wf(),
                m == self.minterms@.len(),
                n == self.columns@.len(),
                old_cols == self.columns@,
                new_cols@.len() == n,
                inv@.len() == n,
                forall|c: int| 0 <= c < n ==> #[trigger] inv@[c] < n && new_cols@[inv@[c] as int] == old_cols[c],
                r <= m,
                remapped@.len() == r,
                forall|q: int| 0 <= q < r ==> row_ok(#[trigger] remapped@[q]@, n as nat),
                forall|q: int| 0 <= q < r ==> #[trigger] row_vars(remapped@[q]@, new_cols@) == self.products()[q],
            decreases m - r,
        {
            let row = &self.minterms[r];
            proof { assert(row_ok(row@, n as nat)); assert(row@ == self.rows()[r as int]); }
            let mut new_row: Vec<usize> = Vec::new();
            let mut t: usize = 0;
            while t < row.len()
                invariant
                    row_ok(row@, n as nat),
                    inv@.len() == n,
                    forall|c: int| 0 <= c < n ==> #[trigger] inv@[c] < n && new_cols@[inv@[c] as int] == old_cols[c],
                    t <= row@.len(),
                    strictly_sorted(new_row@),
                    new_row@.to_set() == row@.take(t as int).map_values(|c: usize| inv@[c as int]).to_set(),
                    forall|j: int| 0 <= j < new_row@.len() ==> #[trigger] new_row@[j] < n,
                decreases row@.len() - t,
            {
                let ghost before = new_row@;
                sorted_insert(&mut new_row, inv[row[t]]);
                proof {
                    let f = |c: usize| inv@[c as int];
                    assert(row@.take(t + 1).map_values(f) =~= row@.take(t as int).map_values(f).push(inv@[row@[t as int] as int]));
                    lemma_to_set_push(row@.take(t as int).map_values(f), inv@[row@[t as int] as int]);
                    assert forall|j: int| 0 <= j < new_row@.len() implies #[trigger] new_row@[j] < n by {
                        if new_row@[j] != inv@[row@[t as int] as int] {
                            let q = choose|q: int| 0 <= q < before.len() && before[q] == new_row@[j];
                        }
                    }
                }
                t = t + 1;
            }
            proof {
                let f = |c: usize| inv@[c as int];
                assert(row@.take(row@.len() as int) =~= row@);
                assert forall|x: Column| row_vars(new_row@, new_cols@).contains(x) <==> row_vars(row@, old_cols).contains(x) by {
                    if row_vars(new_row@, new_cols@).contains(x) {
                        let d = choose|d: usize| new_row@.to_set().contains(d) && new_cols@[d as int] == x;
                        assert(row@.map_values(f).to_set().contains(d));
                        let q = choose|q: int| 0 <= q < row@.map_values(f).len() && row@.map_values(f)[q] == d;
                        assert(row@.to_set().contains(row@[q]));
                    }
                    if row_vars(row@, old_cols).contains(x) {
                        let c = choose|c: usize| row@.to_set().contains(c) && old_cols[c as int] == x;
                        let q = choose|q: int| 0 <= q < row@.len() && row@[q] == c;
                        assert(row@.map_values(f)[q] == inv@[c as int]);
                        assert(row@.map_values(f).to_set().contains(inv@[c as int]));
                    }
                }
                assert(row_vars(new_row@, new_cols@) =~= row_vars(row@, old_cols));
            }
            remapped.push(new_row);
            r = r + 1;
        }
        // Sort the rows lexicographically.
        let ghost rv = |x: Seq<usize>| row_vars(x, new_cols@);
        let ghost rem = remapped@.map_values(|v: Vec<usize>| v@);
        let mut sorted: Vec<Vec<usize>> = Vec::new();
        let mut q: usize = 0;
        assert(sorted@.map_values(|v: Vec<usize>| v@).map_values(rv) =~= Seq::<Set<Column>>::empty());
        assert(rem.take(0).map_values(rv) =~= Seq::<Set<Column>>::empty());
        while q < m
            invariant
                m == remapped@.len(),
                rem == remapped@.map_values(|v: Vec<usize>| v@),
                rv == (|x: Seq<usize>| row_vars(x, new_cols@)),
                q <= m,
                forall|j: int| 0 <= j < remapped@.len() ==> row_ok(#[trigger] remapped@[j]@, n as nat),
                forall|j: int| 0 <= j < sorted@.len() ==> row_ok(#[trigger] sorted@[j]@, n as nat),
                forall|a: int, b: int| 0 <= a < b < sorted@.len() ==> lex_le(#[trigger] sorted@[a]@, #[trigger] sorted@[b]@),
                sorted@.map_values(|v: Vec<usize>| v@).map_values(rv).to_multiset() == rem.take(q as int).map_values(rv).to_multiset(),
            decreases m - q,
        {
            let row = remapped[q].clone();
            proof { assert(row@ =~= remapped@[q as int]@); }
            let mut pos: usize = 0;
            while pos < sorted.len() && row_le(&sorted[pos], &row)
                invariant
                    pos <= sorted@.len(),
                    forall|j: int| 0 <= j < pos ==> lex_le(#[trigger] sorted@[j]@, row@),
                decreases sorted@.len() - pos,
            {
                pos = pos + 1;
            }
            let ghost before = sorted@;
            sorted.insert(pos, row);
            proof {
                before.insert_ensures(pos as int, row);
                if pos < before.len() {
                    assert(!lex_le(before[pos as int]@, row@));
                    lemma_lex_total(before[pos as int]@, row@);
                }
                assert forall|a: int, b: int| 0 <= a < b < sorted@.len() implies lex_le(#[trigger] sorted@[a]@, #[trigger] sorted@[b]@) by {
                    if b < pos {
                        assert(sorted@[a] == before[a] && sorted@[b] == before[b]);
                    } else if b == pos {
                        assert(sorted@[a] == before[a]);
                    } else if a < pos {
                        assert(sorted@[a] == before[a] && sorted@[b] == before[b - 1]);
                        lemma_lex_trans(before[a]@, row@, before[pos as int]@);
                        if b - 1 > pos as int {
                            lemma_lex_trans(before[a]@, before[pos as int]@, before[b - 1]@);
                        }
                    } else if a == pos {
                        assert(sorted@[b] == before[b - 1]);
                        if b - 1 > pos as int {
                            lemma_lex_trans(row@, before[pos as int]@, before[b - 1]@);
                        }
                    } else {
                        assert(sorted@[a] == before[a - 1] && sorted@[b] == before[b - 1]);
                    }
                }
                assert forall|j: int| 0 <= j < sorted@.len() implies row_ok(#[trigger] sorted@[j]@, n as nat) by {
                    if j < pos { assert(sorted@[j] == before[j]); } else if j > pos { assert(sorted@[j] == before[j - 1]); }
                }
                let bm = before.map_values(|v: Vec<usize>| v@).map_values(rv);
                let sm = sorted@.map_values(|v: Vec<usize>| v@).map_values(rv);
                assert(sm =~= bm.insert(pos as int, rv(row@)));
                lemma_multiset_insert(bm, pos as int, rv(row@));
                assert(rem.take(q + 1).map_values(rv) =~= rem.take(q as int).map_values(rv).push(rv(row@)));
                broadcast use vstd::seq_lib::group_to_multiset_ensures;
            }
            q = q + 1;
        }
        proof {
            assert(rem.take(m as int) =~= rem);
            assert(rem.map_values(rv) =~= self.products()) by {
                assert forall|j: int| 0 <= j < m implies #[trigger] rem.map_values(rv)[j] == self.products()[j] by {
                    assert(rem[j] == remapped@[j]@);
                }
            }
        }
        self.columns = new_cols;
        self.minterms = sorted;
        self.rebuild_index();
        proof {
            assert(self.products() =~= sorted@.map_values(|v: Vec<usize>| v@).map_values(rv));
            assert(self.rows() =~= sorted@.map_values(|v: Vec<usize>| v@));
            assert forall|i: int, j: int| 0 <= i < j < self.rows().len() implies lex_le(#[trigger] self.rows()[i], #[trigger] self.rows()[j]) by {
                assert(self.rows()[i] == sorted@[i]@ && self.rows()[j] == sorted@[j]@);
            }
        }
    }

    // ── visualisation ───────────────────────────────────────────────────────

    /// The circuit as a Graphviz record listing the minterms.
    pub open spec fn dot_text(&self) -> Seq<char> {
        "digraph AlgebraicCircuit {\n"@ + "  node [shape=record];\n"@ + "  matrix [label=\"{"@
            + join(self.rows().map_values(|r: Seq<usize>| row_label(r, self.cols())), " | "@)
            + "}\" shape=record];\n"@ + "}\n"@
    }

    /// Render the circuit in Graphviz DOT format.
    pub fn to_dot_text(&self) -> (dot: String)
        requires
            self.wf(),
        ensures
            dot@ == self.dot_text(),
    {
        let mut dot = String::new();
        push_str(&mut dot, "digraph AlgebraicCircuit {\n");
        push_str(&mut dot, "  node [shape=record];\n");
        push_str(&mut dot, "  matrix [label=\"{");
        let ghost prefix = dot@;
        let ghost labels = self.rows().map_values(|r: Seq<usize>| row_label(r, self.cols()));
        let mut r: usize = 0;
        while r < self.minterms.len()
            invariant
                self.wf(),
                labels == self.rows().map_values(|r: Seq<usize>| row_label(r, self.cols())),
                r <= self.minterms@.len(),
                dot@ == prefix + join(labels.take(r as int), " | "@),
            decreases self.minterms@.len() - r,
        {
            let ghost before = dot@;
            if r > 0 {
                push_str(&mut dot, " | ");
            }
            let row = &self.minterms[r];
            proof { assert(row_ok(row@, self.columns@.len())); assert(row@ == self.rows()[r as int]); }
            let ghost mid = dot@;
            let mut t: usize = 0;
            while t < row.len()
                invariant
                    row_ok(row@, self.columns@.len()),
                    t <= row@.len(),
                    dot@ == mid + join(row@.take(t as int).map_values(|c: usize| column_label(self.columns@[c as int])), "·"@),
                decreases row@.len() - t,
            {
                let ghost b = dot@;
                if t > 0 {
                    push_str(&mut dot, "·");
                }
                match self.columns[row[t]] {
                    Column::Leaf(i) => {
                        push_char(&mut dot, 'L');
                        push_decimal(&mut dot, i as u64);
                    },
                    Column::Memory(k) => {
                        push_char(&mut dot, 'M');
                        push_decimal(&mut dot, k as u64);
                    },
                }
                proof {
                    let f = |c: usize| column_label(self.columns@[c as int]);
                    assert(row@.take(t + 1).map_values(f) =~= row@.take(t as int).map_values(f).push(f(row@[t as int])));
                    lemma_join_push(row@.take(t as int).map_values(f), "·"@, f(row@[t as int]));
                    lemma_label(self.columns@[row@[t as int] as int]);
                }
                t = t + 1;
            }
            proof {
                assert(row@.take(row@.len() as int) =~= row@);
                assert(labels.take(r + 1) =~= labels.take(r as int).push(labels[r as int]));
                lemma_join_push(labels.take(r as int), " | "@, labels[r as int]);
            }
            r = r + 1;
        }
        proof { assert(labels.take(self.minterms@.len() as int) =~= labels); }
        push_str(&mut dot, "}\" shape=record];\n");
        push_str(&mut dot, "}\n");
        dot
    }

    // ── accessors ───────────────────────────────────────────────────────────

    /// The minterms, each a strictly increasing list of column indices.
    pub fn minterms(&self) -> (m: &Vec<Vec<usize>>)
        ensures
            m@.map_values(|r: Vec<usize>| r@) == self.rows(),
    {
        &self.minterms
    }

    /// The variables, by column index.
    pub fn columns(&self) -> (c: &Vec<Column>)
        ensures
            c@ == self.cols(),
    {
        &self.columns
    }

    /// The number of values carried per variable.
    pub fn value_size(&self) -> (n: usize)
        ensures
            n == self.size(),
    {
        self.value_size
    }

    // ── proofs about the indexing invariant ─────────────────────────────────

    proof fn lemma_find(&self, v: Column)
        requires
            self.wf(),
        ensures
            match v {
                Column::Leaf(k) => self.leafs@.contains_key(k) <==> self.columns@.contains(v),
                Column::Memory(k) => self.memories@.contains_key(k) <==> self.columns@.contains(v),
            },
            match v {
                Column::Leaf(k) => self.leafs@.contains_key(k) ==> find_column(self.columns@, v) == Some(self.leafs@[k]),
                Column::Memory(k) => self.memories@.contains_key(k) ==> find_column(self.columns@, v) == Some(self.memories@[k]),
            },
            !self.columns@.contains(v) ==> find_column(self.columns@, v) == None::<usize>,
    {
        if self.columns@.contains(v) {
            let c = choose|c: int| 0 <= c < self.columns@.len() && self.columns@[c] == v;
            assert(match self.columns@[c] {
                Column::Leaf(k) => self.leafs@.contains_key(k) && self.leafs@[k] == c,
                Column::Memory(k) => self.memories@.contains_key(k) && self.memories@[k] == c,
            });
        }
        match v {
            Column::Leaf(k) => {
                if self.leafs@.contains_key(k) {
                    let c = self.leafs@[k];
                    assert(self.columns@[c as int] == v);
                    lemma_find_column_unique(self.columns@, v, c);
                }
            },
            Column::Memory(k) => {
                if self.memories@.contains_key(k) {
                    let c = self.memories@[k];
                    assert(self.columns@[c as int] == v);
                    lemma_find_column_unique(self.columns@, v, c);
                }
            },
        }
    }

    proof fn lemma_absent(&self, v: Column)
        requires
            self.wf(),
            match v {
                Column::Leaf(k) => !self.leafs@.contains_key(k),
                Column::Memory(k) => !self.memories@.contains_key(k),
            },
        ensures
            !self.columns@.contains(v),
            add_column(self.columns@, v) == self.columns@.push(v),
    {
        self.lemma_find(v);
    }

    /// Pushing a fresh variable (with its index entry) keeps the invariant.
    proof fn lemma_push_column(&self, post: Self, v: Column, col: usize)
        requires
            self.wf(),
            col == self.columns@.len(),
            !self.columns@.contains(v),
            post.minterms == self.minterms,
            post.columns@ == self.columns@.push(v),
            match v {
                Column::Leaf(k) => post.leafs@ == self.leafs@.insert(k, col)
                    && post.memories@ == self.memories@,
                Column::Memory(k) => post.memories@ == self.memories@.insert(k, col)
                    && post.leafs@ == self.leafs@,
            },
        ensures
            post.wf(),
            post.rows() == self.rows(),
    {
        assert(post.rows() =~= self.rows());
        let n = self.columns@.len();
        assert forall|r: int| 0 <= r < post.minterms@.len() implies row_ok(#[trigger] post.minterms@[r]@, post.columns@.len()) by {
            assert(row_ok(self.minterms@[r]@, n));
        }
        assert forall|i: int, j: int| 0 <= i < post.columns@.len() && 0 <= j < post.columns@.len() && i != j
            implies post.columns@[i] != post.columns@[j] by {
            if i == n { assert(self.columns@.contains(post.columns@[j])); }
            if j == n { assert(self.columns@.contains(post.columns@[i])); }
        }
        assert forall|c: int| 0 <= c < post.columns@.len() implies match #[trigger] post.columns@[c] {
            Column::Leaf(k) => post.leafs@.contains_key(k) && post.leafs@[k] == c,
            Column::Memory(k) => post.memories@.contains_key(k) && post.memories@[k] == c,
        } by {
            if c < n {
                assert(post.columns@[c] == self.columns@[c]);
                match self.columns@[c] {
                    Column::Leaf(k) => { if v == Column::Leaf(k) { assert(self.columns@.contains(v)); } },
                    Column::Memory(k) => { if v == Column::Memory(k) { assert(self.columns@.contains(v)); } },
                }
            }
        }
    }
}

/// A row after column `col` is removed: the entry `col` is dropped and larger
/// entries shift down by one.
pub open spec fn shift_row(row: Seq<usize>, col: usize) -> Seq<usize> {
    row.filter(keep_fn(col)).map_values(shift_fn(col))
}

/// Keeps every column index but `col`.
pub open spec fn keep_fn(col: usize) -> spec_fn(usize) -> bool {
    |c: usize| c != col
}

/// Moves column indices above `col` down by one.
pub open spec fn shift_fn(col: usize) -> spec_fn(usize) -> usize {
    |c: usize| if c > col { (c - 1) as usize } else { c }
}

/// Exec counterpart of `shift_row`.
fn shift_vec(row: &Vec<usize>, col: usize) -> (out: Vec<usize>)
    ensures
        out@ == shift_row(row@, col),
{
    let mut out: Vec<usize> = Vec::new();
    let mut i: usize = 0;
    while i < row.len()
        invariant
            i <= row@.len(),
            out@ == shift_row(row@.take(i as int), col),
        decreases row@.len() - i,
    {
        proof {
            reveal_with_fuel(Seq::filter, 1);
            assert(row@.take(i + 1).drop_last() =~= row@.take(i as int));
        }
        let c = row[i];
        if c != col {
            let ghost before = out@;
            if c > col {
                out.push(c - 1);
            } else {
                out.push(c);
            }
            proof {
                let f = shift_fn(col);
                let p = keep_fn(col);
                assert(row@.take(i + 1).filter(p) == row@.take(i as int).filter(p).push(c));
                assert(out@ =~= row@.take(i as int).filter(p).push(c).map_values(f));
            }
        }
        i = i + 1;
    }
    assert(row@.take(row@.len() as int) =~= row@);
    out
}

proof fn lemma_shift_row_ok(row: Seq<usize>, col: usize, n: nat)
    requires
        row_ok(row, n),
        col < n,
    ensures
        row_ok(shift_row(row, col), (n - 1) as nat),
{
    let p = keep_fn(col);
    let f = shift_fn(col);
    let fl = row.filter(p);
    assert forall|i: int, j: int| 0 <= i < j < fl.len() implies fl[i] < fl[j] by {
        lemma_filter_sorted(row, p, i, j);
    }
    assert forall|i: int| 0 <= i < fl.len() implies #[trigger] fl[i] < n && fl[i] != col by {
        lemma_filter_elem(row, p, i);
    }
    let sh = shift_row(row, col);
    assert forall|i: int, j: int| 0 <= i < j < sh.len() implies sh[i] < sh[j] by {
        assert(fl[i] < fl[j]);
    }
}

/// The filter of a strictly sorted sequence is strictly sorted.
proof fn lemma_filter_sorted(s: Seq<usize>, p: spec_fn(usize) -> bool, i: int, j: int)
    requires
        strictly_sorted(s),
        0 <= i < j < s.filter(p).len(),
    ensures
        s.filter(p)[i] < s.filter(p)[j],
    decreases s.len(),
{
    reveal_with_fuel(Seq::filter, 1);
    let t = s.drop_last();
    assert(strictly_sorted(t));
    if p(s.last()) {
        assert(s.filter(p) == t.filter(p).push(s.last()));
        if j < t.filter(p).len() {
            lemma_filter_sorted(t, p, i, j);
        } else {
            lemma_filter_elem(t, p, i);
            let k = choose|k: int| 0 <= k < t.len() && t[k] == t.filter(p)[i];
            assert(s[k] < s[s.len() - 1]);
        }
    } else {
        assert(s.filter(p) == t.filter(p));
        lemma_filter_sorted(t, p, i, j);
    }
}

proof fn lemma_remove_no_dup(cols: Seq<Column>, col: int)
    requires
        cols.no_duplicates(),
        0 <= col < cols.len(),
    ensures
        cols.remove(col).no_duplicates(),
        !cols.remove(col).contains(cols[col]),
{
    let r = cols.remove(col);
    assert forall|i: int, j: int| 0 <= i < r.len() && 0 <= j < r.len() && i != j implies r[i] != r[j] by {
        let ii = if i < col { i } else { i + 1 };
        let jj = if j < col { j } else { j + 1 };
        assert(r[i] == cols[ii] && r[j] == cols[jj]);
    }
    if r.contains(cols[col]) {
        let i = choose|i: int| 0 <= i < r.len() && r[i] == cols[col];
        let ii = if i < col { i } else { i + 1 };
        assert(r[i] == cols[ii]);
    }
}

proof fn lemma_shift_row_vars(row: Seq<usize>, col: usize, cols: Seq<Column>)
    requires
        row_ok(row, cols.len()),
        cols.no_duplicates(),
        col < cols.len(),
    ensures
        row_vars(shift_row(row, col), cols.remove(col as int)) == row_vars(row, cols).remove(cols[col as int]),
{
    let p = keep_fn(col);
    let f = shift_fn(col);
    let fl = row.filter(p);
    let sh = shift_row(row, col);
    let rc = cols.remove(col as int);
    assert forall|x: Column| row_vars(sh, rc).contains(x) <==> row_vars(row, cols).remove(cols[col as int]).contains(x) by {
        if row_vars(sh, rc).contains(x) {
            let c = choose|c: usize| sh.to_set().contains(c) && rc[c as int] == x;
            let i = choose|i: int| 0 <= i < sh.len() && sh[i] == c;
            let d = fl[i];
            lemma_filter_elem(row, p, i);
            assert(row.contains(d));
            assert(d != col);
            assert(d < cols.len());
            assert(cols[d as int] == x);
            assert(row.to_set().contains(d));
            assert(x != cols[col as int]);
        }
        if row_vars(row, cols).remove(cols[col as int]).contains(x) {
            let d = choose|d: usize| row.to_set().contains(d) && cols[d as int] == x;
            assert(d != col);
            let k = choose|k: int| 0 <= k < row.len() && row[k] == d;
            lemma_filter_contains_index(row, p, k);
            let i = choose|i: int| 0 <= i < fl.len() && fl[i] == d;
            assert(sh[i] == f(d));
            assert(sh.to_set().contains(f(d)));
            assert(rc[f(d) as int] == x);
        }
    }
    assert(row_vars(sh, rc) =~= row_vars(row, cols).remove(cols[col as int]));
}

proof fn lemma_row_vars_empty(row: Seq<usize>, cols: Seq<Column>)
    ensures
        row.len() > 0 <==> row_vars(row, cols).len() > 0,
{
    row.lemma_cardinality_of_set();
    if row.len() > 0 {
        assert(row_vars(row, cols).contains(cols[row[0] as int])) by {
            assert(row.to_set().contains(row[0]));
        }
        row.to_set().lemma_map_finite(|c: usize| cols[c as int]);
        assert(row_vars(row, cols).finite());
    } else {
        assert(row.to_set() =~= Set::<usize>::empty());
        assert(row_vars(row, cols) =~= Set::<Column>::empty());
    }
}

/// Whether a product holds (`inside`) or lacks variable `v`.
pub open spec fn has_var(v: Column, inside: bool) -> spec_fn(Set<Column>) -> bool {
    |p: Set<Column>| p.contains(v) == inside
}

/// Whether a variable occurs in one of the products.
pub open spec fn occurs(products: Seq<Set<Column>>) -> spec_fn(Column) -> bool {
    |v: Column| exists|i: int| 0 <= i < products.len() && #[trigger] products[i].contains(v)
}

/// One side of a split: absent when no product qualifies, otherwise exactly
/// the qualifying products over the columns they use.
pub open spec fn split_part(ac: AlgebraicCircuit, part: Option<AlgebraicCircuit>, pred: spec_fn(Set<Column>) -> bool) -> bool {
    &&& part.is_none() <==> ac.products().filter(pred).len() == 0
    &&& part matches Some(a) ==> {
        &&& a.wf()
        &&& a.size() == ac.size()
        &&& a.products() == ac.products().filter(pred)
        &&& a.cols() == ac.cols().filter(occurs(a.products()))
    }
}

/// The order of variables: leaves before memories, each by id.
pub open spec fn col_lt(a: Column, b: Column) -> bool {
    match (a, b) {
        (Column::Leaf(x), Column::Leaf(y)) => x < y,
        (Column::Leaf(_), Column::Memory(_)) => true,
        (Column::Memory(_), Column::Leaf(_)) => false,
        (Column::Memory(x), Column::Memory(y)) => x < y,
    }
}

/// Columns in strictly increasing variable order.
pub open spec fn cols_sorted(cols: Seq<Column>) -> bool {
    forall|i: int, j: int| 0 <= i < j < cols.len() ==> col_lt(#[trigger] cols[i], #[trigger] cols[j])
}

/// Lexicographic order on rows (a proper prefix comes first).
pub open spec fn lex_le(a: Seq<usize>, b: Seq<usize>) -> bool
    decreases a.len(),
{
    if a.len() == 0 {
        true
    } else if b.len() == 0 {
        false
    } else if a[0] != b[0] {
        a[0] < b[0]
    } else {
        lex_le(a.drop_first(), b.drop_first())
    }
}

/// Rows in non-decreasing lexicographic order.
pub open spec fn rows_sorted(rows: Seq<Seq<usize>>) -> bool {
    forall|i: int, j: int| 0 <= i < j < rows.len() ==> lex_le(#[trigger] rows[i], #[trigger] rows[j])
}

fn column_lt(a: &Column, b: &Column) -> (lt: bool)
    ensures
        lt == col_lt(*a, *b),
{
    match (a, b) {
        (Column::Leaf(x), Column::Leaf(y)) => *x < *y,
        (Column::Leaf(_), Column::Memory(_)) => true,
        (Column::Memory(_), Column::Leaf(_)) => false,
        (Column::Memory(x), Column::Memory(y)) => *x < *y,
    }
}

fn row_le(a: &Vec<usize>, b: &Vec<usize>) -> (le: bool)
    ensures
        le == lex_le(a@, b@),
{
    let mut i: usize = 0;
    assert(a@.skip(0) =~= a@);
    assert(b@.skip(0) =~= b@);
    while i < a.len() && i < b.len() && a[i] == b[i]
        invariant
            i <= a@.len(),
            i <= b@.len(),
            lex_le(a@, b@) == lex_le(a@.skip(i as int), b@.skip(i as int)),
        decreases a@.len() - i,
    {
        proof {
            assert(a@.skip(i as int).drop_first() =~= a@.skip(i + 1));
            assert(b@.skip(i as int).drop_first() =~= b@.skip(i + 1));
        }
        i = i + 1;
    }
    if i == a.len() {
        true
    } else if i == b.len() {
        false
    } else {
        a[i] < b[i]
    }
}

proof fn lemma_col_lt_total(a: Column, b: Column)
    requires
        a != b,
    ensures
        col_lt(a, b) || col_lt(b, a),
{
}

proof fn lemma_col_lt_trans(a: Column, b: Column, c: Column)
    requires
        col_lt(a, b),
        col_lt(b, c),
    ensures
        col_lt(a, c),
{
}

proof fn lemma_lex_total(a: Seq<usize>, b: Seq<usize>)
    ensures
        lex_le(a, b) || lex_le(b, a),
    decreases a.len(),
{
    if a.len() > 0 && b.len() > 0 && a[0] == b[0] {
        lemma_lex_total(a.drop_first(), b.drop_first());
    }
}

proof fn lemma_lex_trans(a: Seq<usize>, b: Seq<usize>, c: Seq<usize>)
    requires
        lex_le(a, b),
        lex_le(b, c),
    ensures
        lex_le(a, c),
    decreases a.len(),
{
    if a.len() > 0 && b.len() > 0 && c.len() > 0 && a[0] == b[0] && b[0] == c[0] {
        lemma_lex_trans(a.drop_first(), b.drop_first(), c.drop_first());
    }
}

/// Permuting the columns keeps them free of duplicates and keeps their set;
/// columns listed in increasing order stay sorted.
proof fn lemma_perm_cols(old_cols: Seq<Column>, new_cols: Seq<Column>, order: Seq<usize>, inv: Seq<usize>)
    requires
        old_cols.no_duplicates(),
        order.len() == old_cols.len(),
        new_cols.len() == old_cols.len(),
        inv.len() == old_cols.len(),
        forall|j: int| 0 <= j < order.len() ==> #[trigger] order[j] < order.len(),
        forall|j: int| 0 <= j < order.len() ==> #[trigger] new_cols[j] == old_cols[order[j] as int],
        forall|c: int| 0 <= c < inv.len() ==> #[trigger] inv[c] < inv.len() && order[inv[c] as int] == c,
        forall|a: int, b: int| 0 <= a < b < order.len() ==> col_lt(old_cols[#[trigger] order[a] as int], old_cols[#[trigger] order[b] as int]),
    ensures
        new_cols.no_duplicates(),
        new_cols.to_set() == old_cols.to_set(),
        cols_sorted(new_cols),
{
    assert forall|a: int, b: int| 0 <= a < b < new_cols.len() implies col_lt(#[trigger] new_cols[a], #[trigger] new_cols[b]) by {
        assert(col_lt(old_cols[order[a] as int], old_cols[order[b] as int]));
    }
    assert forall|a: int, b: int| 0 <= a < new_cols.len() && 0 <= b < new_cols.len() && a != b implies new_cols[a] != new_cols[b] by {
        if a < b { assert(col_lt(new_cols[a], new_cols[b])); } else { assert(col_lt(new_cols[b], new_cols[a])); }
    }
    assert forall|x: Column| new_cols.to_set().contains(x) <==> old_cols.to_set().contains(x) by {
        if new_cols.to_set().contains(x) {
            let j = choose|j: int| 0 <= j < new_cols.len() && new_cols[j] == x;
            assert(old_cols[order[j] as int] == x);
        }
        if old_cols.to_set().contains(x) {
            let c = choose|c: int| 0 <= c < old_cols.len() && old_cols[c] == x;
            assert(new_cols[inv[c] as int] == x);
        }
    }
    assert(new_cols.to_set() =~= old_cols.to_set());
}

/// The label of a variable: `L` or `M` followed by its id.
pub open spec fn column_label(v: Column) -> Seq<char> {
    match v {
        Column::Leaf(i) => seq!['L'] + decimal(i as nat),
        Column::Memory(k) => seq!['M'] + decimal(k as nat),
    }
}

/// The label of a minterm: its variables joined by `·`.
pub open spec fn row_label(row: Seq<usize>, cols: Seq<Column>) -> Seq<char> {
    join(row.map_values(|c: usize| column_label(cols[c as int])), "·"@)
}

proof fn lemma_label(v: Column)
    ensures
        match v {
            Column::Leaf(i) => forall|s: Seq<char>| #[trigger] (s.push('L') + decimal(i as nat)) == s + column_label(v),
            Column::Memory(k) => forall|s: Seq<char>| #[trigger] (s.push('M') + decimal(k as nat)) == s + column_label(v),
        },
{
    match v {
        Column::Leaf(i) => {
            assert forall|s: Seq<char>| #[trigger] (s.push('L') + decimal(i as nat)) == s + column_label(v) by {
                assert(s.push('L') + decimal(i as nat) =~= s + column_label(v));
            }
        },
        Column::Memory(k) => {
            assert forall|s: Seq<char>| #[trigger] (s.push('M') + decimal(k as nat)) == s + column_label(v) by {
                assert(s.push('M') + decimal(k as nat) =~= s + column_label(v));
            }
        },
    }
}

/// The products of one side of a split; none when the side is absent.
pub open spec fn part_products(part: Option<AlgebraicCircuit>) -> Seq<Set<Column>> {
    match part {
        Some(a) => a.products(),
        None => Seq::empty(),
    }
}

/// Splitting a circuit on one of its leaves partitions its formula: every
/// product of the first part holds the leaf, none of the second does, and
/// together they are exactly the products of the circuit.
pub proof fn law_split_partitions(
    ac: AlgebraicCircuit,
    index: u32,
    parts: (Option<AlgebraicCircuit>, Option<AlgebraicCircuit>),
)
    requires
        ac.wf(),
        ac.cols().contains(Column::Leaf(index)),
        split_part(ac, parts.0, has_var(Column::Leaf(index), true)),
        split_part(ac, parts.1, has_var(Column::Leaf(index), false)),
    ensures
        forall|i: int| 0 <= i < part_products(parts.0).len() ==> #[trigger] part_products(parts.0)[i].contains(Column::Leaf(index)),
        forall|i: int| 0 <= i < part_products(parts.1).len() ==> !#[trigger] part_products(parts.1)[i].contains(Column::Leaf(index)),
        part_products(parts.0).to_multiset().add(part_products(parts.1).to_multiset()) == ac.products().to_multiset(),
{
    let v = Column::Leaf(index);
    let ps = ac.products();
    let pin = has_var(v, true);
    let pout = has_var(v, false);
    assert(part_products(parts.0) == ps.filter(pin)) by {
        if parts.0 is None { assert(ps.filter(pin) =~= Seq::<Set<Column>>::empty()); }
    }
    assert(part_products(parts.1) == ps.filter(pout)) by {
        if parts.1 is None { assert(ps.filter(pout) =~= Seq::<Set<Column>>::empty()); }
    }
    assert forall|i: int| 0 <= i < ps.filter(pin).len() implies #[trigger] ps.filter(pin)[i].contains(v) by {
        lemma_filter_elem(ps, pin, i);
    }
    assert forall|i: int| 0 <= i < ps.filter(pout).len() implies !#[trigger] ps.filter(pout)[i].contains(v) by {
        lemma_filter_elem(ps, pout, i);
    }
    lemma_filter_partition(ps, v);
}

proof fn lemma_filter_partition(s: Seq<Set<Column>>, v: Column)
    ensures
        s.filter(has_var(v, true)).to_multiset().add(s.filter(has_var(v, false)).to_multiset()) == s.to_multiset(),
    decreases s.len(),
{
    broadcast use vstd::seq_lib::group_to_multiset_ensures;
    reveal_with_fuel(Seq::filter, 1);
    if s.len() == 0 {
        assert(s.filter(has_var(v, true)) =~= Seq::<Set<Column>>::empty());
        assert(s.filter(has_var(v, false)) =~= Seq::<Set<Column>>::empty());
        assert(s.to_multiset() =~= vstd::multiset::Multiset::empty());
        assert(Seq::<Set<Column>>::empty().to_multiset().add(Seq::<Set<Column>>::empty().to_multiset()) =~= vstd::multiset::Multiset::empty());
    } else {
        let t = s.drop_last();
        lemma_filter_partition(t, v);
        assert(s =~= t.push(s.last()));
        let a = t.filter(has_var(v, true)).to_multiset();
        let b = t.filter(has_var(v, false)).to_multiset();
        if s.last().contains(v) {
            assert(s.filter(has_var(v, true)) == t.filter(has_var(v, true)).push(s.last()));
            assert(s.filter(has_var(v, false)) == t.filter(has_var(v, false)));
            assert(a.insert(s.last()).add(b) =~= a.add(b).insert(s.last()));
        } else {
            assert(s.filter(has_var(v, true)) == t.filter(has_var(v, true)));
            assert(s.filter(has_var(v, false)) == t.filter(has_var(v, false)).push(s.last()));
            assert(a.add(b.insert(s.last())) =~= a.add(b).insert(s.last()));
        }
    }
}

/// Canonical form: two well-formed circuits whose columns and minterms are
/// both sorted (as `canonicalize` leaves them), that have the same variables
/// and the same formula (as a multiset of products), have identical columns
/// and minterms.  So `canonicalize` is idempotent, and circuits with equal
/// formulas over equal variables canonicalize to the same matrix.
pub proof fn law_canonical_form_unique(a: AlgebraicCircuit, b: AlgebraicCircuit)
    requires
        a.wf(),
        b.wf(),
        cols_sorted(a.cols()),
        cols_sorted(b.cols()),
        rows_sorted(a.rows()),
        rows_sorted(b.rows()),
        a.cols().to_set() == b.cols().to_set(),
        a.products().to_multiset() == b.products().to_multiset(),
    ensures
        a.cols() == b.cols(),
        a.rows() == b.rows(),
{
    lemma_sorted_cols_unique(a.cols(), b.cols());
    a.lemma_wf();
    b.lemma_wf();
    lemma_sorted_rows_unique(a.rows(), b.rows(), a.cols());
}

/// What `canonicalize` promises of the circuit `after` that it makes of
/// `before`: sorted columns over the same variables, sorted minterms, the
/// same formula and the same value size.
pub open spec fn canonical_of(before: AlgebraicCircuit, after: AlgebraicCircuit) -> bool {
    &&& after.wf()
    &&& after.size() == before.size()
    &&& after.cols().to_set() == before.cols().to_set()
    &&& cols_sorted(after.cols())
    &&& rows_sorted(after.rows())
    &&& after.products().to_multiset() == before.products().to_multiset()
}

/// `canonicalize` is idempotent: canonicalizing a canonical circuit again
/// gives the same columns and minterms.
pub proof fn law_canonicalize_idempotent(a: AlgebraicCircuit, b: AlgebraicCircuit, c: AlgebraicCircuit)
    requires
        canonical_of(a, b),
        canonical_of(b, c),
    ensures
        c.cols() == b.cols(),
        c.rows() == b.rows(),
        c.size() == b.size(),
{
    law_canonical_form_unique(c, b);
}

/// A leaf is in a well-formed circuit exactly when it has a column, and
/// that column is a valid index that holds the leaf.
pub proof fn law_leaf_lookup(ac: AlgebraicCircuit, index: u32)
    requires
        ac.wf(),
    ensures
        ac.cols().contains(Column::Leaf(index)) <==> find_column(ac.cols(), Column::Leaf(index)) is Some,
        find_column(ac.cols(), Column::Leaf(index)) matches Some(c)
            ==> c < ac.cols().len() && ac.cols()[c as int] == Column::Leaf(index),
{
    ac.lemma_sizes();
    if ac.cols().contains(Column::Leaf(index)) {
        let k = choose|k: int| 0 <= k < ac.cols().len() && ac.cols()[k] == Column::Leaf(index);
        assert((k as usize) < ac.cols().len() && ac.cols()[(k as usize) as int] == Column::Leaf(index));
    }
}

/// The products of `new` followed by one `add` for each of `ps`, in order.
pub open spec fn added_products(ps: Seq<Seq<u32>>) -> Seq<Set<Column>>
    decreases ps.len(),
{
    if ps.len() == 0 {
        Seq::empty()
    } else {
        added_products(ps.drop_last()).push(leaf_set(ps.last()))
    }
}

/// `from_sum_product` is `new` followed by one `add` per product, in order:
/// its columns are those that the adds leave (`extend_leaves_all` applies
/// `extend_leaves` product by product), and so are its products.
pub proof fn law_from_sum_product_adds(ps: Seq<Seq<u32>>)
    ensures
        ps.map_values(|p: Seq<u32>| leaf_set(p)) == added_products(ps),
        ps.len() > 0 ==> extend_leaves_all(Seq::empty(), ps)
            == extend_leaves(extend_leaves_all(Seq::empty(), ps.drop_last()), ps.last()),
    decreases ps.len(),
{
    if ps.len() > 0 {
        law_from_sum_product_adds(ps.drop_last());
        assert(ps.map_values(|p: Seq<u32>| leaf_set(p)) =~= ps.drop_last().map_values(|p: Seq<u32>| leaf_set(p))
            .push(leaf_set(ps.last())));
    } else {
        assert(ps.map_values(|p: Seq<u32>| leaf_set(p)) =~= Seq::<Set<Column>>::empty());
    }
}

proof fn lemma_sorted_cols_unique(s1: Seq<Column>, s2: Seq<Column>)
    requires
        cols_sorted(s1),
        cols_sorted(s2),
        s1.to_set() == s2.to_set(),
    ensures
        s1 == s2,
    decreases s1.len(),
{
    if s1.len() == 0 {
        if s2.len() > 0 { assert(s2.to_set().contains(s2[0])); }
        assert(s1 =~= s2);
    } else {
        assert(s1.to_set().contains(s1[0]));
        assert(s2.len() > 0);
        let j = choose|j: int| 0 <= j < s2.len() && s2[j] == s1[0];
        assert(s2.to_set().contains(s2[0]));
        let k = choose|k: int| 0 <= k < s1.len() && s1[k] == s2[0];
        if s1[0] != s2[0] {
            assert(j > 0 && k > 0);
            assert(col_lt(s2[0], s2[j]));
            assert(col_lt(s1[0], s1[k]));
            lemma_col_lt_trans(s1[0], s2[0], s1[0]);
        }
        let t1 = s1.drop_first();
        let t2 = s2.drop_first();
        assert forall|x: Column| t1.to_set().contains(x) <==> t2.to_set().contains(x) by {
            if t1.to_set().contains(x) {
                let i = choose|i: int| 0 <= i < t1.len() && t1[i] == x;
                assert(col_lt(s1[0], s1[i + 1]));
                assert(s2.to_set().contains(x));
                let m = choose|m: int| 0 <= m < s2.len() && s2[m] == x;
                if m == 0 { assert(x == s1[0]); }
                assert(t2[m - 1] == x);
            }
            if t2.to_set().contains(x) {
                let i = choose|i: int| 0 <= i < t2.len() && t2[i] == x;
                assert(col_lt(s2[0], s2[i + 1]));
                assert(s1.to_set().contains(x));
                let m = choose|m: int| 0 <= m < s1.len() && s1[m] == x;
                if m == 0 { assert(x == s2[0]); }
                assert(t1[m - 1] == x);
            }
        }
        assert(t1.to_set() =~= t2.to_set());
        lemma_sorted_cols_unique(t1, t2);
        assert(s1 =~= s2) by {
            assert forall|i: int| 0 <= i < s1.len() implies s1[i] == s2[i] by {
                if i > 0 { assert(s1[i] == t1[i - 1]); }
            }
        }
    }
}

proof fn lemma_sorted_rows_set_unique(r1: Seq<usize>, r2: Seq<usize>)
    requires
        strictly_sorted(r1),
        strictly_sorted(r2),
        r1.to_set() == r2.to_set(),
    ensures
        r1 == r2,
    decreases r1.len(),
{
    if r1.len() == 0 {
        if r2.len() > 0 { assert(r2.to_set().contains(r2[0])); }
        assert(r1 =~= r2);
    } else {
        assert(r1.to_set().contains(r1[0]));
        let j = choose|j: int| 0 <= j < r2.len() && r2[j] == r1[0];
        assert(r2.to_set().contains(r2[0]));
        let k = choose|k: int| 0 <= k < r1.len() && r1[k] == r2[0];
        let t1 = r1.drop_first();
        let t2 = r2.drop_first();
        assert(r1[0] == r2[0]) by {
            if j > 0 { assert(r2[0] < r2[j]); }
            if k > 0 { assert(r1[0] < r1[k]); }
        }
        assert forall|x: usize| t1.to_set().contains(x) <==> t2.to_set().contains(x) by {
            if t1.to_set().contains(x) {
                let i = choose|i: int| 0 <= i < t1.len() && t1[i] == x;
                assert(r1[0] < r1[i + 1]);
                assert(r2.to_set().contains(x));
                let m = choose|m: int| 0 <= m < r2.len() && r2[m] == x;
                assert(t2[m - 1] == x);
            }
            if t2.to_set().contains(x) {
                let i = choose|i: int| 0 <= i < t2.len() && t2[i] == x;
                assert(r2[0] < r2[i + 1]);
                assert(r1.to_set().contains(x));
                let m = choose|m: int| 0 <= m < r1.len() && r1[m] == x;
                assert(t1[m - 1] == x);
            }
        }
        assert(t1.to_set() =~= t2.to_set());
        lemma_sorted_rows_set_unique(t1, t2);
        assert(r1 =~= r2) by {
            assert forall|i: int| 0 <= i < r1.len() implies r1[i] == r2[i] by {
                if i > 0 { assert(r1[i] == t1[i - 1]); }
            }
        }
    }
}

/// Over columns without duplicates, a row is determined by its variables.
proof fn lemma_row_injective(r1: Seq<usize>, r2: Seq<usize>, cols: Seq<Column>)
    requires
        cols.no_duplicates(),
        row_ok(r1, cols.len()),
        row_ok(r2, cols.len()),
        row_vars(r1, cols) == row_vars(r2, cols),
    ensures
        r1 == r2,
{
    assert forall|x: usize| r1.to_set().contains(x) <==> r2.to_set().contains(x) by {
        if r1.to_set().contains(x) {
            let i = choose|i: int| 0 <= i < r1.len() && r1[i] == x;
            assert(row_vars(r1, cols).contains(cols[x as int]));
            let y = choose|y: usize| r2.to_set().contains(y) && cols[y as int] == cols[x as int];
            let m = choose|m: int| 0 <= m < r2.len() && r2[m] == y;
            assert(y == x);
        }
        if r2.to_set().contains(x) {
            let i = choose|i: int| 0 <= i < r2.len() && r2[i] == x;
            assert(row_vars(r2, cols).contains(cols[x as int]));
            let y = choose|y: usize| r1.to_set().contains(y) && cols[y as int] == cols[x as int];
            let m = choose|m: int| 0 <= m < r1.len() && r1[m] == y;
            assert(y == x);
        }
    }
    assert(r1.to_set() =~= r2.to_set());
    lemma_sorted_rows_set_unique(r1, r2);
}

proof fn lemma_lex_antisym(a: Seq<usize>, b: Seq<usize>)
    requires
        lex_le(a, b),
        lex_le(b, a),
    ensures
        a == b,
    decreases a.len(),
{
    if a.len() == 0 {
        assert(b.len() == 0);
        assert(a =~= b);
    } else {
        assert(b.len() > 0 && a[0] == b[0]);
        lemma_lex_antisym(a.drop_first(), b.drop_first());
        assert(a.drop_first().len() == b.drop_first().len());
        assert(a.len() == b.len());
        assert(a =~= b) by {
            assert forall|i: int| 0 <= i < a.len() implies a[i] == b[i] by {
                if i > 0 { assert(a[i] == a.drop_first()[i - 1]); assert(b[i] == b.drop_first()[i - 1]); }
            }
        }
    }
}

proof fn lemma_sorted_rows_unique(r1: Seq<Seq<usize>>, r2: Seq<Seq<usize>>, cols: Seq<Column>)
    requires
        cols.no_duplicates(),
        rows_sorted(r1),
        rows_sorted(r2),
        forall|i: int| 0 <= i < r1.len() ==> row_ok(#[trigger] r1[i], cols.len()),
        forall|i: int| 0 <= i < r2.len() ==> row_ok(#[trigger] r2[i], cols.len()),
        r1.map_values(|r: Seq<usize>| row_vars(r, cols)).to_multiset() == r2.map_values(|r: Seq<usize>| row_vars(r, cols)).to_multiset(),
    ensures
        r1 == r2,
    decreases r1.len(),
{
    broadcast use vstd::seq_lib::group_to_multiset_ensures;
    let f = |r: Seq<usize>| row_vars(r, cols);
    let m1 = r1.map_values(f);
    let m2 = r2.map_values(f);
    if r1.len() == 0 {
        assert(m1.to_multiset().len() == 0);
        assert(m2.len() == 0);
        assert(r1 =~= r2);
    } else {
        assert(m1.contains(m1[0]));
        assert(m2.to_multiset().count(m1[0]) > 0);
        let j = choose|j: int| 0 <= j < m2.len() && m2[j] == m1[0];
        lemma_row_injective(r2[j], r1[0], cols);
        assert(m2.contains(m2[0]));
        assert(m1.to_multiset().count(m2[0]) > 0);
        let k = choose|k: int| 0 <= k < m1.len() && m1[k] == m2[0];
        lemma_row_injective(r1[k], r2[0], cols);
        assert(r1[0] == r2[0]) by {
            if j > 0 { assert(lex_le(r2[0], r2[j])); } else { lemma_lex_total(r2[0], r1[0]); }
            if k > 0 { assert(lex_le(r1[0], r1[k])); } else { lemma_lex_total(r1[0], r2[0]); }
            lemma_lex_antisym(r1[0], r2[0]);
        }
        let t1 = r1.drop_first();
        let t2 = r2.drop_first();
        assert(m1.remove(0) =~= t1.map_values(f));
        assert(m2.remove(0) =~= t2.map_values(f));
        assert(t1.map_values(f).to_multiset() == t2.map_values(f).to_multiset());
        lemma_sorted_rows_unique(t1, t2, cols);
        assert(r1 =~= r2) by {
            assert forall|i: int| 0 <= i < r1.len() implies r1[i] == r2[i] by {
                if i > 0 { assert(r1[i] == t1[i - 1]); }
            }
        }
    }
}

/// Whether `row` holds `c`.
fn contains_index(row: &Vec<usize>, c: usize) -> (b: bool)
    ensures
        b == row@.contains(c),
{
    let mut i: usize = 0;
    while i < row.len()
        invariant
            i <= row@.len(),
            forall|j: int| 0 <= j < i ==> row@[j] != c,
        decreases row@.len() - i,
    {
        if row[i] == c {
            return true;
        }
        i = i + 1;
    }
    false
}

/// The position of variable `v` among `cols`, if present.
pub open spec fn find_column(cols: Seq<Column>, v: Column) -> Option<usize> {
    if cols.contains(v) {
        Some(choose|c: usize| c < cols.len() && cols[c as int] == v)
    } else {
        None
    }
}

/// The columns after making sure that `v` is among them.
pub open spec fn add_column(cols: Seq<Column>, v: Column) -> Seq<Column> {
    if cols.contains(v) { cols } else { cols.push(v) }
}

proof fn lemma_find_column_unique(cols: Seq<Column>, v: Column, c: usize)
    requires
        cols.no_duplicates(),
        c < cols.len(),
        cols[c as int] == v,
    ensures
        find_column(cols, v) == Some(c),
{
    assert(cols.contains(v));
}

} // verus!
