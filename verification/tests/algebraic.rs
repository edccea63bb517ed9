use resin::circuit::algebraic::{AlgebraicCircuit, Column};

#[test]
fn test_ac_structure() {
    // Formula: a*b + a*c  (leaves 0,1,2)
    let mut ac = AlgebraicCircuit::new(1);
    ac.add(&[0, 1]);
    ac.add(&[0, 2]);

    assert_eq!(ac.columns().len(), 3);
    assert_eq!(ac.minterms().len(), 2);
    assert!(ac.get_leaf(0).is_some());
    assert!(ac.get_leaf(1).is_some());
    assert!(ac.get_leaf(2).is_some());
}

#[test]
fn test_split() {
    // Formula: 0*1 + 0*2
    let mut ac = AlgebraicCircuit::new(1);
    ac.add(&[0, 1]);
    ac.add(&[0, 2]);

    // Split on leaf 1: in_scope = {0*1}, out_scope = {0*2}
    let (ins, outs) = ac.split(1);
    let ins = ins.unwrap();
    let outs = outs.unwrap();
    assert_eq!(ins.minterms().len(), 1);
    assert!(ins.get_leaf(1).is_some());
    assert_eq!(outs.minterms().len(), 1);
    assert!(outs.get_leaf(1).is_none());

    // Split on leaf 0: in_scope = both rows, no out_scope
    let (ins0, outs0) = ac.split(0);
    assert_eq!(ins0.unwrap().minterms().len(), 2);
    assert!(outs0.is_none());
}

#[test]
fn test_canonicalize() {
    let mut ac = AlgebraicCircuit::new(1);
    ac.add(&[2, 0]); // will be normalised to [0,2]
    ac.add(&[1, 0]); // will be normalised to [0,1]

    ac.canonicalize();

    // Rows should be sorted: [0,1] before [0,2]
    let col0 = ac.get_leaf(0).unwrap();
    let col1 = ac.get_leaf(1).unwrap();
    let col2 = ac.get_leaf(2).unwrap();
    assert!(ac.minterms()[0].contains(&col1));
    assert!(ac.minterms()[1].contains(&col2));
    let _ = col0;
}

#[test]
fn test_multiply() {
    let mut ac = AlgebraicCircuit::new(1);
    ac.add(&[1]);
    ac.add(&[2]);
    ac.multiply(0);

    // Every minterm should now contain leaf 0.
    let col0 = ac.get_leaf(0).unwrap();
    for row in ac.minterms() {
        assert!(row.contains(&col0));
    }
}

#[test]
fn ac_add_sorts_and_deduplicates_rows() {
    let mut ac = AlgebraicCircuit::new(3);
    ac.add(&[5, 3, 5, 1]);
    assert_eq!(ac.columns(), &vec![Column::Leaf(5), Column::Leaf(3), Column::Leaf(1)]);
    assert_eq!(ac.minterms(), &vec![vec![0, 1, 2]]);
    assert_eq!(ac.value_size(), 3);
    assert!(!ac.is_empty());
    assert!(AlgebraicCircuit::new(1).is_empty());
}

#[test]
fn ac_from_sum_product_reuses_columns() {
    let ac = AlgebraicCircuit::from_sum_product(1, &[vec![0, 1], vec![1, 2], vec![2]]);
    assert_eq!(ac.columns(), &vec![Column::Leaf(0), Column::Leaf(1), Column::Leaf(2)]);
    assert_eq!(ac.minterms(), &vec![vec![0, 1], vec![1, 2], vec![2]]);
    assert_eq!(ac.minterms_containing_col(1), vec![0, 1]);
    assert_eq!(ac.minterms_containing_col(2), vec![1, 2]);
    assert_eq!(ac.get_minterm_cols(1), &[1, 2]);
    assert!(ac.is_in_circuit(2));
    assert!(!ac.is_in_circuit(7));
}

#[test]
fn ac_ensure_leaf_is_idempotent() {
    let mut ac = AlgebraicCircuit::new(1);
    let a = ac.ensure_leaf(9);
    let b = ac.ensure_leaf(9);
    assert_eq!(a, b);
    assert_eq!(ac.columns().len(), 1);
    assert_eq!(ac.get_leaf(9), Some(a));
}

#[test]
fn ac_memories() {
    let mut ac = AlgebraicCircuit::new(1);
    ac.add(&[4]);
    let m = ac.create_memory(7);
    assert_eq!(m, 1);
    assert_eq!(ac.create_memory(7), 1);
    assert_eq!(ac.get_memory(7), Some(1));
    assert_eq!(ac.get_memory(8), None);
    assert!(ac.col_is_memory(1));
    assert!(!ac.col_is_memory(0));
    assert_eq!(ac.col_memory_edge(1), Some(7));
    assert_eq!(ac.col_memory_edge(0), None);
    ac.remap_memory(1, 7, 11);
    assert_eq!(ac.get_memory(7), None);
    assert_eq!(ac.get_memory(11), Some(1));
    assert_eq!(ac.columns()[1], Column::Memory(11));
    let row = ac.push_single(m);
    assert_eq!(row, 1);
    assert_eq!(ac.minterms()[1], vec![1]);
    ac.add_col_to_minterm(1, 0);
    ac.add_col_to_minterm(1, 0);
    assert_eq!(ac.minterms()[1], vec![0, 1]);
}

#[test]
fn ac_remove_col_shifts_and_drops_empty_rows() {
    // rows: [L0 L1], [L1], [L2]
    let mut ac = AlgebraicCircuit::from_sum_product(1, &[vec![0, 1], vec![1], vec![2]]);
    ac.remove_col(1);
    assert_eq!(ac.columns(), &vec![Column::Leaf(0), Column::Leaf(2)]);
    assert_eq!(ac.minterms(), &vec![vec![0], vec![1]]);
    assert_eq!(ac.get_leaf(2), Some(1));
    assert_eq!(ac.get_leaf(1), None);

    let mut kept = AlgebraicCircuit::from_sum_product(1, &[vec![0, 1], vec![1], vec![2]]);
    kept.remove_col_keep_rows(1);
    assert_eq!(kept.minterms(), &vec![vec![0], vec![], vec![1]]);
}

#[test]
fn ac_split_on_missing_leaf() {
    let ac = AlgebraicCircuit::from_sum_product(1, &[vec![0, 1]]);
    let (ins, outs) = ac.split(5);
    assert!(ins.is_none());
    assert!(outs.is_none());
}

#[test]
fn ac_split_keeps_only_used_columns_in_order() {
    let ac = AlgebraicCircuit::from_sum_product(2, &[vec![3, 1], vec![2], vec![1, 4]]);
    // columns: L3 L1 L2 L4
    let (ins, outs) = ac.split(1);
    let ins = ins.unwrap();
    let outs = outs.unwrap();
    assert_eq!(ins.columns(), &vec![Column::Leaf(3), Column::Leaf(1), Column::Leaf(4)]);
    assert_eq!(ins.minterms(), &vec![vec![0, 1], vec![1, 2]]);
    assert_eq!(ins.value_size(), 2);
    assert_eq!(outs.columns(), &vec![Column::Leaf(2)]);
    assert_eq!(outs.minterms(), &vec![vec![0]]);
}

#[test]
fn ac_canonicalize_orders_columns_and_rows() {
    let mut ac = AlgebraicCircuit::new(1);
    ac.add(&[7, 2]);
    ac.create_memory(1);
    ac.add(&[2]);
    let m = ac.get_memory(1).unwrap();
    ac.push_single(m);
    ac.canonicalize();
    assert_eq!(ac.columns(), &vec![Column::Leaf(2), Column::Leaf(7), Column::Memory(1)]);
    assert_eq!(ac.minterms(), &vec![vec![0], vec![0, 1], vec![2]]);
    assert_eq!(ac.get_leaf(7), Some(1));
    assert_eq!(ac.get_memory(1), Some(2));
}

#[test]
fn ac_dot_text() {
    let mut ac = AlgebraicCircuit::from_sum_product(1, &[vec![0, 12], vec![3]]);
    let m = ac.create_memory(40);
    ac.push_single(m);
    assert_eq!(
        ac.to_dot_text(),
        "digraph AlgebraicCircuit {\n  node [shape=record];\n  matrix [label=\"{L0·L12 | L3 | M40}\" shape=record];\n}\n"
    );
    assert_eq!(
        AlgebraicCircuit::new(1).to_dot_text(),
        "digraph AlgebraicCircuit {\n  node [shape=record];\n  matrix [label=\"{}\" shape=record];\n}\n"
    );
}

#[test]
fn test_push_minterm_with_any_indices() {
    // indices are sorted and deduplicated, whether or not a column has them
    let mut ac = AlgebraicCircuit::new(1);
    assert_eq!(ac.push_minterm(vec![3, 1, 3]), 0);
    assert_eq!(ac.minterms(), &vec![vec![1, 3]]);
}

#[test]
fn test_add_col_to_minterm_is_idempotent() {
    let mut ac = AlgebraicCircuit::new(1);
    ac.add(&[0, 2]);
    ac.add_col_to_minterm(0, 5);
    assert_eq!(ac.minterms(), &vec![vec![0, 1, 5]]);
    ac.add_col_to_minterm(0, 5);
    assert_eq!(ac.minterms(), &vec![vec![0, 1, 5]]);
}

#[test]
fn test_canonicalize_twice_changes_nothing() {
    let mut ac = AlgebraicCircuit::new(1);
    ac.add(&[2, 0]);
    ac.add(&[1]);
    ac.add(&[0, 1]);
    ac.canonicalize();
    let columns = ac.columns().clone();
    let minterms = ac.minterms().clone();
    ac.canonicalize();
    assert_eq!(ac.columns(), &columns);
    assert_eq!(ac.minterms(), &minterms);
}

#[test]
fn test_from_sum_product_is_adds() {
    let products = [vec![3, 1], vec![1, 2], vec![0]];
    let built = AlgebraicCircuit::from_sum_product(2, &products);
    let mut added = AlgebraicCircuit::new(2);
    for product in &products {
        added.add(product);
    }
    assert_eq!(built.columns(), added.columns());
    assert_eq!(built.minterms(), added.minterms());
}

#[test]
fn test_leaf_lookup() {
    let mut ac = AlgebraicCircuit::new(1);
    ac.add(&[4, 7]);
    assert!(ac.is_in_circuit(7));
    let col = ac.get_leaf(7).unwrap();
    assert!(col < ac.columns().len());
    assert_eq!(ac.columns()[col], Column::Leaf(7));
    assert!(!ac.is_in_circuit(5));
    assert!(ac.get_leaf(5).is_none());
}
