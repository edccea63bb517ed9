use std::collections::HashMap;

use petgraph::stable_graph::{EdgeIndex, NodeIndex};
use rand::seq::IndexedRandom;
use rand::RngExt;
use resin::circuit::algebraic::{AlgebraicCircuit, Column};
use resin::circuit::reactive::ReactiveCircuit;
use resin::circuit::scheduling::force_invalidate_dependencies;

/// The value of node `node`: the sum over its minterms of the product of
/// the leaf values and of the cached values of the children.
fn node_value(rc: &ReactiveCircuit, node: u32, leaf_values: &[f64], cache: &HashMap<u32, f64>) -> f64 {
    let ac = rc.structure.node_weight(NodeIndex::new(node as usize)).unwrap();
    ac.minterms()
        .iter()
        .map(|row| {
            row.iter()
                .map(|&column| match ac.columns()[column] {
                    Column::Leaf(index) => leaf_values[index as usize],
                    Column::Memory(edge) => {
                        let (_, child) = rc.structure.edge_endpoints(EdgeIndex::new(edge as usize)).unwrap();
                        cache[&(child.index() as u32)]
                    }
                })
                .product::<f64>()
        })
        .sum()
}

/// Runs a schedule, level by level, and returns the values of the targets
/// whose node was recomputed.
fn run(rc: &ReactiveCircuit, schedule: &[Vec<u32>], leaf_values: &[f64], cache: &mut HashMap<u32, f64>) -> HashMap<String, f64> {
    let mut results = HashMap::new();
    for level in schedule {
        for &node in level {
            let value = node_value(rc, node, leaf_values, cache);
            cache.insert(node, value);
            for (token, target) in &rc.targets {
                if *target == node {
                    results.insert(token.clone(), value);
                }
            }
        }
    }
    results
}

fn full_value(rc: &mut ReactiveCircuit, leaf_values: &[f64], token: &str) -> f64 {
    let schedule = rc.full_update();
    let mut cache = HashMap::new();
    run(rc, &schedule, leaf_values, &mut cache)[token]
}

fn expected_value(sum_of_products: &[Vec<u32>], leaf_values: &[f64]) -> f64 {
    sum_of_products
        .iter()
        .map(|product| product.iter().map(|&leaf| leaf_values[leaf as usize]).product::<f64>())
        .sum()
}

#[test]
fn test_randomized_adaptation() {
    let mut rng = rand::rng();
    let value_size = 1;
    let number_leafs = 50;
    let number_products = 250;
    let product_size = 25;
    let simulation_steps = 100;

    let mut reactive_circuit = ReactiveCircuit::new(value_size);
    let mut leaf_values: Vec<f64> = Vec::new();
    for _ in 0..number_leafs {
        reactive_circuit.add_leaf();
        leaf_values.push(rng.random_range(0.0..1.0));
    }

    let mut sum_of_products = Vec::new();
    let leaf_indices: Vec<u32> = (0..number_leafs as u32).collect();
    for _ in 0..number_products {
        let product: Vec<u32> = leaf_indices.sample(&mut rng, product_size).cloned().collect();
        sum_of_products.push(product);
    }

    reactive_circuit.add_sum_product(&sum_of_products, "random_target");

    let mut cache = HashMap::new();
    for _step in 0..simulation_steps + 1 {
        let expected = expected_value(&sum_of_products, &leaf_values);

        let schedule = reactive_circuit.update();
        let result = run(&reactive_circuit, &schedule, &leaf_values, &mut cache);
        if result.contains_key("random_target") {
            assert!((result["random_target"] - expected).abs() < 1e-9);
        }

        let result = full_value(&mut reactive_circuit, &leaf_values, "random_target");
        assert!((result - expected).abs() < 1e-9);

        let leaf_to_update = rng.random_range(0..number_leafs) as u32;
        leaf_values[leaf_to_update as usize] = rng.random_range(0.0..1.0);
        force_invalidate_dependencies(&mut reactive_circuit, leaf_to_update);

        let leaf_to_adapt = rng.random_range(0..number_leafs) as u32;
        if rng.random_bool(0.5) {
            reactive_circuit.lift_leaf(leaf_to_adapt);
        } else {
            reactive_circuit.drop_leaf(leaf_to_adapt);
        }
    }
}

#[test]
fn test_bare_minterm_lift() {
    // x + x*a, with P(x) = 0.5 and P(a) = 0.4: 0.5 + 0.5 * 0.4
    let mut rc = ReactiveCircuit::new(1);
    rc.add_leaf();
    rc.add_leaf();
    let leaf_values = [0.5, 0.4];
    rc.add_sum_product(&[vec![0], vec![0, 1]], "test");

    let expected = 0.5_f64 + 0.5 * 0.4;

    let v_before = full_value(&mut rc, &leaf_values, "test");
    assert!((v_before - expected).abs() < 1e-9, "before lift: {v_before} != {expected}");

    rc.lift_leaf(0);

    let v_after = full_value(&mut rc, &leaf_values, "test");
    assert!((v_after - expected).abs() < 1e-9, "after lift: {v_after} != {expected}");
}

#[test]
fn reactive_test_rc() {
    let mut rc = ReactiveCircuit::new(1);
    rc.add_leaf();
    rc.add_leaf();
    rc.add_leaf();
    let leaf_values = [1.0, 1.0, 1.0];

    rc.add_sum_product(&[vec![0, 1], vec![0, 2]], "test");

    assert_eq!(rc.dependencies.len(), 3);
    assert_eq!(rc.structure.node_count(), 1);
    let ac = rc.structure.node_weight(NodeIndex::new(0)).unwrap();
    assert_eq!(ac.minterms().len(), 2);
    assert_eq!(ac.columns().len(), 3);
    assert!(rc.dependencies.iter().all(|d| d.len() == 1));
    assert!(rc.dependencies.iter().all(|d| d == &vec![0]));

    let schedule = rc.update();
    let mut cache = HashMap::new();
    let value = run(&rc, &schedule, &leaf_values, &mut cache)
        .get("test")
        .copied()
        .expect("The key 'test' was not found in the results");

    rc.lift_leaf(0);
    assert_eq!(full_value(&mut rc, &leaf_values, "test"), value);

    rc.drop_leaf(0);
    assert_eq!(full_value(&mut rc, &leaf_values, "test"), value);

    rc.drop_leaf(0);
    assert_eq!(full_value(&mut rc, &leaf_values, "test"), value);
}

#[test]
fn test_lift_moves_leaf_into_new_parent() {
    // 0*1 + 0*2: lifting leaf 0 puts it into a new parent node, whose
    // circuit multiplies it with the memory of the remaining sum 1 + 2.
    let mut rc = ReactiveCircuit::new(1);
    for _ in 0..3 {
        rc.add_leaf();
    }
    rc.add_sum_product(&[vec![0, 1], vec![0, 2]], "t");
    rc.lift_leaf(0);
    assert_eq!(rc.structure.node_count(), 2);
    assert_eq!(rc.structure.edge_count(), 1);
    let root = rc.find_target("t").unwrap();
    let ac = rc.structure.node_weight(NodeIndex::new(root as usize)).unwrap();
    assert_eq!(ac.minterms().len(), 1);
    assert!(ac.get_leaf(0).is_some());
    assert!(rc.check_invariants());
    // leaf 0 is now held by the root alone; leaves 1 and 2 by the child and the root
    assert_eq!(rc.dependencies[0], vec![root]);
    assert_eq!(rc.dependencies[1].len(), 2);
}

#[test]
fn test_drop_pushes_leaf_into_new_child() {
    // a single product 0*1: dropping leaf 0 moves it into a new child node
    let mut rc = ReactiveCircuit::new(1);
    rc.add_leaf();
    rc.add_leaf();
    rc.add_sum_product(&[vec![0, 1]], "t");
    rc.drop_leaf(0);
    assert_eq!(rc.structure.node_count(), 2);
    let root = rc.find_target("t").unwrap();
    let ac = rc.structure.node_weight(NodeIndex::new(root as usize)).unwrap();
    assert!(ac.get_leaf(0).is_none());
    assert!(ac.get_leaf(1).is_some());
    assert_eq!(full_value(&mut rc, &[0.5, 0.25], "t"), 0.125);
}

#[test]
fn test_update_schedule_orders_children_first() {
    let mut rc = ReactiveCircuit::new(1);
    for _ in 0..3 {
        rc.add_leaf();
    }
    rc.add_sum_product(&[vec![0, 1], vec![0, 2]], "t");
    rc.lift_leaf(0);
    let schedule = rc.full_update();
    // the child (height 0) comes first, the root (height 1) after it
    assert_eq!(schedule.len(), 2);
    assert_eq!(schedule[1], vec![rc.find_target("t").unwrap()]);
    assert!(rc.queue.is_empty());
    // nothing is outdated any more
    let schedule = rc.update();
    assert!(schedule.iter().all(|level| level.is_empty()));
}

#[test]
fn test_descendants_by_depth() {
    let mut rc = ReactiveCircuit::new(1);
    for _ in 0..3 {
        rc.add_leaf();
    }
    rc.add_sum_product(&[vec![0, 1], vec![0, 2]], "t");
    rc.lift_leaf(0);
    let root = rc.find_target("t").unwrap();
    let levels = rc.get_descendants_by_depth(root);
    assert_eq!(levels.len(), 1);
    assert_eq!(levels[0].len(), 1);
    assert!(rc.get_descendants_by_depth(levels[0][0]).is_empty());
    assert!(rc.get_descendants_by_depth(1000).is_empty());
}

#[test]
fn test_prune_removes_empty_nodes() {
    let mut rc = ReactiveCircuit::new(1);
    rc.add_leaf();
    rc.new_target("empty");
    rc.add_sum_product(&[vec![0]], "full");
    assert_eq!(rc.structure.node_count(), 2);
    assert!(!rc.check_invariants());
    rc.prune();
    assert_eq!(rc.structure.node_count(), 1);
    assert!(rc.check_invariants());
}

#[test]
fn test_force_invalidate_dependencies() {
    let mut rc = ReactiveCircuit::new(1);
    rc.add_leaf();
    rc.add_leaf();
    rc.add_sum_product(&[vec![0]], "t");
    rc.update();
    assert!(rc.queue.is_empty());
    force_invalidate_dependencies(&mut rc, 1);
    assert!(rc.queue.is_empty());
    force_invalidate_dependencies(&mut rc, 0);
    assert_eq!(rc.queue, vec![rc.find_target("t").unwrap()]);
}

#[test]
fn test_adapt_first_partitioning_drops() {
    // the first adaptation drops each leaf once per layer
    let mut rc = ReactiveCircuit::new(1);
    rc.add_leaf();
    rc.add_leaf();
    rc.add_sum_product(&[vec![0, 1]], "t");
    rc.adapt(vec![0, 1]);
    assert_eq!(rc.partitioning, vec![0, 1]);
    assert_eq!(rc.structure.node_count(), 2);
    assert_eq!(full_value(&mut rc, &[0.5, 0.5], "t"), 0.25);
    // leaf 1 moves back up a layer
    rc.adapt(vec![1, 0]);
    assert_eq!(rc.partitioning, vec![1, 0]);
    assert_eq!(full_value(&mut rc, &[0.5, 0.5], "t"), 0.25);
}

#[test]
fn test_flat_circuit_is_one_node() {
    let ac = AlgebraicCircuit::from_sum_product(1, &[vec![0, 1]]);
    assert_eq!(ac.minterms().len(), 1);
}

#[test]
fn test_lift_keeps_target_value() {
    // 0*1 + 0*2 + 3 + 0: lifting leaf 0 out of the single node keeps the value
    let mut rc = ReactiveCircuit::new(1);
    for _ in 0..4 {
        rc.add_leaf();
    }
    let products = [vec![0, 1], vec![0, 2], vec![3], vec![0]];
    let leaf_values = [0.5, 0.3, 0.2, 0.7];
    rc.add_sum_product(&products, "t");
    let expected = expected_value(&products, &leaf_values);
    assert!((full_value(&mut rc, &leaf_values, "t") - expected).abs() < 1e-12);
    rc.lift_leaf(0);
    assert!(rc.structure.node_count() > 1);
    assert!((full_value(&mut rc, &leaf_values, "t") - expected).abs() < 1e-12);
}

#[test]
fn test_drop_keeps_target_value() {
    // 0*1 + 2 + 0*2: dropping leaf 0 from the single node keeps the value
    let mut rc = ReactiveCircuit::new(1);
    for _ in 0..3 {
        rc.add_leaf();
    }
    let products = [vec![0, 1], vec![2], vec![0, 2]];
    let leaf_values = [0.5, 0.3, 0.2];
    rc.add_sum_product(&products, "t");
    let expected = expected_value(&products, &leaf_values);
    rc.drop_leaf(0);
    let root = rc.find_target("t").unwrap();
    let ac = rc.structure.node_weight(NodeIndex::new(root as usize)).unwrap();
    assert!(ac.get_leaf(0).is_none());
    assert!((full_value(&mut rc, &leaf_values, "t") - expected).abs() < 1e-12);
}

#[test]
fn test_drop_of_leaf_repeated_below_itself() {
    // outer = 0 * inner with inner = 0: the leaf occurs twice on one path.
    // The drop walks the nodes in increasing order: the outer node first
    // multiplies the leaf into the inner one, which holds it already, and
    // then the inner node pushes it into a new child; outer becomes 0 alone.
    let mut rc = ReactiveCircuit::new(1);
    rc.add_leaf();
    let leaf_values = [0.5];
    rc.add_sum_product(&[vec![0]], "outer");
    rc.add_sum_product(&[vec![0]], "inner");
    let outer = rc.find_target("outer").unwrap();
    let inner = rc.find_target("inner").unwrap();
    assert!(outer < inner);
    rc.connect(outer, inner, 0);
    rc.update_dependencies();
    assert!((full_value(&mut rc, &leaf_values, "outer") - 0.25).abs() < 1e-12);
    rc.drop_leaf(0);
    let ac = rc.structure.node_weight(NodeIndex::new(outer as usize)).unwrap();
    assert!(ac.get_leaf(0).is_none());
    assert!((full_value(&mut rc, &leaf_values, "outer") - 0.5).abs() < 1e-12);
}

#[test]
fn test_lift_of_leaf_repeated_below_itself() {
    // outer = 0 * inner with inner = 0 * 1: lifting leaf 0 out of the inner
    // node adds it to the outer minterm, which holds it already; outer
    // becomes 0 * 1.
    let mut rc = ReactiveCircuit::new(1);
    rc.add_leaf();
    rc.add_leaf();
    let leaf_values = [0.5, 0.4];
    rc.add_sum_product(&[vec![0, 1]], "inner");
    rc.add_sum_product(&[vec![0]], "outer");
    let outer = rc.find_target("outer").unwrap();
    let inner = rc.find_target("inner").unwrap();
    assert!(inner < outer);
    rc.connect(outer, inner, 0);
    rc.update_dependencies();
    assert!((full_value(&mut rc, &leaf_values, "outer") - 0.1).abs() < 1e-12);
    rc.lift_leaf(0);
    assert!((full_value(&mut rc, &leaf_values, "outer") - 0.2).abs() < 1e-12);
}

#[test]
fn test_drop_into_shared_child() {
    // a = 0 * c and b = 1 * c share the child c = 1.  Dropping leaf 0 from
    // a multiplies it into c, so b, which holds no leaf 0, changes too.
    let mut rc = ReactiveCircuit::new(1);
    rc.add_leaf();
    rc.add_leaf();
    let leaf_values = [0.5, 0.4];
    rc.add_sum_product(&[vec![1]], "c");
    rc.add_sum_product(&[vec![0]], "a");
    rc.add_sum_product(&[vec![1]], "b");
    let a = rc.find_target("a").unwrap();
    let b = rc.find_target("b").unwrap();
    let c = rc.find_target("c").unwrap();
    rc.connect(a, c, 0);
    rc.connect(b, c, 0);
    rc.update_dependencies();
    assert!((full_value(&mut rc, &leaf_values, "a") - 0.2).abs() < 1e-12);
    assert!((full_value(&mut rc, &leaf_values, "b") - 0.16).abs() < 1e-12);
    rc.drop_leaf(0);
    assert!((full_value(&mut rc, &leaf_values, "a") - 0.2).abs() < 1e-12);
    assert!((full_value(&mut rc, &leaf_values, "b") - 0.08).abs() < 1e-12);
}

#[test]
fn test_lift_into_existing_parent() {
    // outer = 2 * inner with inner = 0 * 1: lifting leaf 0 moves it into the
    // outer node, removes the inner node and keeps the value.
    let mut rc = ReactiveCircuit::new(1);
    for _ in 0..3 {
        rc.add_leaf();
    }
    let leaf_values = [0.5, 0.4, 0.3];
    rc.add_sum_product(&[vec![2]], "outer");
    rc.add_sum_product(&[vec![0, 1]], "inner");
    let outer = rc.find_target("outer").unwrap();
    let inner = rc.find_target("inner").unwrap();
    assert!(outer < inner);
    rc.connect(outer, inner, 0);
    rc.update_dependencies();
    assert!((full_value(&mut rc, &leaf_values, "outer") - 0.06).abs() < 1e-12);
    rc.lift_leaf(0);
    let ac = rc.structure.node_weight(NodeIndex::new(outer as usize)).unwrap();
    assert!(ac.get_leaf(0).is_some());
    assert!(!rc.structure.contains_node(NodeIndex::new(inner as usize)) || {
        let moved = rc.structure.node_weight(NodeIndex::new(inner as usize)).unwrap();
        moved.get_leaf(0).is_none()
    });
    assert!((full_value(&mut rc, &leaf_values, "outer") - 0.06).abs() < 1e-12);
}

#[test]
fn test_adaptation_keeps_targets() {
    let mut rc = ReactiveCircuit::new(1);
    for _ in 0..3 {
        rc.add_leaf();
    }
    rc.add_sum_product(&[vec![0, 1], vec![2]], "t");
    rc.add_sum_product(&[vec![1, 2]], "u");
    let before = rc.targets.clone();
    // the first adaptation only drops, and keeps the targets as they are
    rc.adapt(vec![1, 0, 1]);
    assert_eq!(rc.targets, before);
    // later adaptations keep the tokens, in order
    rc.adapt(vec![0, 1, 2]);
    let tokens: Vec<String> = rc.targets.iter().map(|(token, _)| token.clone()).collect();
    assert_eq!(tokens, vec!["t".to_string(), "u".to_string()]);
    let values = [0.5, 0.4, 0.3];
    assert!((full_value(&mut rc, &values, "t") - (0.5 * 0.4 + 0.3)).abs() < 1e-12);
    assert!((full_value(&mut rc, &values, "u") - 0.4 * 0.3).abs() < 1e-12);
}

#[test]
fn test_lift_through_memory_in_two_minterms() {
    // r = 2 * c + 3 * c with c = 0 * 1: the memory of c lies in two minterms
    // of r.  The lift disconnects c from both and rewires only the first,
    // so r becomes 3 + 2 * 0 * 1.
    let mut rc = ReactiveCircuit::new(1);
    for _ in 0..4 {
        rc.add_leaf();
    }
    let leaf_values = [0.5, 0.4, 0.3, 0.2];
    rc.add_sum_product(&[vec![0, 1]], "c");
    rc.add_sum_product(&[vec![2], vec![3]], "r");
    let c = rc.find_target("c").unwrap();
    let r = rc.find_target("r").unwrap();
    assert!(c < r);
    let col = rc.connect(r, c, 0);
    rc.structure.node_weight_mut(NodeIndex::new(r as usize)).unwrap().add_col_to_minterm(1, col);
    rc.update_dependencies();
    assert!((full_value(&mut rc, &leaf_values, "r") - 0.1).abs() < 1e-12);
    rc.lift_leaf(0);
    assert!((full_value(&mut rc, &leaf_values, "r") - 0.26).abs() < 1e-12);
}

#[test]
fn test_lift_out_of_two_holders() {
    // t = 0 * 1 and u = 0 * 2, two roots that both hold leaf 0: each lift
    // is ready, so both targets keep their values.
    let mut rc = ReactiveCircuit::new(1);
    for _ in 0..3 {
        rc.add_leaf();
    }
    let leaf_values = [0.5, 0.4, 0.3];
    rc.add_sum_product(&[vec![0, 1]], "t");
    rc.add_sum_product(&[vec![0, 2]], "u");
    rc.lift_leaf(0);
    for (_, node) in rc.targets.clone() {
        let ac = rc.structure.node_weight(NodeIndex::new(node as usize)).unwrap();
        assert!(ac.get_leaf(0).is_some());
    }
    assert!((full_value(&mut rc, &leaf_values, "t") - 0.2).abs() < 1e-12);
    assert!((full_value(&mut rc, &leaf_values, "u") - 0.15).abs() < 1e-12);
}
