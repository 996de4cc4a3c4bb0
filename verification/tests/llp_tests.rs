use webgraph::graphs::VecGraph;
use webgraph::llp::{combine, layered_label_propagation};

fn two_cliques() -> VecGraph {
    let mut g = VecGraph::new();
    g.add_node(7);
    for a in 0..4u64 {
        for b in 0..4u64 {
            if a != b {
                g.add_arc(a as usize, b);
            }
        }
    }
    for a in 4..8u64 {
        for b in 4..8u64 {
            if a != b {
                g.add_arc(a as usize, b);
            }
        }
    }
    g
}

#[test]
fn llp_two_cliques_clusters() {
    let g = two_cliques();
    let gammas = vec![(0u64, 1u64), (1u64, 10u64)];
    let labels = layered_label_propagation(&g, &gammas, 4, 0, 100);
    assert_eq!(labels.len(), 8);
    for &l in &labels {
        assert!(l < 8);
    }
    // members of one clique share a label, and the cliques differ
    for v in 1..4 {
        assert_eq!(labels[v], labels[0]);
    }
    for v in 5..8 {
        assert_eq!(labels[v], labels[4]);
    }
    assert_ne!(labels[0], labels[4]);
}

#[test]
fn llp_terminates_without_predicate() {
    // with no stopping predicate the sweep stops because no label moves
    let g = two_cliques();
    let gammas = vec![(0u64, 1u64)];
    let labels = layered_label_propagation(&g, &gammas, 8, 7, 1000);
    assert_eq!(labels.len(), 8);
    for &l in &labels {
        assert!(l < 8);
    }
}

#[test]
fn llp_labels_are_contiguous() {
    // the result uses exactly the labels 0..k for some k
    let g = two_cliques();
    let gammas = vec![(0u64, 1u64), (1u64, 10u64)];
    let labels = layered_label_propagation(&g, &gammas, 4, 3, 100);
    let k = labels.iter().max().map(|m| m + 1).unwrap_or(0);
    for c in 0..k {
        assert!(labels.contains(&c), "label {} below the count is unused", c);
    }
}

fn distinct(v: &[usize]) -> usize {
    let mut s = v.to_vec();
    s.sort();
    s.dedup();
    s.len()
}

#[test]
fn combine_monotonicity() {
    let mut result = vec![0usize, 1, 0, 1];
    let labels = vec![0usize, 0, 1, 1];
    let mut temp = vec![0usize; 4];
    let before_result = distinct(&result);
    let before_labels = distinct(&labels);
    let count = combine(&mut result, &labels, &mut temp);
    assert!(count >= before_result);
    assert!(count >= before_labels);
    assert_eq!(count, 4);
    assert_eq!(distinct(&result), 4);
}

#[test]
fn combine_refines_equal_partitions() {
    let mut result = vec![1usize, 1, 0, 0];
    let labels = vec![3usize, 3, 2, 2];
    let mut temp = vec![0usize; 4];
    let count = combine(&mut result, &labels, &mut temp);
    // the partitions agree, so the refinement has exactly their classes
    assert_eq!(count, 2);
    assert_eq!(result[0], result[1]);
    assert_eq!(result[2], result[3]);
    assert_ne!(result[0], result[2]);
}
