use std::collections::HashMap;
use wavelet_tree::bits::BitVector;
use wavelet_tree::graph::Graph;

fn assert_bit_pattern(bits: &BitVector, pattern: &Vec<u32>) {
    let mut i = 0;
    assert_eq!(bits.len() as usize, pattern.len());
    for bit in pattern.iter() {
        assert_eq!(bits.get(i), *bit == 1, "Bit {} should be {}", i, *bit);
        i += 1;
    }
}

#[test]
fn constructor_wavelet_tree_correct() {
    let data = vec![(1, 2), (2, 3), (3, 4)];
    let mut g = Graph::new_tuple(&data);
    let bits = vec![0, 2, 0, 3, 0, 4, 0];
    assert_eq!(g.tree.to_vec(), Some(bits));
}

#[test]
fn constructor_maxnode_correct() {
    let data = vec![(1, 2), (2, 3), (3, 4)];
    let g = Graph::new_tuple(&data);
    assert_eq!(g.max_node, 4)
}

#[test]
fn constructor_bitvector_correct() {
    let data = vec![(1, 2), (2, 3), (3, 4)];
    let g = Graph::new_tuple(&data);
    let pattern = vec![1, 0, 1, 0, 1, 0, 1];
    assert_bit_pattern(&g.bits, &pattern);
}

#[test]
fn neighbour_single_successor() {
    let data = vec![(1, 2), (2, 3), (3, 4)];
    let g = Graph::new_tuple(&data);
    assert_eq!(g.neighbour(1, 1), Some(2), "1st neighbour of node 1");
    assert_eq!(g.neighbour(2, 1), Some(3), "1st neighbour of node 2");
    assert_eq!(g.neighbour(3, 1), Some(4), "1st neighbour of node 3");
}

#[test]
fn neighbour_cycle() {
    let data = vec![(1, 2), (2, 3), (3, 4), (4, 1), (1, 5), (1, 6)];
    let g = Graph::new_tuple(&data);
    assert_eq!(g.neighbour(1, 1), Some(2), "1st neighbour of node 1");
    assert_eq!(g.neighbour(1, 2), Some(5), "2nd neighbour of node 1");
    assert_eq!(g.neighbour(1, 3), Some(6), "3rd neighbour of node 1");
    assert_eq!(g.neighbour(2, 1), Some(3), "1st neighbour of node 2");
    assert_eq!(g.neighbour(3, 1), Some(4), "1st neighbour of node 3");
    assert_eq!(g.neighbour(4, 1), Some(1), "1st neighbour of node 4");
}

#[test]
fn rev_neighbour_cycle() {
    let data = vec![(1, 2), (2, 3), (3, 4), (4, 1), (1, 5), (1, 6)];
    let g = Graph::new_tuple(&data);
    assert_eq!(g.rev_neighbour(2, 1), Some(1), "1st reverse neighbour of node 2");
    assert_eq!(g.rev_neighbour(3, 1), Some(2), "1st reverse neighbour of node 3");
    assert_eq!(g.rev_neighbour(4, 1), Some(3), "1st reverse neighbour of node 4");
    assert_eq!(g.rev_neighbour(1, 1), Some(4), "1st reverse neighbour of node 1");
    assert_eq!(g.rev_neighbour(5, 1), Some(1), "1st reverse neighbour of node 5");
    assert_eq!(g.rev_neighbour(6, 1), Some(1), "1st reverse neighbour of node 6");
}

#[test]
fn graph_from_adjacency_map() {
    let mut adjacency: HashMap<u64, Vec<u64>> = HashMap::new();
    adjacency.insert(1, vec![3, 2]);
    adjacency.insert(3, vec![1]);
    let g = Graph::new(&adjacency, 3);
    assert_eq!(g.max_node, 3);
    assert_bit_pattern(&g.bits, &vec![1, 0, 0, 1, 1, 0]);
    assert_eq!(g.neighbour(1, 2), Some(2));
    assert_eq!(g.neighbour(3, 1), Some(1));
    assert_eq!(g.neighbour(4, 1), None);
    assert_eq!(g.rev_neighbour(1, 1), Some(3));
    assert_eq!(g.rev_neighbour(4, 1), None);
}
