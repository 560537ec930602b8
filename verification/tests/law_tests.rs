use wavelet_tree::graph::Graph;
use wavelet_tree::pointer::PointerWaveletTree;
use wavelet_tree::pointer_less::PointerlessWaveletTree;
use wavelet_tree::traits::WaveletTree;

fn sample() -> Vec<u32> {
    vec![8, 3, 3, 12, 0, 8, 5, 3, 12, 12, 1, 0, 8, 3, 6, 6, 2]
}

fn count_upto(data: &[u32], e: u32, i: usize) -> u32 {
    data[..=i].iter().filter(|&&x| x == e).count() as u32
}

#[test]
fn law_pointer_reads_back_and_counts() {
    let data = sample();
    let tree = PointerWaveletTree::new_fill(&data);
    for i in 0..data.len() {
        assert_eq!(tree.access(i as u32), Some(data[i]));
        for e in 0..14u32 {
            assert_eq!(tree.rank(e, i as u32), count_upto(&data, e, i));
        }
    }
    assert_eq!(tree.access(data.len() as u32), None);
}

#[test]
fn law_pointer_rank_after_select() {
    let data = sample();
    let tree = PointerWaveletTree::new_fill(&data);
    for &e in tree.alphabet.clone().iter() {
        let total = data.iter().filter(|&&x| x == e).count() as u32;
        for k in 1..=total {
            let p = tree.select(e, k);
            assert_eq!(tree.access(p), Some(e));
            assert_eq!(tree.rank(e, p), k);
        }
    }
}

#[test]
fn law_pointer_less_rank_after_select() {
    let data = sample();
    let tree = PointerlessWaveletTree::new_fill(&data);
    for &e in tree.alphabet.clone().iter() {
        let total = data.iter().filter(|&&x| x == e).count() as u32;
        for k in 1..=total {
            let p = tree.select(e, k);
            assert_eq!(tree.access(p), Some(e));
            assert_eq!(tree.rank(e, p), k);
        }
    }
    assert_eq!(tree.rank(12, 1000), 3);
}

#[test]
fn law_layouts_agree_on_queries() {
    let data = sample();
    let pointer = PointerWaveletTree::new_fill(&data);
    let packed = PointerlessWaveletTree::new_fill(&data);
    assert_eq!(pointer.alphabet, packed.alphabet);
    assert_eq!(pointer.deserialize(), packed.deserialize());
    for i in 0..=data.len() {
        assert_eq!(pointer.access(i as u32), packed.access(i as u32));
    }
    for i in 0..data.len() {
        for e in 0..14u32 {
            assert_eq!(pointer.rank(e, i as u32), packed.rank(e, i as u32));
        }
    }
    for &e in pointer.alphabet.clone().iter() {
        let total = data.iter().filter(|&&x| x == e).count() as u32;
        for k in 1..=total {
            assert_eq!(pointer.select(e, k), packed.select(e, k));
        }
    }
}

#[test]
fn law_every_edge_is_a_neighbour() {
    let edges = vec![(2, 5), (1, 3), (2, 1), (5, 4), (1, 2), (3, 3)];
    let g = Graph::new_tuple(&edges);
    for &(a, b) in edges.iter() {
        let mut found = false;
        for i in 1..=edges.len() as u64 {
            if g.neighbour(a, i) == Some(b) {
                found = true;
            }
        }
        assert!(found);
    }
    // the reverse neighbours of node 3 are 1 and 3
    assert_eq!(g.rev_neighbour(3, 1), Some(1));
    assert_eq!(g.rev_neighbour(3, 2), Some(3));
}
