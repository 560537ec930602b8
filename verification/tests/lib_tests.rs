use wavelet_tree::pointer::PointerWaveletTree;
use wavelet_tree::traits::WaveletTree;

#[test]
fn access() {
    let data: Vec<u32> = vec![5, 3, 5, 1, 3, 9, 5];
    let tree: PointerWaveletTree<u32> = PointerWaveletTree::new_fill(&data);
    assert_eq!(tree.access(5), Some(9));
    assert_eq!(tree.access(7), None);
}

#[test]
fn rank() {
    let data: Vec<u32> = vec![5, 3, 5, 1, 3, 9, 5];
    let tree: PointerWaveletTree<u32> = PointerWaveletTree::new_fill(&data);
    assert_eq!(tree.rank(5, 0), 1);
    assert_eq!(tree.rank(5, 6), 3);
    assert_eq!(tree.rank(3, 3), 1);
    assert_eq!(tree.rank(4, 6), 0);
}

#[test]
fn select() {
    let data: Vec<u32> = vec![5, 3, 5, 1, 3, 9, 5];
    let tree: PointerWaveletTree<u32> = PointerWaveletTree::new_fill(&data);
    assert_eq!(tree.select(5, 1), 0);
    assert_eq!(tree.select(5, 3), 6);
    assert_eq!(tree.select(9, 1), 5);
}
