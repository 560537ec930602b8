use bv::BitVec;
use bv::BitsMut;
use std::fmt::Debug;
use wavelet_tree::bits::BitVector;
use wavelet_tree::pointer::PointerWaveletTree;
use wavelet_tree::pointer::PointerWaveletTreeNode;
use wavelet_tree::traits::Node;
use wavelet_tree::traits::WaveletTree;

fn bools_of(bits: &BitVec<u8>) -> Vec<bool> {
    let mut v = Vec::new();
    for i in 0..bits.len() {
        v.push(bits.get(i));
    }
    v
}

fn tree_traversal<'a, T: PartialEq + Debug>(
    tree: &'a PointerWaveletTree<T>,
    path: &str,
) -> &'a PointerWaveletTreeNode<T> {
    assert!(path.is_ascii());
    assert!(tree.root.is_some());
    let mut rv: &PointerWaveletTreeNode<T> = tree.root.as_ref().unwrap();
    for c in path.chars() {
        if c == 'l' {
            assert!(rv.left_tree.is_some());
            rv = rv.left_tree.as_ref().unwrap();
        } else if c == 'r' {
            assert!(rv.right_tree.is_some());
            rv = rv.right_tree.as_ref().unwrap();
        } else if c == '.' {
            return rv;
        } else {
            panic!();
        }
    }
    rv
}

fn assert_leaf<T: PartialEq + Debug>(node: &PointerWaveletTreeNode<T>, elem: &T) {
    assert_node_elem(node, elem, elem);
    assert!(node.left_tree.is_none());
    assert!(node.right_tree.is_none());
    assert_eq!(node.bits.len(), 0);
}

fn assert_node<T: PartialEq + Debug>(
    node: &PointerWaveletTreeNode<T>,
    pattern: &Vec<u32>,
    min: &T,
    max: &T,
) {
    assert_node_elem(node, min, max);
    assert_bit_pattern(&node.bits, pattern);
}

fn assert_node_elem<T: PartialEq + Debug>(node: &PointerWaveletTreeNode<T>, min: &T, max: &T) {
    assert_eq!(node.min_element, *min);
    assert_eq!(node.max_element, *max);
}

fn assert_bit_pattern(bits: &BitVector, pattern: &Vec<u32>) {
    assert_eq!(bits.len() as usize, pattern.len());
    let mut i = 0;
    for bit in pattern.iter() {
        assert_eq!(bits.get(i), *bit == 1, "Bit {} should be {}", i, *bit);
        i += 1;
    }
}

#[test]
fn pointer_constructor_alphabet() {
    let data = vec![1, 4, 1, 2, 1, 5, 0, 1, 0, 4, 1, 0, 1, 4, 1, 2, 1, 5, 3, 1u32];
    let tree = PointerWaveletTree::new_fill(&data);
    assert!(tree.alphabet.len() == 6);
}

#[test]
fn to_vec() {
    let data = vec![1, 4, 1, 2, 1, 5, 0, 1, 0, 4, 1, 0, 1, 4, 1, 2, 1, 5, 3, 1u32];
    let mut tree = PointerWaveletTree::new_fill(&data);
    assert_eq!(tree.to_vec(), Some(data));
}

#[test]
fn pointer_constructor_data() {
    let data = vec![1, 4, 1, 2, 1, 5, 0, 1, 0, 4, 1, 0, 1, 4, 1, 2, 1, 5, 3, 1u32];
    let tree = PointerWaveletTree::new_fill(&data);
    assert!(tree.root.is_some());

    let pattern = vec![0, 1, 0, 0, 0, 1, 0, 0, 0, 1, 0, 0, 0, 1, 0, 0, 0, 1, 1, 0];
    assert_node(tree_traversal(&tree, "."), &pattern, &0, &5);

    let pattern = vec![0, 0, 1, 0, 0, 0, 0, 0, 0, 0, 0, 1, 0, 0];
    assert_node(tree_traversal(&tree, "l"), &pattern, &0, &2);

    let pattern = vec![1, 1, 1, 0, 1, 0, 1, 0, 1, 1, 1, 1];
    assert_node(tree_traversal(&tree, "ll"), &pattern, &0, &1);

    assert_leaf(tree_traversal(&tree, "lll"), &0);
    assert_leaf(tree_traversal(&tree, "llr"), &1);
    assert_leaf(tree_traversal(&tree, "lr"), &2);

    let pattern = vec![0, 1, 0, 0, 1, 0];
    assert_node(tree_traversal(&tree, "r"), &pattern, &3, &5);

    let pattern = vec![1, 1, 1, 0];
    assert_node(tree_traversal(&tree, "rl"), &pattern, &3, &4);

    assert_leaf(tree_traversal(&tree, "rll"), &3);
    assert_leaf(tree_traversal(&tree, "rlr"), &4);
    assert_leaf(tree_traversal(&tree, "rr"), &5);
}

#[test]
fn pointer_char_compatibility() {
    let mut data: Vec<u8> = Vec::new();
    data.push(b'a');
    data.push(b'b');
    data.push(b'b');
    data.push(b'm');
    data.push(b'c');
    data.push(b'x');
    data.push(b'd');
    data.push(b'e');
    data.push(b'z');
    data.push(b'x');
    let tree: PointerWaveletTree<u8> = PointerWaveletTree::new_fill(&data[..]);
    assert_eq!(tree.access(3), Some(b'm'), "Access at index 3 should return m");
    assert_eq!(tree.rank(b'b', 3), 2, "Rank b with index 3 should return 2");
    assert_eq!(tree.rank(b'x', 7), 1, "Rank x with index 7 should return 1");
    assert_eq!(tree.select(b'e', 1), 7, "Select e with count 1 should return 7");
}

#[test]
fn pointer_constructor_empty_data() {
    let data: Vec<u32> = Vec::new();
    let tree: PointerWaveletTree<u32> = PointerWaveletTree::new_fill(&data[..]);
    assert!(tree.root.is_none());
}

#[test]
fn pointer_constructor_non_empty_data() {
    let mut data: Vec<u32> = Vec::new();
    data.push(4);
    data.push(2);
    data.push(4);
    data.push(2);
    data.push(4);
    let tree: PointerWaveletTree<u32> = PointerWaveletTree::new_fill(&data[..]);
    let mut test_bits: BitVec<u8> = BitVec::new_fill(false, 5);
    test_bits.set_bit(0 as u64, true);
    test_bits.set_bit(2 as u64, true);
    test_bits.set_bit(4 as u64, true);
    assert_eq!(tree.root.unwrap().bits.to_bools(), bools_of(&test_bits));
}

#[test]
fn pointer_access_success() {
    let mut data: Vec<u32> = Vec::new();
    data.push(1);
    data.push(0);
    data.push(1);
    data.push(0);
    data.push(1);
    data.push(10);
    let tree: PointerWaveletTree<u32> = PointerWaveletTree::new_fill(&data[..]);
    assert_eq!(tree.access(0), Some(1));
    assert_eq!(tree.access(1), Some(0));
    assert_eq!(tree.access(2), Some(1));
    assert_eq!(tree.access(3), Some(0));
    assert_eq!(tree.access(4), Some(1));
    assert_eq!(tree.access(5), Some(10));
}

#[test]
fn pointer_access_invalid_position() {
    let mut data: Vec<u32> = Vec::new();
    data.push(1);
    data.push(0);
    data.push(1);
    data.push(0);
    data.push(1);
    let tree: PointerWaveletTree<u32> = PointerWaveletTree::new_fill(&data[..]);
    assert_eq!(tree.access(5), Option::None);
}

#[test]
fn pointer_rank_success() {
    let mut data: Vec<u32> = Vec::new();
    data.push(1);
    data.push(0);
    data.push(1);
    data.push(0);
    data.push(1);
    let tree: PointerWaveletTree<u32> = PointerWaveletTree::new_fill(&data[..]);
    assert_eq!(tree.rank(1, 2), 2);
    assert_eq!(tree.rank(1, 4), 3);
    assert_eq!(tree.rank(0, 2), 1);
    assert_eq!(tree.rank(0, 4), 2);
}

#[test]
fn pointer_rank_invalid_element() {
    let mut data: Vec<u32> = Vec::new();
    data.push(1);
    data.push(0);
    data.push(1);
    data.push(0);
    data.push(1);
    let tree: PointerWaveletTree<u32> = PointerWaveletTree::new_fill(&data[..]);
    assert_eq!(tree.rank(42, 4), 0);
}

#[test]
fn rank_success_complex() {
    let data = vec![1, 4, 1, 2, 1, 7, 0, 1, 0, 4, 1, 0, 1, 4, 1, 2, 1, 7, 3, 1u32];
    let tree: PointerWaveletTree<u32> = PointerWaveletTree::new_fill(&data[..]);
    let ones = [1, 1, 2, 2, 3, 3, 3, 4, 4, 4, 5, 5, 6, 6, 7, 7, 8, 8, 8, 9];
    for (i, expected) in ones.iter().enumerate() {
        assert_eq!(tree.rank(1, i as u32), *expected);
    }
    let sevens = [0, 0, 0, 0, 0, 1, 1, 1, 1, 1, 1, 1, 1, 1, 1, 1, 1, 2, 2, 2];
    for (i, expected) in sevens.iter().enumerate() {
        assert_eq!(tree.rank(7, i as u32), *expected);
    }
}

#[test]
fn pointer_select_success() {
    let mut data: Vec<u32> = Vec::new();
    data.push(1);
    data.push(0);
    data.push(1);
    data.push(0);
    data.push(1);
    let tree: PointerWaveletTree<u32> = PointerWaveletTree::new_fill(&data[..]);
    assert_eq!(tree.select(0, 1), 1);
    assert_eq!(tree.select(0, 2), 3);
    assert_eq!(tree.select(1, 1), 0);
    assert_eq!(tree.select(1, 2), 2);
    assert_eq!(tree.select(1, 3), 4);
}

#[test]
fn select_success_complex() {
    let data = vec![1, 4, 1, 2, 1, 7, 0, 1, 0, 4, 1, 0, 1, 4, 1, 2, 1, 7, 3, 1u32];
    let tree: PointerWaveletTree<u32> = PointerWaveletTree::new_fill(&data[..]);
    assert_eq!(tree.select(0, 1), 6);
    assert_eq!(tree.select(0, 2), 8);
    assert_eq!(tree.select(0, 3), 11);

    assert_eq!(tree.select(1, 1), 0);
    assert_eq!(tree.select(1, 2), 2);
    assert_eq!(tree.select(1, 3), 4);
    assert_eq!(tree.select(1, 4), 7);
    assert_eq!(tree.select(1, 5), 10);
    assert_eq!(tree.select(1, 6), 12);
    assert_eq!(tree.select(1, 7), 14);
    assert_eq!(tree.select(1, 8), 16);
    assert_eq!(tree.select(1, 9), 19);

    assert_eq!(tree.select(7, 1), 5);
    assert_eq!(tree.select(7, 2), 17);
}

#[test]
fn pointer_deserialize_success() {
    let mut data: Vec<u32> = Vec::new();
    data.push(4);
    data.push(2);
    data.push(4);
    data.push(2);
    data.push(1);
    let tree: PointerWaveletTree<u32> = PointerWaveletTree::new_fill(&data[..]);
    assert_eq!(tree.deserialize(), data);
}

#[test]
fn pointer_single_symbol_tree() {
    let data: Vec<u32> = vec![7, 7, 7];
    let mut tree = PointerWaveletTree::new_fill(&data);
    assert_eq!(tree.alphabet, vec![7]);
    assert!(tree.root.as_ref().unwrap().is_leaf());
    assert_eq!(tree.access(0), None);
    assert_eq!(tree.rank(7, 10), 11);
    assert_eq!(tree.select(7, 4), 3);
    assert_eq!(tree.deserialize(), Vec::<u32>::new());
    assert_eq!(tree.to_vec(), Some(vec![7]));
}

#[test]
fn pointer_node_queries() {
    let data: Vec<u32> = vec![3, 1, 2, 3, 1, 3];
    let tree = PointerWaveletTree::new_fill(&data);
    let root = tree.root.as_ref().unwrap();
    assert!(!root.is_leaf());
    assert_eq!(Node::access(root, 3), 3);
    assert_eq!(Node::rank(root, 3, 4), 2);
    assert_eq!(Node::select(root, 1, 2), 4);
    let leaf = tree_traversal(&tree, "r");
    assert!(leaf.is_leaf());
    assert_eq!(Node::access(leaf, 100), 3);
}

#[test]
fn pointer_midpoint_of_large_values() {
    let data: Vec<u64> = vec![u64::MAX, 0, u64::MAX - 1, 0];
    let tree = PointerWaveletTree::new_fill(&data);
    assert_eq!(tree.deserialize(), data);
    assert_eq!(tree.rank(u64::MAX, 3), 1);
    assert_eq!(tree.select(0, 2), 3);
}

#[test]
#[should_panic]
fn pointer_rank_position_out_of_bound() {
    let mut data: Vec<u32> = Vec::new();
    data.push(1);
    data.push(0);
    data.push(1);
    data.push(0);
    data.push(1);
    let tree: PointerWaveletTree<u32> = PointerWaveletTree::new_fill(&data[..]);
    let content: u32 = tree.rank(1, 5);
    assert_eq!(content, 3);
}

#[test]
#[should_panic]
fn pointer_select_occurence_out_of_bound() {
    let mut data: Vec<u32> = Vec::new();
    data.push(1);
    data.push(0);
    data.push(1);
    data.push(0);
    data.push(1);
    let tree: PointerWaveletTree<u32> = PointerWaveletTree::new_fill(&data[..]);
    let _content: u32 = tree.select(1, 4);
}
