use bv::BitVec;
use bv::BitsMut;
use wavelet_tree::pointer_less::PointerlessWaveletTree;
use wavelet_tree::traits::WaveletTree;

fn bools_of(bits: &BitVec<u8>) -> Vec<bool> {
    let mut v = Vec::new();
    for i in 0..bits.len() {
        v.push(bits.get(i));
    }
    v
}

#[test]
fn pointer_less_constructor_alphabet() {
    let data = vec![1, 4, 1, 2, 1, 5, 0, 1, 0, 4, 1, 0, 1, 4, 1, 2, 1, 5, 3, 1u32];
    let alphabet = vec![0, 1, 2, 3, 4, 5];
    let tree = PointerlessWaveletTree::new_fill(&data);
    assert_eq!(alphabet, tree.alphabet);
}

#[test]
fn pointer_less_constructor_data() {
    let data = vec![1, 4, 1, 2, 1, 5, 0, 1, 0, 4, 1, 0, 1, 4, 1, 2, 1, 5, 3, 1u32];

    let pattern = vec![
        0, 1, 0, 0, 0, 1, 0, 0, 0, 1, 0, 0, 0, 1, 0, 0, 0, 1, 0, 0, 0, 0, 1, 0, 0, 0, 0, 0, 0, 0,
        0, 1, 0, 1, 0, 0, 1, 0, 0, 1, 1, 1, 1, 0, 1, 0, 1, 0, 1, 1, 1, 1, 0, 0, 1,
    ];

    let mut pattern_bool = Vec::new();
    for x in pattern.iter() {
        if *x == 0 {
            pattern_bool.push(false);
        } else {
            pattern_bool.push(true);
        }
    }

    let bitvec: BitVec<u8> = BitVec::from_bits(pattern_bool);
    let tree = PointerlessWaveletTree::new_fill(&data);

    assert_eq!(bools_of(&bitvec), tree.bits.to_bools());
}

#[test]
fn pointer_less_char_compatibility() {
    let mut data: Vec<u8> = Vec::new();
    data.push(b'a');
    data.push(b'b');
    data.push(b'c');
    data.push(b'd');
    data.push(b'e');
    let tree: PointerlessWaveletTree<u8> = PointerlessWaveletTree::new_fill(&data[..]);
    let content = tree.access(3).unwrap();

    assert_eq!(content, b'd');
}

#[test]
fn pointer_less_constructor_empty_data() {
    let data: Vec<u32> = Vec::new();
    let tree: PointerlessWaveletTree<u32> = PointerlessWaveletTree::new_fill(&data[..]);
    assert_eq!(tree.alphabet, Vec::new());
    assert_eq!(tree.data_size, 0);
    assert_eq!(tree.bits.to_bools(), bools_of(&BitVec::<u8>::new()));
}

#[test]
fn pointer_less_constructor_non_empty_data() {
    let mut data: Vec<u32> = Vec::new();
    data.push(4);
    data.push(2);
    data.push(4);
    data.push(2);
    data.push(1);
    let tree: PointerlessWaveletTree<u32> = PointerlessWaveletTree::new_fill(&data[..]);
    let mut test_bits: BitVec<u8> = BitVec::new_fill(false, 8);
    test_bits.set_bit(0 as u64, true);
    test_bits.set_bit(2 as u64, true);
    test_bits.set_bit(5 as u64, true);
    test_bits.set_bit(6 as u64, true);
    assert_eq!(tree.bits.to_bools(), bools_of(&test_bits));
}

#[test]
fn pointer_less_access_success() {
    let mut data: Vec<u32> = Vec::new();
    data.push(1);
    data.push(0);
    data.push(1);
    data.push(0);
    data.push(2);
    data.push(420);
    data.push(0);
    let tree: PointerlessWaveletTree<u32> = PointerlessWaveletTree::new_fill(&data[..]);
    assert_eq!(tree.access(5).unwrap(), 420);
}

#[test]
fn pointer_less_access_invalid_position() {
    let mut data: Vec<u32> = Vec::new();
    data.push(1);
    data.push(0);
    data.push(1);
    data.push(0);
    data.push(1);
    let tree: PointerlessWaveletTree<u32> = PointerlessWaveletTree::new_fill(&data[..]);
    let content = tree.access(5);
    assert_eq!(content, Option::None);
}

#[test]
fn pointer_less_rank_success() {
    let mut data: Vec<u32> = Vec::new();
    data.push(1);
    data.push(0);
    data.push(1);
    data.push(0);
    data.push(1);
    let tree: PointerlessWaveletTree<u32> = PointerlessWaveletTree::new_fill(&data[..]);
    let content: u32 = tree.rank(1, 4);
    assert_eq!(3, content);
}

#[test]
fn pointer_less_rank_invalid_element() {
    let mut data: Vec<u32> = Vec::new();
    data.push(1);
    data.push(0);
    data.push(1);
    data.push(0);
    data.push(1);
    let tree: PointerlessWaveletTree<u32> = PointerlessWaveletTree::new_fill(&data[..]);
    let content: u32 = tree.rank(42, 4);
    assert_eq!(0, content);
}

#[test]
fn pointer_less_rank_position_out_of_bound() {
    let mut data: Vec<u32> = Vec::new();
    data.push(1);
    data.push(0);
    data.push(1);
    data.push(0);
    data.push(1);
    let tree: PointerlessWaveletTree<u32> = PointerlessWaveletTree::new_fill(&data[..]);
    let content: u32 = tree.rank(1, 5);
    assert_eq!(3, content);
}

#[test]
fn pointer_less_select_success() {
    let mut data: Vec<u32> = Vec::new();
    data.push(1);
    data.push(0);
    data.push(1);
    data.push(0);
    data.push(2);
    data.push(420);
    data.push(0);
    let tree: PointerlessWaveletTree<u32> = PointerlessWaveletTree::new_fill(&data[..]);
    let content: u32 = tree.select(0, 2);
    assert_eq!(3, content);
}

#[test]
fn pointer_less_deserialize_success() {
    let mut data: Vec<u32> = Vec::new();
    data.push(4);
    data.push(2);
    data.push(4);
    data.push(2);
    data.push(1);
    let tree: PointerlessWaveletTree<u32> = PointerlessWaveletTree::new_fill(&data[..]);
    assert_eq!(tree.deserialize(), data);
}

#[test]
fn pointer_less_all_queries_five_symbols() {
    // five symbols: the left child takes four, the right child one
    let data: Vec<u32> = vec![9, 3, 7, 1, 5, 9, 1, 3, 3];
    let tree = PointerlessWaveletTree::new_fill(&data);
    for i in 0..data.len() {
        assert_eq!(tree.access(i as u32), Some(data[i]));
    }
    for &e in [1u32, 3, 5, 7, 9].iter() {
        let mut seen = 0;
        for i in 0..data.len() {
            if data[i] == e {
                seen += 1;
                assert_eq!(tree.select(e, seen), i as u32);
            }
            assert_eq!(tree.rank(e, i as u32), seen);
        }
    }
    assert_eq!(tree.deserialize(), data);
}

#[test]
fn pointer_less_single_symbol() {
    let data: Vec<u32> = vec![6, 6, 6, 6];
    let tree = PointerlessWaveletTree::new_fill(&data);
    assert_eq!(tree.bits.len(), 0);
    assert_eq!(tree.access(2), Some(6));
    assert_eq!(tree.rank(6, 1), 2);
    assert_eq!(tree.rank(6, 100), 4);
    assert_eq!(tree.deserialize(), data);
}
