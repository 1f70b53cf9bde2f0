use jpegdec::huffman_tree::{HeapItem, HuffmanClass, HuffmanNode, HuffmanTree, MinHeap};

fn leaf_paths(tree: &HuffmanTree, node: usize, path: Vec<u8>, out: &mut Vec<(Vec<u8>, u8)>) {
    match tree.node(node) {
        HuffmanNode::Leaf { symbol, .. } => out.push((path, symbol)),
        HuffmanNode::Internal { left, right, .. } => {
            let mut l = path.clone();
            l.push(0);
            leaf_paths(tree, left, l, out);
            let mut r = path;
            r.push(1);
            leaf_paths(tree, right, r, out);
        }
    }
}

fn decode_bits(tree: &HuffmanTree, bits: &[u8]) -> Option<u8> {
    let mut node = tree.root();
    for &bit in bits {
        node = match tree.node(node) {
            HuffmanNode::Internal { left, right, .. } => {
                if bit == 0 {
                    left
                } else {
                    right
                }
            }
            HuffmanNode::Leaf { .. } => return None,
        };
    }
    match tree.node(node) {
        HuffmanNode::Leaf { symbol, .. } => Some(symbol),
        HuffmanNode::Internal { .. } => None,
    }
}

#[test]
fn test_tree_construction() {
    let code_freqs = vec![(1, 5), (2, 9), (3, 12), (4, 13), (5, 16), (6, 45)];

    let tree = HuffmanTree::from(1, 1, code_freqs).unwrap();

    assert!(tree.num_nodes() > 0);
    match tree.node(tree.root()) {
        HuffmanNode::Internal { left, right, .. } => {
            assert!(left < tree.num_nodes());
            assert!(right < tree.num_nodes());
        }
        HuffmanNode::Leaf { .. } => panic!("the root of six symbols is a leaf"),
    }
}

#[test]
fn huffman_tree_test_min_heap() {
    let mut min_heap = MinHeap::new();

    for i in 36..0 {
        min_heap.push(HeapItem { freq: i, node: i });
    }

    let mut expected = 36;
    while !min_heap.is_empty() {
        let res = min_heap.pop();
        assert!(res.is_some());
        let HeapItem { freq, .. } = res.unwrap();

        assert_eq!(expected, freq);

        expected -= 1;
    }
}

#[test]
fn min_heap_pops_lightest_first() {
    let mut min_heap = MinHeap::new();
    for (freq, node) in [(5, 0), (2, 1), (9, 2), (2, 3), (7, 4)] {
        min_heap.push(HeapItem::from(freq, node));
    }
    let mut popped = vec![];
    while let Some(item) = min_heap.pop() {
        popped.push((item.freq, item.node));
    }
    assert_eq!(popped, vec![(2, 1), (2, 3), (5, 0), (7, 4), (9, 2)]);
}

#[test]
fn tree_has_n_leaves_and_n_minus_one_internal_nodes() {
    let code_freqs = vec![(1, 5), (2, 9), (3, 12), (4, 13), (5, 16), (6, 45)];
    let tree = HuffmanTree::from(0, 2, code_freqs).unwrap();
    let mut leaves = 0;
    let mut internal = 0;
    for i in 0..tree.num_nodes() {
        if tree.node(i).is_internal() {
            internal += 1;
        } else {
            leaves += 1;
        }
    }
    assert_eq!(leaves, 6);
    assert_eq!(internal, 5);
    assert_eq!(tree.class(), HuffmanClass::DC);
    assert_eq!(tree.destination_id(), 2);
}

#[test]
fn tree_merges_lightest_subtrees_first() {
    let tree = HuffmanTree::from(0, 0, vec![(1, 5), (2, 9), (3, 12), (4, 13), (5, 16), (6, 45)]).unwrap();
    // 5 + 9, then 12 + 13, then 14 + 16, then 25 + 30, then 45 + 55
    let weights: Vec<usize> = (6..tree.num_nodes())
        .map(|i| match tree.node(i) {
            HuffmanNode::Internal { weight, .. } => weight,
            HuffmanNode::Leaf { .. } => panic!("merged node is a leaf"),
        })
        .collect();
    assert_eq!(weights, vec![14, 25, 30, 55, 100]);
    assert_eq!(
        tree.node(6),
        HuffmanNode::Internal { left: 0, right: 1, weight: 14 }
    );
}

#[test]
fn every_leaf_path_decodes_to_its_symbol() {
    let tree = HuffmanTree::from(1, 0, vec![(0x01, 2), (0x02, 3), (0x11, 3), (0x21, 3), (0x31, 4), (0x41, 4)]).unwrap();
    let mut paths = vec![];
    leaf_paths(&tree, tree.root(), vec![], &mut paths);
    assert_eq!(paths.len(), 6);
    for (path, symbol) in paths {
        assert_eq!(decode_bits(&tree, &path), Some(symbol));
    }
}

#[test]
fn single_symbol_is_its_own_root() {
    let tree = HuffmanTree::from(0, 0, vec![(0x2A, 1)]).unwrap();
    assert_eq!(tree.num_nodes(), 1);
    assert_eq!(tree.node(tree.root()), HuffmanNode::Leaf { symbol: 0x2A, weight: 1 });
}

#[test]
fn empty_symbol_list_is_rejected() {
    assert!(HuffmanTree::from(0, 0, vec![]).is_err());
}

#[test]
fn class_bit_selects_table_class() {
    assert_eq!(HuffmanClass::from(0), HuffmanClass::DC);
    assert_eq!(HuffmanClass::from(1), HuffmanClass::AC);
}
