use rust_zlib::huffman::{
    build_huffman_tree, build_tree, compute_code_table, compute_first_codes, count_bitlengths,
    get_bit, HuffmanNode, HuffmanRange, TreeNode,
};

fn ranges(pairs: &[(u32, u32)]) -> Vec<HuffmanRange> {
    pairs
        .iter()
        .map(|&(end, bit_length)| HuffmanRange { end, bit_length })
        .collect()
}

#[test]
fn test_count_bl() {
    let ranges = ranges(&[(1, 4), (4, 6), (6, 4), (14, 5), (18, 6), (21, 4), (26, 6)]);
    let expect = vec![0, 0, 0, 7, 8, 12];
    assert_eq!(count_bitlengths(&ranges, 6), expect);
}

#[test]
fn test_compute_codes() {
    let input = vec![0, 0, 0, 7, 8, 12];
    let expect = vec![0, 0, 0, 0, 14, 44];
    assert_eq!(compute_first_codes(&input, 6), expect);
}

fn nodes(pairs: &[(usize, usize)]) -> Vec<TreeNode> {
    pairs
        .iter()
        .enumerate()
        .map(|(label, &(len, bits))| TreeNode { len, bits, label })
        .collect()
}

#[test]
fn test_compute_code_table() {
    let mut next_code = vec![0, 0, 0, 0, 14, 44];
    let ranges = ranges(&[(1, 4), (4, 6), (6, 4), (14, 5), (18, 6), (21, 4), (26, 6)]);
    let expect = nodes(&[
        (4, 0),
        (4, 1),
        (6, 44),
        (6, 45),
        (6, 46),
        (4, 2),
        (4, 3),
        (5, 14),
        (5, 15),
        (5, 16),
        (5, 17),
        (5, 18),
        (5, 19),
        (5, 20),
        (5, 21),
        (6, 47),
        (6, 48),
        (6, 49),
        (6, 50),
        (4, 4),
        (4, 5),
        (4, 6),
        (6, 51),
        (6, 52),
        (6, 53),
        (6, 54),
        (6, 55),
    ]);
    assert_eq!(compute_code_table(&mut next_code, &ranges), expect);
}

#[test]
fn test_build_tree() {
    let input = vec![TreeNode {
        len: 4,
        bits: 5, // 0101
        label: 0,
    }];
    assert_eq!(
        build_tree(&input).unwrap(),
        HuffmanNode::Node(
            Some(Box::new(HuffmanNode::Node(
                None,
                Some(Box::new(HuffmanNode::Node(
                    Some(Box::new(HuffmanNode::Node(
                        None,
                        Some(Box::new(HuffmanNode::Leaf(0)))
                    ))),
                    None
                )))
            ))),
            None
        )
    );
}

#[test]
fn test_get_bit() {
    assert_eq!(get_bit(0x3, 0), 1);
    assert_eq!(get_bit(0x3, 1), 1);
    assert_eq!(get_bit(0x3, 2), 0);
    assert_eq!(get_bit(0x3, 3), 0);
}

#[test]
fn test_read_code_path() {
    let input = vec![TreeNode {
        len: 4,
        bits: 5,
        label: 9,
    }];
    let tree = build_tree(&input).unwrap();
    assert_eq!(tree.read_test(5, 4), Some(9));
    assert_eq!(tree.read_test(4, 4), None);
    assert_eq!(tree.read_test(5, 3), None);
}

#[test]
fn test_build_tree_rejects_duplicate_codes() {
    let input = vec![
        TreeNode {
            len: 3,
            bits: 2,
            label: 0,
        },
        TreeNode {
            len: 3,
            bits: 2,
            label: 1,
        },
    ];
    assert!(build_tree(&input).is_none());
}

#[test]
fn test_build_huffman_tree_edge_cases() {
    // An empty alphabet fails.
    assert!(build_huffman_tree(&Vec::new()).is_none());
    // A single symbol of length one is accepted.
    let tree = build_huffman_tree(&vec![HuffmanRange { end: 0, bit_length: 1 }]).unwrap();
    assert_eq!(tree.read_test(0, 1), Some(0));
}
