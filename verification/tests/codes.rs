use huffman::{construct_huffman_tree, get_coding_scheme, BitString, HuffmanError, Node};
use std::collections::HashMap;

fn table(entries: &[(char, usize)]) -> HashMap<u32, usize> {
    entries.iter().map(|&(c, n)| (c as u32, n)).collect()
}

fn text(code: &BitString) -> String {
    (0..code.bit_len()).map(|i| if code.get(i) { '1' } else { '0' }).collect()
}

fn codes_of(entries: &[(char, usize)]) -> HashMap<char, String> {
    let root = construct_huffman_tree(&table(entries)).unwrap();
    let scheme = get_coding_scheme(Some(&root)).unwrap();
    scheme.iter().map(|(&s, code)| (char::from_u32(s).unwrap(), text(code))).collect()
}

fn prefix_free(codes: &HashMap<char, String>) -> bool {
    codes.iter().all(|(a, ca)| codes.iter().all(|(b, cb)| a == b || !cb.starts_with(ca.as_str())))
}

fn depths(n: &Node<u32>, depth: usize, out: &mut HashMap<char, usize>) {
    match (&n.left, &n.right) {
        (Some(l), Some(r)) => {
            depths(l, depth + 1, out);
            depths(r, depth + 1, out);
        }
        _ => {
            out.insert(char::from_u32(n.data.unwrap()).unwrap(), depth);
        }
    }
}

fn encoded_length(entries: &[(char, usize)], codes: &HashMap<char, String>) -> usize {
    entries.iter().map(|(c, n)| n * codes[c].len()).sum()
}

#[test]
fn no_tree_is_invalid_input() {
    assert!(matches!(get_coding_scheme(None), Err(HuffmanError::InvalidInput)));
}

#[test]
fn single_symbol_gets_a_one_bit_code() {
    let codes = codes_of(&[('a', 5)]);
    assert_eq!(codes.len(), 1);
    assert_eq!(codes[&'a'], "0");
}

#[test]
fn single_symbol_code_is_packed_as_one_zero_bit() {
    let root = construct_huffman_tree(&table(&[('a', 5)])).unwrap();
    let scheme = get_coding_scheme(Some(&root)).unwrap();
    let code = &scheme[&('a' as u32)];
    assert_eq!(code.bit_len(), 1);
    assert_eq!(code.bytes(), &vec![0u8]);
}

#[test]
fn two_symbols_get_one_bit_each() {
    let codes = codes_of(&[('a', 1), ('b', 1)]);
    assert_eq!(codes.len(), 2);
    assert_eq!(codes[&'a'].len(), 1);
    assert_eq!(codes[&'b'].len(), 1);
    assert_ne!(codes[&'a'], codes[&'b']);
    assert_eq!(codes[&'a'], "0");
    assert_eq!(codes[&'b'], "1");
}

#[test]
fn four_symbols_get_two_bits_each() {
    let codes = codes_of(&[('a', 5), ('b', 9), ('c', 12), ('d', 13)]);
    assert_eq!(codes.len(), 4);
    for c in ['a', 'b', 'c', 'd'] {
        assert_eq!(codes[&c].len(), 2);
    }
    assert!(prefix_free(&codes));
    assert_eq!(codes[&'a'], "00");
    assert_eq!(codes[&'b'], "01");
    assert_eq!(codes[&'c'], "10");
    assert_eq!(codes[&'d'], "11");
}

#[test]
fn a_skewed_table_gets_codes_of_growing_length() {
    let codes = codes_of(&[('a', 1), ('b', 1), ('c', 2), ('d', 4), ('e', 8)]);
    assert_eq!(codes[&'e'], "0");
    assert_eq!(codes[&'d'], "10");
    assert_eq!(codes[&'c'], "110");
    assert_eq!(codes[&'a'], "1110");
    assert_eq!(codes[&'b'], "1111");
    assert!(prefix_free(&codes));
}

#[test]
fn codes_are_prefix_free() {
    let entries: Vec<(char, usize)> =
        ('a'..='z').enumerate().map(|(i, c)| (c, (i * i) % 17 + 1)).collect();
    let codes = codes_of(&entries);
    assert_eq!(codes.len(), 26);
    assert!(prefix_free(&codes));
    assert!(codes.values().all(|c| !c.is_empty()));
}

#[test]
fn code_length_is_leaf_depth() {
    let entries: Vec<(char, usize)> =
        ('a'..='p').enumerate().map(|(i, c)| (c, 1 << (i % 7))).collect();
    let root = construct_huffman_tree(&table(&entries)).unwrap();
    let scheme = get_coding_scheme(Some(&root)).unwrap();
    let mut expected = HashMap::new();
    depths(&root, 0, &mut expected);
    assert_eq!(scheme.len(), expected.len());
    for (c, d) in expected {
        assert_eq!(scheme[&(c as u32)].bit_len(), d);
    }
}

#[test]
fn a_code_leads_from_the_root_to_its_leaf() {
    let entries = [('a', 3), ('b', 1), ('c', 4), ('d', 1), ('e', 5), ('f', 9), ('g', 2)];
    let root = construct_huffman_tree(&table(&entries)).unwrap();
    let scheme = get_coding_scheme(Some(&root)).unwrap();
    for (&symbol, code) in scheme.iter() {
        let mut node = &root;
        for i in 0..code.bit_len() {
            node = if code.get(i) {
                node.right.as_ref().unwrap()
            } else {
                node.left.as_ref().unwrap()
            };
        }
        assert!(node.left.is_none() && node.right.is_none());
        assert_eq!(node.data, Some(symbol));
    }
}

#[test]
fn encoded_length_is_minimal_on_a_known_table() {
    let entries = [('a', 45), ('b', 13), ('c', 12), ('d', 16), ('e', 9), ('f', 5)];
    let codes = codes_of(&entries);
    assert_eq!(encoded_length(&entries, &codes), 224);
    let lengths: Vec<usize> =
        ['a', 'b', 'c', 'd', 'e', 'f'].iter().map(|c| codes[c].len()).collect();
    assert_eq!(lengths, vec![1, 3, 3, 3, 4, 4]);
}

#[test]
fn encoded_length_of_equal_weights_is_that_of_a_balanced_tree() {
    let entries: Vec<(char, usize)> = ('a'..='h').map(|c| (c, 1)).collect();
    let codes = codes_of(&entries);
    assert!(codes.values().all(|c| c.len() == 3));
    assert_eq!(encoded_length(&entries, &codes), 24);
}

#[test]
fn building_and_assigning_twice_gives_the_same_codes() {
    let entries: Vec<(char, usize)> =
        ('a'..='z').enumerate().map(|(i, c)| (c, 1 + i % 3)).collect();
    let first_tree = construct_huffman_tree(&table(&entries)).unwrap();
    let second_tree = construct_huffman_tree(&table(&entries)).unwrap();
    let first = get_coding_scheme(Some(&first_tree)).unwrap();
    let second = get_coding_scheme(Some(&second_tree)).unwrap();
    assert_eq!(first.len(), second.len());
    for (symbol, code) in first.iter() {
        let other = &second[symbol];
        assert_eq!(code.bit_len(), other.bit_len());
        assert_eq!(code.bytes(), other.bytes());
    }
}

#[test]
fn a_tree_made_by_hand_is_walked_left_first() {
    let deep = Node::branch(Node::leaf('x' as u32, 1), Node::leaf('y' as u32, 1));
    let mid = Node::branch(deep, Node::leaf('z' as u32, 2));
    let root = Node::branch(Node::leaf('w' as u32, 4), mid);
    let scheme = get_coding_scheme(Some(&root)).unwrap();
    assert_eq!(scheme.len(), 4);
    assert_eq!(text(&scheme[&('w' as u32)]), "0");
    assert_eq!(text(&scheme[&('x' as u32)]), "100");
    assert_eq!(text(&scheme[&('y' as u32)]), "101");
    assert_eq!(text(&scheme[&('z' as u32)]), "11");
}

#[test]
fn a_code_longer_than_a_byte_is_packed_across_bytes() {
    let mut node = Node::leaf(0u32, 1);
    for s in 1..=10u32 {
        node = Node::branch(Node::leaf(s, 1), node);
    }
    let scheme = get_coding_scheme(Some(&node)).unwrap();
    assert_eq!(scheme.len(), 11);
    assert_eq!(text(&scheme[&10]), "0");
    assert_eq!(text(&scheme[&1]), "1111111110");
    assert_eq!(text(&scheme[&0]), "1111111111");
    assert_eq!(scheme[&0].bytes(), &vec![0xffu8, 0b1100_0000u8]);
    assert_eq!(scheme[&1].bytes(), &vec![0xffu8, 0b1000_0000u8]);
}

#[test]
fn a_symbol_at_two_leaves_gets_the_code_of_the_rightmost() {
    let left = Node::branch(Node::leaf(7u32, 1), Node::leaf(8u32, 1));
    let root = Node::branch(left, Node::leaf(7u32, 2));
    let scheme = get_coding_scheme(Some(&root)).unwrap();
    assert_eq!(scheme.len(), 2);
    assert_eq!(text(&scheme[&7]), "1");
    assert_eq!(text(&scheme[&8]), "01");
}

/// The least cost of merging `weights` down to one in any order: the least
/// cost of any code tree with these weights at its leaves.
fn least_merge_cost(weights: &[usize]) -> usize {
    if weights.len() < 2 {
        return 0;
    }
    let mut best = usize::MAX;
    for i in 0..weights.len() {
        for j in (i + 1)..weights.len() {
            let mut rest: Vec<usize> = Vec::new();
            for (k, &w) in weights.iter().enumerate() {
                if k != i && k != j {
                    rest.push(w);
                }
            }
            let sum = weights[i] + weights[j];
            rest.push(sum);
            best = best.min(sum + least_merge_cost(&rest));
        }
    }
    best
}

#[test]
fn encoded_length_is_the_least_of_all_code_trees() {
    let tables: [&[usize]; 7] = [
        &[1, 1],
        &[1, 2, 3],
        &[5, 9, 12, 13],
        &[1, 1, 1, 1, 1],
        &[2, 2, 3, 3, 5, 7],
        &[1, 1, 2, 3, 5, 8],
        &[10, 1, 1, 1, 1, 1],
    ];
    for weights in tables {
        let entries: Vec<(char, usize)> =
            ('a'..='z').zip(weights.iter()).map(|(c, &w)| (c, w)).collect();
        let codes = codes_of(&entries);
        assert_eq!(encoded_length(&entries, &codes), least_merge_cost(weights));
    }
}
