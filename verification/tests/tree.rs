use huffman::{construct_huffman_tree, frequencies_fit, HuffmanError, Node};
use std::collections::HashMap;

fn table(entries: &[(char, usize)]) -> HashMap<u32, usize> {
    entries.iter().map(|&(c, n)| (c as u32, n)).collect()
}

fn is_leaf(n: &Node<u32>, symbol: char, weight: usize) -> bool {
    n.left.is_none() && n.right.is_none() && n.data == Some(symbol as u32) && n.weight == weight
}

fn shape(n: &Node<u32>) -> String {
    match (&n.left, &n.right) {
        (Some(l), Some(r)) => format!("({} {})", shape(l), shape(r)),
        _ => format!("{}", char::from_u32(n.data.unwrap()).unwrap()),
    }
}

fn well_formed(n: &Node<u32>) -> bool {
    match (&n.left, &n.right) {
        (None, None) => n.data.is_some(),
        (Some(l), Some(r)) => {
            n.data.is_none() && well_formed(l) && well_formed(r) && n.weight == l.weight + r.weight
        }
        _ => false,
    }
}

#[test]
fn an_empty_table_is_invalid_input() {
    let f: HashMap<u32, usize> = HashMap::new();
    assert!(matches!(construct_huffman_tree(&f), Err(HuffmanError::InvalidInput)));
}

#[test]
fn one_symbol_gives_a_single_leaf() {
    let root = construct_huffman_tree(&table(&[('a', 5)])).unwrap();
    assert!(is_leaf(&root, 'a', 5));
}

#[test]
fn two_symbols_give_one_merge() {
    let root = construct_huffman_tree(&table(&[('a', 1), ('b', 1)])).unwrap();
    assert_eq!(root.weight, 2);
    assert!(root.data.is_none());
    assert!(is_leaf(root.left.as_ref().unwrap(), 'a', 1));
    assert!(is_leaf(root.right.as_ref().unwrap(), 'b', 1));
}

#[test]
fn the_first_popped_node_is_the_left_child() {
    let root = construct_huffman_tree(&table(&[('x', 7), ('y', 3)])).unwrap();
    assert!(is_leaf(root.left.as_ref().unwrap(), 'y', 3));
    assert!(is_leaf(root.right.as_ref().unwrap(), 'x', 7));
}

#[test]
fn four_symbols_merge_in_the_documented_order() {
    let root = construct_huffman_tree(&table(&[('a', 5), ('b', 9), ('c', 12), ('d', 13)])).unwrap();
    assert_eq!(root.weight, 39);
    let left = root.left.as_ref().unwrap();
    let right = root.right.as_ref().unwrap();
    assert_eq!(left.weight, 14);
    assert_eq!(right.weight, 25);
    assert_eq!(shape(&root), "((a b) (c d))");
    assert!(well_formed(&root));
}

#[test]
fn equal_weights_leave_in_the_order_they_entered() {
    let root = construct_huffman_tree(&table(&[('a', 1), ('b', 1), ('c', 1)])).unwrap();
    assert_eq!(shape(&root), "(c (a b))");
    assert_eq!(root.weight, 3);
}

#[test]
fn a_leaf_leaves_before_an_internal_node_of_its_weight() {
    let root = construct_huffman_tree(&table(&[('a', 1), ('b', 1), ('c', 2), ('d', 2)])).unwrap();
    // a+b = 2 enters behind the leaves c and d of weight 2: c and d merge next.
    assert_eq!(shape(&root), "((a b) (c d))");
}

#[test]
fn a_skewed_table_gives_a_chain() {
    let f = table(&[('a', 1), ('b', 1), ('c', 2), ('d', 4), ('e', 8)]);
    let root = construct_huffman_tree(&f).unwrap();
    assert_eq!(shape(&root), "(e (d (c (a b))))");
    assert_eq!(root.weight, 16);
    assert!(well_formed(&root));
}

#[test]
fn zero_frequencies_are_taken_as_they_are() {
    let root = construct_huffman_tree(&table(&[('a', 0), ('b', 0), ('c', 3)])).unwrap();
    assert_eq!(root.weight, 3);
    assert_eq!(shape(&root), "((a b) c)");
}

#[test]
fn the_tree_does_not_depend_on_how_the_table_was_filled() {
    let mut forward: HashMap<u32, usize> = HashMap::new();
    let mut backward: HashMap<u32, usize> = HashMap::with_capacity(1000);
    let symbols: Vec<u32> = (0..40).map(|i| 'A' as u32 + i).collect();
    for &s in symbols.iter() {
        forward.insert(s, 1 + (s as usize % 4));
    }
    for &s in symbols.iter().rev() {
        backward.insert(s, 1 + (s as usize % 4));
    }
    let a = construct_huffman_tree(&forward).unwrap();
    let b = construct_huffman_tree(&backward).unwrap();
    assert_eq!(shape(&a), shape(&b));
    assert!(well_formed(&a));
    assert_eq!(a.weight, forward.values().sum::<usize>());
}

#[test]
fn the_largest_total_that_fits_is_accepted() {
    let root = construct_huffman_tree(&table(&[('a', usize::MAX - 1), ('b', 1)])).unwrap();
    assert_eq!(root.weight, usize::MAX);
}

#[test]
fn leaf_and_branch_make_well_formed_nodes() {
    let l = Node::leaf('l' as u32, 2);
    let r = Node::leaf('r' as u32, 3);
    assert!(is_leaf(&l, 'l', 2));
    let n = Node::branch(l, r);
    assert_eq!(n.weight, 5);
    assert!(n.data.is_none());
    assert!(is_leaf(n.left.as_ref().unwrap(), 'l', 2));
    assert!(is_leaf(n.right.as_ref().unwrap(), 'r', 3));
    assert!(well_formed(&n));
}

#[test]
fn frequencies_that_fit_are_told_from_those_that_do_not() {
    assert!(frequencies_fit(&table(&[])));
    assert!(frequencies_fit(&table(&[('a', 5), ('b', 9)])));
    assert!(frequencies_fit(&table(&[('a', usize::MAX - 1), ('b', 1)])));
    assert!(!frequencies_fit(&table(&[('a', usize::MAX), ('b', 1)])));
    assert!(!frequencies_fit(&table(&[('a', usize::MAX / 2 + 1), ('b', usize::MAX / 2 + 1)])));
}

#[test]
fn a_large_table_is_built_quickly() {
    let mut f: HashMap<u32, usize> = HashMap::new();
    for s in 0..100_000u32 {
        f.insert(s, 1 + (s as usize * 7919) % 1000);
    }
    let root = construct_huffman_tree(&f).unwrap();
    assert_eq!(root.weight, f.values().sum::<usize>());
    assert!(well_formed(&root));
}
