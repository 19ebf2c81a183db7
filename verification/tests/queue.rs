use huffman::node_queue::NodeQueue;
use huffman::Node;
use std::cmp::Ordering;

fn symbols_in_leaving_order(mut q: NodeQueue<u32>) -> Vec<u32> {
    let mut out = Vec::new();
    while q.len() > 0 {
        out.push(q.pop().data.unwrap());
    }
    out
}

#[test]
fn a_new_queue_is_empty() {
    let q: NodeQueue<u32> = NodeQueue::new();
    assert_eq!(q.len(), 0);
}

#[test]
fn the_lightest_node_leaves_first() {
    let mut q = NodeQueue::new();
    q.push(Node::leaf(1u32, 30));
    q.push(Node::leaf(2u32, 10));
    q.push(Node::leaf(3u32, 20));
    assert_eq!(q.len(), 3);
    assert_eq!(symbols_in_leaving_order(q), vec![2, 3, 1]);
}

#[test]
fn nodes_of_one_weight_leave_in_the_order_they_entered() {
    let mut q = NodeQueue::new();
    for s in [5u32, 1, 9, 3, 7] {
        q.push(Node::leaf(s, 4));
    }
    assert_eq!(symbols_in_leaving_order(q), vec![5, 1, 9, 3, 7]);
}

#[test]
fn a_node_that_enters_late_waits_behind_its_equals_only() {
    let mut q = NodeQueue::new();
    q.push(Node::leaf(1u32, 2));
    q.push(Node::leaf(2u32, 5));
    q.push(Node::leaf(3u32, 2));
    assert_eq!(q.pop().data, Some(1));
    q.push(Node::leaf(4u32, 2));
    q.push(Node::leaf(5u32, 1));
    assert_eq!(symbols_in_leaving_order(q), vec![5, 3, 4, 2]);
}

#[test]
fn popping_takes_one_node_at_a_time() {
    let mut q = NodeQueue::new();
    q.push(Node::leaf(1u32, 1));
    q.push(Node::leaf(2u32, 2));
    let first = q.pop();
    assert_eq!(first.weight, 1);
    assert_eq!(q.len(), 1);
    let second = q.pop();
    assert_eq!(second.weight, 2);
    assert_eq!(q.len(), 0);
}

#[test]
fn nodes_are_ordered_by_weight_alone() {
    let light = Node::leaf(9u32, 1);
    let heavy = Node::leaf(1u32, 2);
    let other = Node::branch(Node::leaf(3u32, 1), Node::leaf(4u32, 1));
    assert!(light < heavy);
    assert!(heavy > light);
    assert!(light <= heavy);
    assert!(heavy == other);
    assert!(light != heavy);
    assert_eq!(light.partial_cmp(&heavy), Some(Ordering::Less));
    assert_eq!(heavy.partial_cmp(&light), Some(Ordering::Greater));
    assert_eq!(heavy.partial_cmp(&other), Some(Ordering::Equal));
}
