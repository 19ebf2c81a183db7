//! The priority queue of the tree builder: a sequence of nodes in which the
//! lightest node is last, and of nodes of one weight the one that entered
//! first is nearest to the end.

use crate::node::{branch_node, Node};
use vstd::multiset::Multiset;
use vstd::prelude::*;

verus! {

/// Where a node of weight `w` enters the queue `q`: in front of every node at
/// the end of `q` that is no heavier than `w`. Such a node leaves the queue
/// after all of them.
pub open spec fn insert_index<T>(q: Seq<Node<T>>, w: usize) -> int
    decreases q.len(),
{
    if q.len() == 0 {
        0
    } else if q.last().weight <= w {
        insert_index(q.drop_last(), w)
    } else {
        q.len() as int
    }
}

/// The queue `q` after `node` has entered it.
pub open spec fn enqueue<T>(q: Seq<Node<T>>, node: Node<T>) -> Seq<Node<T>> {
    q.insert(insert_index(q, node.weight), node)
}

/// One round of merging on a queue of two nodes or more: the last node, which
/// is the lightest, becomes the left child and the node before it the right
/// child of a new node, which enters what is left of the queue.
pub open spec fn merge_step<T>(q: Seq<Node<T>>) -> Seq<Node<T>> {
    enqueue(q.take(q.len() - 2), branch_node(q[q.len() - 1], q[q.len() - 2]))
}

/// The queue `q` after as many rounds of merging as it takes to leave fewer
/// than two nodes.
pub open spec fn merge_all<T>(q: Seq<Node<T>>) -> Seq<Node<T>>
    decreases q.len(),
    via merge_all_terminates::<T>
{
    if q.len() < 2 {
        q
    } else {
        merge_all(merge_step(q))
    }
}

/// Merging ends: each round leaves a shorter queue.
#[via_fn]
proof fn merge_all_terminates<T>(q: Seq<Node<T>>) {
    if q.len() >= 2 {
        lemma_merge_step_len(q);
    }
}

/// The sum of the weights of the nodes of `q`.
pub open spec fn total_weight<T>(q: Seq<Node<T>>) -> int
    decreases q.len(),
{
    if q.len() == 0 {
        0
    } else {
        total_weight(q.drop_last()) + q.last().weight
    }
}

/// The leaves of all trees of `q`, each as its symbol and its weight.
pub open spec fn queue_entries<T>(q: Seq<Node<T>>) -> Multiset<(T, usize)>
    decreases q.len(),
{
    if q.len() == 0 {
        Multiset::empty()
    } else {
        queue_entries(q.drop_last()).add(q.last().entries())
    }
}

/// Whether every node of `q` is a well-formed tree.
pub open spec fn all_wf<T>(q: Seq<Node<T>>) -> bool {
    forall|i: int| 0 <= i < q.len() ==> (#[trigger] q[i]).wf()
}

/// A node enters the queue behind a heavier node, if behind any, and in
/// front of nodes that are no heavier.
pub proof fn lemma_insert_index_bounds<T>(q: Seq<Node<T>>, w: usize)
    ensures
        0 <= insert_index(q, w) <= q.len(),
        forall|i: int| insert_index(q, w) <= i < q.len() ==> (#[trigger] q[i]).weight <= w,
        insert_index(q, w) > 0 ==> q[insert_index(q, w) - 1].weight > w,
    decreases q.len(),
{
    if q.len() > 0 && q.last().weight <= w {
        let rest = q.drop_last();
        lemma_insert_index_bounds(rest, w);
        assert forall|i: int| insert_index(q, w) <= i < q.len() implies (#[trigger] q[i]).weight
            <= w by {
            if i < rest.len() {
                assert(q[i] == rest[i]);
            }
        }
    }
}

/// A round of merging takes one node off the queue.
pub proof fn lemma_merge_step_len<T>(q: Seq<Node<T>>)
    requires
        q.len() >= 2,
    ensures
        merge_step(q).len() == q.len() - 1,
{
    let rest = q.take(q.len() - 2);
    let node = branch_node(q[q.len() - 1], q[q.len() - 2]);
    lemma_insert_index_bounds(rest, node.weight);
}

/// A node that enters a sequence adds its weight to the total.
pub proof fn lemma_total_weight_insert<T>(q: Seq<Node<T>>, i: int, node: Node<T>)
    requires
        0 <= i <= q.len(),
    ensures
        total_weight(q.insert(i, node)) == total_weight(q) + node.weight,
    decreases q.len(),
{
    let r = q.insert(i, node);
    if i == q.len() {
        assert(r.drop_last() =~= q);
    } else {
        assert(r.drop_last() =~= q.drop_last().insert(i, node));
        lemma_total_weight_insert(q.drop_last(), i, node);
    }
}

/// No node weighs more than all of them together.
pub proof fn lemma_total_weight_bounds<T>(q: Seq<Node<T>>, i: int)
    requires
        0 <= i < q.len(),
    ensures
        0 <= q[i].weight <= total_weight(q),
        total_weight(q.take(i)) >= 0,
    decreases q.len(),
{
    lemma_total_weight_nonneg(q.drop_last());
    lemma_total_weight_nonneg(q.take(i));
    if i < q.len() - 1 {
        lemma_total_weight_bounds(q.drop_last(), i);
    }
}

/// No total weight is negative.
pub proof fn lemma_total_weight_nonneg<T>(q: Seq<Node<T>>)
    ensures
        total_weight(q) >= 0,
    decreases q.len(),
{
    if q.len() > 0 {
        lemma_total_weight_nonneg(q.drop_last());
    }
}

/// Where the two lightest nodes together weigh no more than a `usize` holds,
/// a round of merging keeps the total weight, and keeps the trees well formed.
pub proof fn lemma_merge_step_keeps<T>(q: Seq<Node<T>>)
    requires
        q.len() >= 2,
        total_weight(q) <= usize::MAX,
    ensures
        total_weight(merge_step(q)) == total_weight(q),
        all_wf(q) ==> all_wf(merge_step(q)),
{
    let n = q.len() as int;
    let rest = q.take(n - 2);
    let a = q[n - 1];
    let b = q[n - 2];
    let node = branch_node(a, b);
    assert(q.drop_last().drop_last() =~= rest);
    assert(q.drop_last().last() == b);
    lemma_total_weight_nonneg(rest);
    assert(total_weight(q.drop_last()) == total_weight(rest) + b.weight);
    assert(total_weight(q) == total_weight(rest) + b.weight + a.weight);
    lemma_insert_index_bounds(rest, node.weight);
    lemma_total_weight_insert(rest, insert_index(rest, node.weight), node);
    if all_wf(q) {
        assert(a.wf() && b.wf());
        assert(node.wf());
        let r = merge_step(q);
        assert forall|i: int| 0 <= i < r.len() implies (#[trigger] r[i]).wf() by {
            let at = insert_index(rest, node.weight);
            if i < at {
                assert(r[i] == q[i]);
            } else if i > at {
                assert(r[i] == q[i - 1]);
            }
        }
    }
}

/// A tree that enters a sequence adds its leaves to those of the others.
pub proof fn lemma_queue_entries_insert<T>(q: Seq<Node<T>>, i: int, node: Node<T>)
    requires
        0 <= i <= q.len(),
    ensures
        queue_entries(q.insert(i, node)) == queue_entries(q).add(node.entries()),
    decreases q.len(),
{
    let r = q.insert(i, node);
    if i == q.len() {
        assert(r.drop_last() =~= q);
    } else {
        assert(r.drop_last() =~= q.drop_last().insert(i, node));
        lemma_queue_entries_insert(q.drop_last(), i, node);
        assert(queue_entries(r) =~= queue_entries(q).add(node.entries()));
    }
}

/// A round of merging keeps the leaves.
pub proof fn lemma_merge_step_entries<T>(q: Seq<Node<T>>)
    requires
        q.len() >= 2,
    ensures
        queue_entries(merge_step(q)) == queue_entries(q),
{
    let n = q.len() as int;
    let rest = q.take(n - 2);
    let node = branch_node(q[n - 1], q[n - 2]);
    assert(q.drop_last().drop_last() =~= rest);
    assert(q.drop_last().last() == q[n - 2]);
    lemma_insert_index_bounds(rest, node.weight);
    lemma_queue_entries_insert(rest, insert_index(rest, node.weight), node);
    assert(queue_entries(q.drop_last()) == queue_entries(rest).add(q[n - 2].entries()));
    assert(queue_entries(q) == queue_entries(q.drop_last()).add(q[n - 1].entries()));
    assert(node.entries() == q[n - 1].entries().add(q[n - 2].entries()));
    assert(queue_entries(q) =~= queue_entries(rest).add(node.entries()));
}

/// Merging a queue of well-formed trees whose weights fit together into a
/// `usize` leaves one well-formed tree, with the weight and the leaves of all
/// of them.
pub proof fn lemma_merge_all<T>(q: Seq<Node<T>>)
    requires
        q.len() >= 1,
        all_wf(q),
        total_weight(q) <= usize::MAX,
    ensures
        merge_all(q).len() == 1,
        merge_all(q)[0].wf(),
        merge_all(q)[0].weight == total_weight(q),
        merge_all(q)[0].entries() == queue_entries(q),
    decreases q.len(),
{
    if q.len() >= 2 {
        lemma_merge_step_len(q);
        lemma_merge_step_keeps(q);
        lemma_merge_step_entries(q);
        lemma_merge_all(merge_step(q));
    } else {
        assert(q.drop_last() =~= Seq::<Node<T>>::empty());
        assert(total_weight(q.drop_last()) == 0);
        assert(queue_entries(q.drop_last()) == Multiset::<(T, usize)>::empty());
        assert(queue_entries(q) == queue_entries(q.drop_last()).add(q[0].entries()));
        assert(queue_entries(q) =~= q[0].entries());
    }
}

} // verus!
