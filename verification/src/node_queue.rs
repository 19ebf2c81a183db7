//! The priority queue of the tree builder as it is stored: an ordered map
//! from the weight of a node and the number under which it entered to the
//! node.

use crate::node::Node;
use crate::queue::{enqueue, insert_index, lemma_insert_index_bounds};
use std::collections::BTreeMap;
use vstd::prelude::*;
use vstd::std_specs::btree::increasing_seq;
use vstd::std_specs::cmp::OrdSpec;
use vstd::std_specs::iter::IteratorSpec;

verus! {

/// The order of the keys of the queue: by weight, and for one weight by the
/// number under which the node entered.
pub open spec fn key_less(a: (usize, u64), b: (usize, u64)) -> bool {
    a.0 < b.0 || (a.0 == b.0 && a.1 < b.1)
}

/// Whether every key of `keys` is greater than the next.
pub open spec fn keys_descend(keys: Seq<(usize, u64)>) -> bool {
    forall|i: int, j: int|
        0 <= i < j < keys.len() ==> key_less(#[trigger] keys[j], #[trigger] keys[i])
}

/// An ordered map walks its keys from the least to the greatest.
proof fn lemma_increasing_keys(keys: Seq<(usize, u64)>)
    requires
        increasing_seq(keys),
    ensures
        forall|i: int, j: int|
            0 <= i < j < keys.len() ==> key_less(#[trigger] keys[i], #[trigger] keys[j]),
{
    assert forall|i: int, j: int| 0 <= i < j < keys.len() implies key_less(
        #[trigger] keys[i],
        #[trigger] keys[j],
    ) by {
        assert(keys[i].cmp_spec(&keys[j]) is Less);
    }
}

/// An ordered map walks symbols from the least to the greatest.
pub proof fn lemma_increasing_symbols(symbols: Seq<u32>)
    requires
        increasing_seq(symbols),
    ensures
        forall|i: int, j: int| 0 <= i < j < symbols.len() ==> symbols[i] < symbols[j],
{
    assert forall|i: int, j: int| 0 <= i < j < symbols.len() implies symbols[i] < symbols[j] by {
        assert(symbols[i].cmp_spec(&symbols[j]) is Less);
    }
}

/// A queue of nodes from which the lightest leaves first, and of nodes of
/// one weight the one that entered first.
pub struct NodeQueue<T> {
    nodes: BTreeMap<(usize, u64), Node<T>>,
    next: u64,
    order: Ghost<Seq<(usize, u64)>>,
}

impl<T> View for NodeQueue<T> {
    type V = Seq<Node<T>>;

    /// The nodes of the queue, the next to leave last.
    closed spec fn view(&self) -> Seq<Node<T>> {
        Seq::new(self.order@.len(), |i: int| self.nodes@[self.order@[i]])
    }
}

impl<T> NodeQueue<T> {
    /// The invariant of the representation.
    pub closed spec fn wf(&self) -> bool {
        &&& keys_descend(self.order@)
        &&& forall|k: (usize, u64)| self.nodes@.contains_key(k) <==> self.order@.contains(k)
        &&& forall|i: int|
            0 <= i < self.order@.len() ==> {
                &&& (#[trigger] self.order@[i]).0 == self.nodes@[self.order@[i]].weight
                &&& self.order@[i].1 < self.next
            }
    }

    /// How many nodes have entered the queue since it was made.
    pub closed spec fn entered(&self) -> nat {
        self.next as nat
    }

    /// An empty queue.
    pub fn new() -> (q: Self)
        ensures
            q.wf(),
            q@ == Seq::<Node<T>>::empty(),
            q.entered() == 0,
    {
        let q = NodeQueue { nodes: BTreeMap::new(), next: 0, order: Ghost(Seq::empty()) };
        proof {
            assert(q@ =~= Seq::<Node<T>>::empty());
        }
        q
    }

    /// The number of nodes in the queue.
    pub fn len(&self) -> (n: usize)
        requires
            self.wf(),
        ensures
            n == self@.len(),
    {
        proof {
            self.lemma_count();
        }
        self.nodes.len()
    }

    /// The map holds one node for each key of the order, and no key twice.
    proof fn lemma_count(&self)
        requires
            self.wf(),
        ensures
            self.nodes@.len() == self.order@.len(),
            self.order@.no_duplicates(),
    {
        let order = self.order@;
        assert forall|i: int, j: int| 0 <= i < j < order.len() implies order[i] != order[j] by {
            assert(key_less(order[j], order[i]));
        }
        assert(order.to_set() =~= self.nodes@.dom());
        order.unique_seq_to_set();
    }

    /// Lets `node` enter the queue.
    pub fn push(&mut self, node: Node<T>)
        requires
            old(self).wf(),
            old(self).entered() < u64::MAX,
        ensures
            final(self).wf(),
            final(self)@ == enqueue(old(self)@, node),
            final(self).entered() == old(self).entered() + 1,
    {
        let key = (node.weight, self.next);
        let ghost before = self@;
        let ghost order = self.order@;
        let ghost at = insert_index(before, node.weight);
        proof {
            lemma_insert_index_bounds(before, node.weight);
            if self.nodes@.contains_key(key) {
                assert(order.contains(key));
                let i = choose|i: int| 0 <= i < order.len() && order[i] == key;
                assert(order[i].1 < self.next);
            }
        }
        self.nodes.insert(key, node);
        self.next = self.next + 1;
        self.order = Ghost(order.insert(at, key));
        proof {
            let after = self.order@;
            assert forall|i: int| 0 <= i < after.len() implies self.nodes@[#[trigger] after[i]]
                == before.insert(at, node)[i] && after[i].0 == self.nodes@[after[i]].weight
                && after[i].1 < self.next by {
                if i < at {
                    assert(after[i] == order[i]);
                    assert(order[i].1 < key.1);
                } else if i > at {
                    assert(after[i] == order[i - 1]);
                    assert(order[i - 1].1 < key.1);
                }
            }
            assert(self@ =~= before.insert(at, node));
            assert forall|k: (usize, u64)| self.nodes@.contains_key(k) <==> after.contains(k) by {
                if after.contains(k) {
                    let i = choose|i: int| 0 <= i < after.len() && after[i] == k;
                    if i < at {
                        assert(order.contains(order[i]));
                    } else if i > at {
                        assert(order.contains(order[i - 1]));
                    }
                }
                if self.nodes@.contains_key(k) {
                    if k == key {
                        assert(after[at] == k);
                    } else {
                        assert(order.contains(k));
                        let i = choose|i: int| 0 <= i < order.len() && order[i] == k;
                        if i < at {
                            assert(after[i] == k);
                        } else {
                            assert(after[i + 1] == k);
                        }
                    }
                }
            }
            assert forall|i: int, j: int| 0 <= i < j < after.len() implies key_less(
                #[trigger] after[j],
                #[trigger] after[i],
            ) by {
                if at > 0 {
                    assert(before[at - 1].weight > node.weight);
                    assert(order[at - 1].0 == before[at - 1].weight);
                }
                if j > at {
                    assert(before[j - 1].weight <= node.weight);
                    assert(order[j - 1].0 == before[j - 1].weight);
                    assert(order[j - 1].1 < key.1);
                }
                if i < at && j > at {
                    assert(key_less(order[j - 1], order[i]));
                } else if i < at && j < at {
                    assert(key_less(order[j], order[i]));
                } else if i < at && j == at {
                    if i < at - 1 {
                        assert(key_less(order[at - 1], order[i]));
                    }
                } else if i > at {
                    assert(key_less(order[j - 1], order[i - 1]));
                }
            }
        }
    }

    /// Takes the lightest node out of the queue; of the lightest nodes, the
    /// one that entered first.
    pub fn pop(&mut self) -> (node: Node<T>)
        requires
            old(self).wf(),
            old(self)@.len() > 0,
        ensures
            final(self).wf(),
            node == old(self)@.last(),
            final(self)@ == old(self)@.drop_last(),
            final(self).entered() == old(self).entered(),
    {
        let ghost before = self@;
        let ghost order = self.order@;
        let ghost least = order.last();
        proof {
            self.lemma_count();
        }
        let ghost pairs = self.nodes.iter().remaining();
        let mut key: (usize, u64) = (0, 0);
        for kv in it: self.nodes.iter()
            invariant_except_break
                it.seq() == pairs,
                it.index() == 0,
                pairs.len() > 0,
                increasing_seq(pairs.map_values(|kv: (&(usize, u64), &Node<T>)| *kv.0)),
            ensures
                key == *pairs[0].0,
                increasing_seq(pairs.map_values(|kv: (&(usize, u64), &Node<T>)| *kv.0)),
        {
            key = *kv.0;
            break;
        }
        proof {
            let keys = pairs.map_values(|kv: (&(usize, u64), &Node<T>)| *kv.0);
            lemma_increasing_keys(keys);
            assert(self.nodes@.contains_key(*pairs[0].0));
            assert(order.contains(keys[0]));
            let a = choose|a: int| 0 <= a < order.len() && order[a] == keys[0];
            assert(order[order.len() - 1] == least);
            assert(order.contains(least));
            assert(self.nodes@.contains_key(least));
            let entry = (&least, &self.nodes@[least]);
            assert(pairs.contains(entry));
            let j = choose|j: int| 0 <= j < pairs.len() && pairs[j] == entry;
            assert(keys[j] == least);
            if j > 0 {
                assert(key_less(keys[0], keys[j]));
                if a < order.len() - 1 {
                    assert(key_less(order[order.len() - 1], order[a]));
                }
            }
            assert(key == least);
        }
        let node = self.nodes.remove(&key).unwrap();
        self.order = Ghost(order.drop_last());
        proof {
            let after = self.order@;
            assert forall|i: int| 0 <= i < after.len() implies self.nodes@[#[trigger] after[i]]
                == before[i] && after[i].0 == self.nodes@[after[i]].weight && after[i].1
                < self.next by {
                assert(after[i] == order[i]);
                assert(key_less(order[order.len() - 1], order[i]));
            }
            assert(self@ =~= before.drop_last());
            assert forall|k: (usize, u64)| self.nodes@.contains_key(k) <==> after.contains(k) by {
                if after.contains(k) {
                    let i = choose|i: int| 0 <= i < after.len() && after[i] == k;
                    assert(order.contains(order[i]));
                    assert(key_less(order[order.len() - 1], order[i]));
                }
                if self.nodes@.contains_key(k) {
                    assert(order.contains(k));
                    let i = choose|i: int| 0 <= i < order.len() && order[i] == k;
                    assert(after[i] == k);
                }
            }
            assert forall|i: int, j: int| 0 <= i < j < after.len() implies key_less(
                #[trigger] after[j],
                #[trigger] after[i],
            ) by {
                assert(key_less(order[j], order[i]));
            }
        }
        node
    }
}

} // verus!
