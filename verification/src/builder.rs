//! From symbol frequencies to the code tree.

use crate::error::HuffmanError;
use crate::node::{leaf_node, Node};
use crate::node_queue::{lemma_increasing_symbols, NodeQueue};
use crate::queue::{
    all_wf, enqueue, insert_index, lemma_insert_index_bounds, lemma_merge_all,
    lemma_merge_step_keeps, lemma_merge_step_len, lemma_queue_entries_insert,
    lemma_total_weight_bounds, lemma_total_weight_insert, merge_all, merge_step, queue_entries,
    total_weight,
};
use std::collections::BTreeMap;
use std::collections::HashMap;
use vstd::multiset::Multiset;
use vstd::prelude::*;
use vstd::std_specs::btree::increasing_seq;
use vstd::std_specs::iter::IteratorSpec;

verus! {

/// The symbols of `m` that are less than `bound`, in ascending order.
pub open spec fn keys_below(m: Map<u32, usize>, bound: nat) -> Seq<u32>
    decreases bound,
{
    if bound == 0 {
        Seq::empty()
    } else {
        let k = (bound - 1) as u32;
        if m.contains_key(k) {
            keys_below(m, (bound - 1) as nat).push(k)
        } else {
            keys_below(m, (bound - 1) as nat)
        }
    }
}

/// The symbols of `m` in ascending order.
pub open spec fn ascending_keys(m: Map<u32, usize>) -> Seq<u32> {
    keys_below(m, 0x1_0000_0000)
}

/// The sum of the frequencies that `m` gives to the symbols `keys`.
pub open spec fn frequency_sum(m: Map<u32, usize>, keys: Seq<u32>) -> int
    decreases keys.len(),
{
    if keys.len() == 0 {
        0
    } else {
        frequency_sum(m, keys.drop_last()) + m[keys.last()]
    }
}

/// The sum of all frequencies of `m`.
pub open spec fn total_frequency(m: Map<u32, usize>) -> int {
    frequency_sum(m, ascending_keys(m))
}

/// The queue after the leaves of the symbols `keys` have entered it one by
/// one, each with the frequency that `m` gives it.
pub open spec fn leaf_queue(m: Map<u32, usize>, keys: Seq<u32>) -> Seq<Node<u32>>
    decreases keys.len(),
{
    if keys.len() == 0 {
        Seq::empty()
    } else {
        enqueue(leaf_queue(m, keys.drop_last()), leaf_node(keys.last(), m[keys.last()]))
    }
}

/// The code tree of the frequency table `m`, which is not empty. The leaves
/// enter the queue in ascending order of their symbols. Then the two lightest
/// nodes are merged, the lighter as the left child, until one node is left.
/// Of nodes of one weight the one that entered the queue first is the
/// lighter: a leaf before an internal node, a leaf with a smaller symbol
/// before one with a greater, an internal node before one made after it.
pub open spec fn huffman_tree(m: Map<u32, usize>) -> Node<u32> {
    merge_all(leaf_queue(m, ascending_keys(m)))[0]
}

/// The entries of `m` for the symbols `keys`, each as its symbol and its
/// frequency.
pub open spec fn entries_of(m: Map<u32, usize>, keys: Seq<u32>) -> Multiset<(u32, usize)>
    decreases keys.len(),
{
    if keys.len() == 0 {
        Multiset::empty()
    } else {
        entries_of(m, keys.drop_last()).insert((keys.last(), m[keys.last()]))
    }
}

/// Whether every element of `s` is less than the next.
pub open spec fn strictly_ascending(s: Seq<u32>) -> bool {
    forall|i: int, j: int| 0 <= i < j < s.len() ==> s[i] < s[j]
}

/// Of a list of the symbols of `m` in ascending order, the symbols below
/// `bound` are the first `j`, where `j` of them are below `bound`.
proof fn lemma_keys_below(m: Map<u32, usize>, s: Seq<u32>, bound: nat, j: int)
    requires
        strictly_ascending(s),
        forall|k: u32| s.contains(k) <==> m.contains_key(k),
        bound <= 0x1_0000_0000,
        0 <= j <= s.len(),
        forall|i: int| 0 <= i < j ==> s[i] < bound,
        forall|i: int| j <= i < s.len() ==> s[i] >= bound,
    ensures
        keys_below(m, bound) == s.take(j),
    decreases bound,
{
    if bound == 0 {
        assert(j == 0) by {
            if j > 0 {
                assert(s[0] < bound);
            }
        }
        assert(s.take(0) =~= Seq::<u32>::empty());
    } else {
        let k = (bound - 1) as u32;
        if m.contains_key(k) {
            assert(s.contains(k));
            let i = choose|i: int| 0 <= i < s.len() && s[i] == k;
            assert(i < j);
            assert(s[j - 1] == k) by {
                if i < j - 1 {
                    assert(s[i] < s[j - 1]);
                }
            }
            lemma_keys_below(m, s, (bound - 1) as nat, j - 1);
            assert(s.take(j) =~= s.take(j - 1).push(k));
        } else {
            assert forall|i: int| 0 <= i < j implies s[i] < bound - 1 by {
                assert(s.contains(s[i]));
            }
            lemma_keys_below(m, s, (bound - 1) as nat, j);
        }
    }
}

/// There is one way to list the symbols of `m` in ascending order.
pub proof fn lemma_ascending_keys(m: Map<u32, usize>, s: Seq<u32>)
    requires
        strictly_ascending(s),
        forall|k: u32| s.contains(k) <==> m.contains_key(k),
    ensures
        s == ascending_keys(m),
{
    lemma_keys_below(m, s, 0x1_0000_0000, s.len() as int);
    assert(s.take(s.len() as int) =~= s);
}

/// The symbols below a bound are listed in ascending order, each once.
pub proof fn lemma_keys_below_lists(m: Map<u32, usize>, bound: nat)
    requires
        bound <= 0x1_0000_0000,
    ensures
        strictly_ascending(keys_below(m, bound)),
        forall|k: u32|
            #![trigger keys_below(m, bound).contains(k)]
            #![trigger m.contains_key(k)]
            keys_below(m, bound).contains(k) <==> m.contains_key(k) && k < bound,
    decreases bound,
{
    if bound > 0 {
        let rest = keys_below(m, (bound - 1) as nat);
        let last = (bound - 1) as u32;
        let all = keys_below(m, bound);
        lemma_keys_below_lists(m, (bound - 1) as nat);
        if m.contains_key(last) {
            assert forall|i: int, j: int| 0 <= i < j < all.len() implies all[i] < all[j] by {
                assert(all[i] == rest[i]);
                assert(rest.contains(rest[i]));
                if j < rest.len() {
                    assert(all[j] == rest[j]);
                }
            }
            assert forall|k: u32| all.contains(k) <==> m.contains_key(k) && k < bound by {
                if all.contains(k) {
                    let i = choose|i: int| 0 <= i < all.len() && all[i] == k;
                    if i < rest.len() {
                        assert(rest.contains(rest[i]));
                    }
                }
                if m.contains_key(k) && k < bound {
                    if k == last {
                        assert(all[all.len() - 1] == k);
                    } else {
                        assert(rest.contains(k));
                        let i = choose|i: int| 0 <= i < rest.len() && rest[i] == k;
                        assert(all[i] == k);
                    }
                }
            }
        }
    }
}

/// The symbols of a finite table are listed in ascending order, each once.
pub proof fn lemma_ascending_keys_list(m: Map<u32, usize>)
    requires
        m.dom().finite(),
    ensures
        strictly_ascending(ascending_keys(m)),
        forall|k: u32|
            #![trigger ascending_keys(m).contains(k)]
            #![trigger m.contains_key(k)]
            ascending_keys(m).contains(k) <==> m.contains_key(k),
        ascending_keys(m).len() == m.len(),
{
    let keys = ascending_keys(m);
    lemma_keys_below_lists(m, 0x1_0000_0000);
    assert(keys.to_set() =~= m.dom());
    keys.unique_seq_to_set();
}

/// Of the entries listed for symbols that are each named once, one is of the
/// symbol `k` with the frequency `w` exactly if `k` is named and `w` is its
/// frequency.
pub proof fn lemma_entries_of(m: Map<u32, usize>, keys: Seq<u32>, k: u32, w: usize)
    requires
        keys.no_duplicates(),
    ensures
        entries_of(m, keys).count((k, w)) == if keys.contains(k) && m[k] == w {
            1nat
        } else {
            0nat
        },
        entries_of(m, keys).len() == keys.len(),
    decreases keys.len(),
{
    if keys.len() > 0 {
        let rest = keys.drop_last();
        lemma_entries_of(m, rest, k, w);
        if rest.contains(k) {
            let i = choose|i: int| 0 <= i < rest.len() && rest[i] == k;
            assert(keys[i] == k);
        }
        if keys.contains(k) && k != keys.last() {
            let i = choose|i: int| 0 <= i < keys.len() && keys[i] == k;
            assert(rest[i] == k);
        }
        if k == keys.last() {
            assert(keys[keys.len() - 1] == k);
        }
    }
}

/// In a list of symbols in ascending order, each is at least its index.
proof fn lemma_ascending_floor(s: Seq<u32>, i: int)
    requires
        strictly_ascending(s),
        0 <= i < s.len(),
    ensures
        s[i] >= i,
    decreases i,
{
    if i > 0 {
        lemma_ascending_floor(s, i - 1);
        assert(s[i - 1] < s[i]);
    }
}

/// The symbols of `entries`, in their order.
pub open spec fn symbols_of(entries: Seq<(u32, usize)>) -> Seq<u32> {
    entries.map_values(|e: (u32, usize)| e.0)
}

/// The entries of the table `f` in ascending order of their symbols.
fn sorted_entries(f: &HashMap<u32, usize>) -> (entries: Vec<(u32, usize)>)
    ensures
        symbols_of(entries@) == ascending_keys(f@),
        entries@.len() == f@.len(),
        entries@.len() <= 0x1_0000_0000,
        forall|i: int|
            0 <= i < entries@.len() ==> f@.contains_key((#[trigger] entries@[i]).0)
                && f@[entries@[i].0] == entries@[i].1,
{
    let mut sorted: BTreeMap<u32, usize> = BTreeMap::new();
    let ghost all = f.iter().remaining();
    for kv in it: f.iter()
        invariant
            it.seq() == all,
            forall|k: u32| #[trigger]
                sorted@.contains_key(k) ==> f@.contains_key(k) && sorted@[k] == f@[k],
            forall|j: int| 0 <= j < it.index() ==> sorted@.contains_key(*(#[trigger] all[j]).0),
    {
        assert(f@.contains_key(*all[it.index()].0) && f@[*all[it.index()].0] == *all[it.index()].1);
        sorted.insert(*kv.0, *kv.1);
    }
    assert(sorted@ =~= f@) by {
        assert forall|k: u32| f@.contains_key(k) implies sorted@.contains_key(k) by {
            assert(all.contains((&k, &f@[k])));
            let j = choose|j: int| 0 <= j < all.len() && all[j] == (&k, &f@[k]);
            assert(sorted@.contains_key(*all[j].0));
        }
    }
    let mut entries: Vec<(u32, usize)> = Vec::new();
    let ghost pairs = sorted.iter().remaining();
    for kv in it: sorted.iter()
        invariant
            it.seq() == pairs,
            entries@.len() == it.index(),
            increasing_seq(pairs.map_values(|kv: (&u32, &usize)| *kv.0)),
            forall|j: int|
                0 <= j < entries@.len() ==> (#[trigger] entries@[j]) == (*pairs[j].0, *pairs[j].1),
    {
        entries.push((*kv.0, *kv.1));
    }
    proof {
        let keys = symbols_of(entries@);
        assert(keys =~= pairs.map_values(|kv: (&u32, &usize)| *kv.0));
        lemma_increasing_symbols(keys);
        assert forall|k: u32| keys.contains(k) <==> f@.contains_key(k) by {
            if keys.contains(k) {
                let j = choose|j: int| 0 <= j < keys.len() && keys[j] == k;
                assert(sorted@.contains_key(*pairs[j].0));
            }
            if f@.contains_key(k) {
                assert(pairs.contains((&k, &sorted@[k])));
                let j = choose|j: int| 0 <= j < pairs.len() && pairs[j] == (&k, &sorted@[k]);
                assert(keys[j] == k);
            }
        }
        lemma_ascending_keys(f@, keys);
        lemma_ascending_keys_list(f@);
        assert forall|i: int| 0 <= i < entries@.len() implies f@.contains_key(
            (#[trigger] entries@[i]).0,
        ) && f@[entries@[i].0] == entries@[i].1 by {
            assert(sorted@.contains_key(*pairs[i].0));
        }
        if keys.len() > 0 {
            lemma_ascending_floor(keys, keys.len() - 1);
        }
    }
    entries
}

/// As many leaves are in the queue as symbols were given, and they weigh what
/// the table says.
pub proof fn lemma_leaf_queue(m: Map<u32, usize>, keys: Seq<u32>)
    ensures
        leaf_queue(m, keys).len() == keys.len(),
        total_weight(leaf_queue(m, keys)) == frequency_sum(m, keys),
        all_wf(leaf_queue(m, keys)),
        queue_entries(leaf_queue(m, keys)) == entries_of(m, keys),
    decreases keys.len(),
{
    if keys.len() > 0 {
        let rest = leaf_queue(m, keys.drop_last());
        let leaf = leaf_node(keys.last(), m[keys.last()]);
        lemma_leaf_queue(m, keys.drop_last());
        lemma_insert_index_bounds(rest, leaf.weight);
        let at = insert_index(rest, leaf.weight);
        lemma_total_weight_insert(rest, at, leaf);
        lemma_queue_entries_insert(rest, at, leaf);
        assert(queue_entries(leaf_queue(m, keys)) =~= entries_of(m, keys));
        let q = leaf_queue(m, keys);
        assert forall|i: int| 0 <= i < q.len() implies (#[trigger] q[i]).wf() by {
            if i < at {
                assert(q[i] == rest[i]);
            } else if i > at {
                assert(q[i] == rest[i - 1]);
            }
        }
    }
}

/// The code tree of a table that is not empty, and whose frequencies fit
/// together into a `usize`, is well formed, weighs as much as all frequencies
/// together, and has one leaf for each symbol of the table, with the symbol's
/// frequency as its weight.
pub proof fn lemma_huffman_tree(m: Map<u32, usize>)
    requires
        m.dom().finite(),
        m.len() > 0,
        total_frequency(m) <= usize::MAX,
    ensures
        huffman_tree(m).wf(),
        huffman_tree(m).weight == total_frequency(m),
        huffman_tree(m).leaf_count() == m.len(),
        huffman_tree(m).height() < m.len(),
        huffman_tree(m).symbols() == m.dom(),
        forall|k: u32, w: usize|
            #[trigger] huffman_tree(m).entries().count((k, w)) == if m.contains_key(k) && m[k]
                == w {
                1nat
            } else {
                0nat
            },
{
    let keys = ascending_keys(m);
    let tree = huffman_tree(m);
    lemma_ascending_keys_list(m);
    lemma_leaf_queue(m, keys);
    lemma_merge_all(leaf_queue(m, keys));
    tree.lemma_entries();
    assert forall|k: u32, w: usize| #[trigger]
        tree.entries().count((k, w)) == if m.contains_key(k) && m[k] == w {
            1nat
        } else {
            0nat
        } by {
        lemma_entries_of(m, keys, k, w);
    }
    lemma_entries_of(m, keys, 0, 0);
    assert forall|k: u32| tree.symbols().contains(k) <==> m.dom().contains(k) by {
        if tree.symbols().contains(k) {
            let w = choose|w: usize| tree.entries().count((k, w)) > 0;
            assert(tree.entries().count((k, w)) > 0);
        }
        if m.contains_key(k) {
            assert(tree.entries().count((k, m[k])) > 0);
        }
    }
    assert(tree.symbols() =~= m.dom());
}

/// Whether the frequencies of the table `f` fit together into a `usize`, as
/// [`construct_huffman_tree`] asks.
pub fn frequencies_fit(f: &HashMap<u32, usize>) -> (fit: bool)
    ensures
        fit == (total_frequency(f@) <= usize::MAX),
{
    let entries = sorted_entries(f);
    let ghost keys = symbols_of(entries@);
    let mut sum: usize = 0;
    let mut i: usize = 0;
    while i < entries.len()
        invariant
            i <= entries.len(),
            keys == symbols_of(entries@),
            keys == ascending_keys(f@),
            forall|j: int|
                0 <= j < entries@.len() ==> f@.contains_key((#[trigger] entries@[j]).0)
                    && f@[entries@[j].0] == entries@[j].1,
            sum == frequency_sum(f@, keys.take(i as int)),
        decreases entries.len() - i,
    {
        let w = entries[i].1;
        proof {
            assert(keys.take(i + 1).drop_last() =~= keys.take(i as int));
            assert(keys.take(i + 1).last() == entries@[i as int].0);
        }
        match sum.checked_add(w) {
            Some(more) => {
                sum = more;
            },
            None => {
                proof {
                    lemma_frequency_sum_grows(f@, keys, i + 1);
                }
                return false;
            },
        }
        i = i + 1;
    }
    proof {
        assert(keys.take(keys.len() as int) =~= keys);
    }
    true
}

/// The sum of the first `n` frequencies is no more than the sum of all.
proof fn lemma_frequency_sum_grows(m: Map<u32, usize>, keys: Seq<u32>, n: int)
    requires
        0 <= n <= keys.len(),
    ensures
        0 <= frequency_sum(m, keys.take(n)) <= frequency_sum(m, keys),
    decreases keys.len(),
{
    if keys.len() == 0 {
        assert(keys.take(n) =~= keys);
    } else if n == keys.len() {
        assert(keys.take(n) =~= keys);
        lemma_frequency_sum_grows(m, keys.drop_last(), 0);
    } else {
        assert(keys.drop_last().take(n) =~= keys.take(n));
        lemma_frequency_sum_grows(m, keys.drop_last(), n);
    }
}

/// The code tree of the frequency table `f`: the tree that [`huffman_tree`]
/// describes. An empty table has no code tree, which is an error.
///
/// The tree is well formed, has one leaf for each symbol of the table, with
/// the symbol's frequency as its weight, and weighs what all frequencies
/// weigh together; [`lemma_huffman_tree`] says so of every table.
pub fn construct_huffman_tree(f: &HashMap<u32, usize>) -> (result: Result<Node<u32>, HuffmanError>)
    requires
        total_frequency(f@) <= usize::MAX,
    ensures
        f@.len() == 0 ==> result == Err::<Node<u32>, HuffmanError>(HuffmanError::InvalidInput),
        f@.len() > 0 ==> result == Ok::<Node<u32>, HuffmanError>(huffman_tree(f@)),
        result matches Ok(tree) ==> {
            &&& tree.wf()
            &&& tree.weight == total_frequency(f@)
            &&& tree.symbols() == f@.dom()
            &&& tree.leaf_count() == f@.len()
            &&& tree.height() < f@.len()
        },
{
    if f.len() == 0 {
        return Err(HuffmanError::InvalidInput);
    }
    proof {
        lemma_huffman_tree(f@);
    }
    let entries = sorted_entries(f);
    let ghost keys = symbols_of(entries@);
    let mut queue: NodeQueue<u32> = NodeQueue::new();
    let mut i: usize = 0;
    while i < entries.len()
        invariant
            i <= entries.len(),
            entries@.len() <= 0x1_0000_0000,
            keys == symbols_of(entries@),
            forall|j: int|
                0 <= j < entries@.len() ==> f@.contains_key((#[trigger] entries@[j]).0)
                    && f@[entries@[j].0] == entries@[j].1,
            queue.wf(),
            queue.entered() == i,
            queue@ == leaf_queue(f@, keys.take(i as int)),
        decreases entries.len() - i,
    {
        let (k, w) = entries[i];
        proof {
            assert(keys.take(i + 1).drop_last() =~= keys.take(i as int));
            assert(keys.take(i + 1).last() == entries@[i as int].0);
        }
        queue.push(Node::leaf(k, w));
        i = i + 1;
    }
    proof {
        assert(keys.take(keys.len() as int) =~= keys);
        lemma_leaf_queue(f@, keys);
    }
    let ghost leaves = queue@;
    let ghost count = entries@.len();
    while queue.len() > 1
        invariant
            queue.wf(),
            queue@.len() >= 1,
            queue.entered() + queue@.len() <= 2 * count,
            count <= 0x1_0000_0000,
            total_weight(queue@) <= usize::MAX,
            merge_all(queue@) == merge_all(leaves),
        decreases queue@.len(),
    {
        let ghost before = queue@;
        proof {
            lemma_total_weight_bounds(before.drop_last(), before.len() - 2);
            lemma_merge_step_keeps(before);
            lemma_merge_step_len(before);
        }
        let a = queue.pop();
        let b = queue.pop();
        let node = Node::branch(a, b);
        proof {
            assert(queue@ =~= before.take(before.len() - 2));
        }
        queue.push(node);
        proof {
            assert(queue@ == merge_step(before));
        }
    }
    let root = queue.pop();
    Ok(root)
}

} // verus!
