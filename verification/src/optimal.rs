//! Why no prefix-free code is shorter than the one the library makes.

use crate::builder::{
    ascending_keys, entries_of, huffman_tree, leaf_queue, lemma_ascending_keys_list,
    lemma_entries_of, lemma_huffman_tree, lemma_leaf_queue, total_frequency,
};
use crate::laws::huffman_codes;
use crate::node::{branch_node, leaf_node, Node};
use crate::queue::{
    all_wf, insert_index, lemma_insert_index_bounds, lemma_merge_step_keeps,
    lemma_merge_step_len, lemma_total_weight_bounds, merge_all, merge_step, total_weight,
};
use crate::shape::{
    descending, lemma_merge_cost_is_least, lemma_weight_index, merge_cost, merged_weights,
    weight_index, Shape,
};
use vstd::multiset::Multiset;
use vstd::prelude::*;
use vstd::seq_lib::{
    to_multiset_build, to_multiset_contains, to_multiset_insert, to_multiset_len,
    to_multiset_remove,
};

verus! {

/// The weights of the nodes of `q`, in their order.
pub open spec fn weights_of<T>(q: Seq<Node<T>>) -> Seq<nat> {
    Seq::new(q.len(), |i: int| q[i].weight as nat)
}

/// The sum of the costs of the trees of `q`, each taken by itself.
pub open spec fn total_cost<T>(q: Seq<Node<T>>) -> int
    decreases q.len(),
{
    if q.len() == 0 {
        0
    } else {
        total_cost(q.drop_last()) + q.last().cost(0)
    }
}

/// The frequencies that `m` gives to the symbols `keys`.
pub open spec fn frequencies(m: Map<u32, usize>, keys: Seq<u32>) -> Multiset<nat>
    decreases keys.len(),
{
    if keys.len() == 0 {
        Multiset::empty()
    } else {
        frequencies(m, keys.drop_last()).insert(m[keys.last()] as nat)
    }
}

/// One level further down, a well-formed tree costs its weight more.
pub proof fn lemma_cost_one_deeper<T>(t: Node<T>, depth: int)
    requires
        t.wf(),
    ensures
        t.cost(depth + 1) == t.cost(depth) + t.weight,
    decreases t,
{
    match (t.left, t.right) {
        (Some(l), Some(r)) => {
            lemma_cost_one_deeper(*l, depth + 1);
            lemma_cost_one_deeper(*r, depth + 1);
        },
        _ => {
            assert(t.weight * (depth + 1) == t.weight * depth + t.weight) by (nonlinear_arith);
        },
    }
}

/// A node enters the queue where its weight enters the weights.
proof fn lemma_insert_index_is_weight_index<T>(q: Seq<Node<T>>, w: usize)
    ensures
        insert_index(q, w) == weight_index(weights_of(q), w as nat),
    decreases q.len(),
{
    if q.len() > 0 {
        assert(weights_of(q).drop_last() =~= weights_of(q.drop_last()));
        lemma_insert_index_is_weight_index(q.drop_last(), w);
    }
}

/// A tree that enters a sequence adds its cost to the total.
proof fn lemma_total_cost_insert<T>(q: Seq<Node<T>>, i: int, node: Node<T>)
    requires
        0 <= i <= q.len(),
    ensures
        total_cost(q.insert(i, node)) == total_cost(q) + node.cost(0),
    decreases q.len(),
{
    let r = q.insert(i, node);
    if i == q.len() {
        assert(r.drop_last() =~= q);
    } else {
        assert(r.drop_last() =~= q.drop_last().insert(i, node));
        lemma_total_cost_insert(q.drop_last(), i, node);
    }
}

/// A round of merging on the queue is a round of merging on its weights, and
/// adds the weight of the new node to the total cost.
proof fn lemma_merge_step_cost<T>(q: Seq<Node<T>>)
    requires
        q.len() >= 2,
        all_wf(q),
        total_weight(q) <= usize::MAX,
    ensures
        weights_of(merge_step(q)) == merged_weights(weights_of(q)),
        total_cost(merge_step(q)) == total_cost(q) + q[q.len() - 1].weight + q[q.len()
            - 2].weight,
{
    let n = q.len() as int;
    let rest = q.take(n - 2);
    let a = q[n - 1];
    let b = q[n - 2];
    let node = branch_node(a, b);
    let ws = weights_of(q);
    lemma_merge_step_keeps(q);
    lemma_total_weight_bounds(q.drop_last(), n - 2);
    assert(total_weight(q) == total_weight(q.drop_last()) + a.weight);
    assert(node.weight == a.weight + b.weight);
    assert(weights_of(rest) =~= ws.take(n - 2));
    lemma_insert_index_is_weight_index(rest, node.weight);
    lemma_insert_index_bounds(rest, node.weight);
    let at = insert_index(rest, node.weight);
    assert(weights_of(rest.insert(at, node)) =~= weights_of(rest).insert(at, node.weight as nat));
    assert(q.drop_last().drop_last() =~= rest);
    assert(q.drop_last().last() == b);
    assert(total_cost(q.drop_last()) == total_cost(rest) + b.cost(0));
    assert(total_cost(q) == total_cost(rest) + b.cost(0) + a.cost(0));
    lemma_total_cost_insert(rest, at, node);
    lemma_cost_one_deeper(a, 0);
    lemma_cost_one_deeper(b, 0);
    assert(node.cost(0) == a.cost(1) + b.cost(1));
}

/// The tree that comes of merging a queue costs what the trees of the queue
/// cost and what merging their weights costs.
pub proof fn lemma_merge_all_cost<T>(q: Seq<Node<T>>)
    requires
        q.len() >= 1,
        all_wf(q),
        total_weight(q) <= usize::MAX,
    ensures
        merge_all(q)[0].cost(0) == total_cost(q) + merge_cost(weights_of(q)),
    decreases q.len(),
{
    if q.len() >= 2 {
        lemma_merge_step_len(q);
        lemma_merge_step_keeps(q);
        lemma_merge_step_cost(q);
        lemma_merge_all_cost(merge_step(q));
    } else {
        assert(q.drop_last() =~= Seq::<Node<T>>::empty());
        assert(total_cost(q.drop_last()) == 0);
    }
}

/// The weights of the queue of leaves are in descending order, are the
/// frequencies of the table, and the leaves cost nothing by themselves.
pub proof fn lemma_leaf_queue_weights(m: Map<u32, usize>, keys: Seq<u32>)
    ensures
        descending(weights_of(leaf_queue(m, keys))),
        weights_of(leaf_queue(m, keys)).to_multiset() == frequencies(m, keys),
        total_cost(leaf_queue(m, keys)) == 0,
    decreases keys.len(),
{
    if keys.len() > 0 {
        let rest = leaf_queue(m, keys.drop_last());
        let leaf = leaf_node(keys.last(), m[keys.last()]);
        let q = leaf_queue(m, keys);
        let ws = weights_of(rest);
        let w = leaf.weight as nat;
        lemma_leaf_queue_weights(m, keys.drop_last());
        lemma_insert_index_bounds(rest, leaf.weight);
        lemma_insert_index_is_weight_index(rest, leaf.weight);
        let at = insert_index(rest, leaf.weight);
        lemma_weight_index(ws, w);
        let out = weights_of(q);
        assert(out =~= ws.insert(at, w));
        assert forall|i: int, j: int| 0 <= i < j < out.len() implies out[i] >= out[j] by {
            if at > 0 {
                assert(ws[at - 1] > w);
            }
            if i < at && j > at {
                assert(out[i] == ws[i] && out[j] == ws[j - 1]);
            } else if i < at && j < at {
                assert(out[i] == ws[i] && out[j] == ws[j]);
            } else if i < at && j == at {
                assert(out[i] == ws[i]);
                assert(ws[i] >= ws[at - 1]);
            } else if i == at {
                assert(out[j] == ws[j - 1]);
            } else {
                assert(out[i] == ws[i - 1] && out[j] == ws[j - 1]);
            }
        }
        to_multiset_insert(ws, at, w);
        lemma_total_cost_insert(rest, at, leaf);
        assert(leaf.cost(0) == 0) by {
            assert(leaf.weight * 0 == 0) by (nonlinear_arith);
        }
    } else {
        let ws = weights_of(leaf_queue(m, keys));
        assert forall|v: nat| ws.to_multiset().count(v) == 0 by {
            to_multiset_contains(ws, v);
        }
        assert(ws.to_multiset() =~= Multiset::<nat>::empty());
    }
}

/// The length of a text in which each symbol `k` of `keys` occurs as often
/// as `m` says, when `codes` gives the code of each symbol.
pub open spec fn coded_length(m: Map<u32, usize>, keys: Seq<u32>, codes: Map<u32, Seq<bool>>) -> int
    decreases keys.len(),
{
    if keys.len() == 0 {
        0
    } else {
        coded_length(m, keys.drop_last(), codes) + m[keys.last()] * codes[keys.last()].len()
    }
}

/// The length of a text with the frequencies `m`, encoded with `codes`: the
/// sum over the symbols of frequency times code length.
pub open spec fn encoded_length(m: Map<u32, usize>, codes: Map<u32, Seq<bool>>) -> int {
    coded_length(m, ascending_keys(m), codes)
}

/// The sum over `items`, each a symbol and a weight, of weight times the
/// length of the symbol's code.
pub open spec fn item_sum(items: Seq<(u32, usize)>, codes: Map<u32, Seq<bool>>) -> int
    decreases items.len(),
{
    if items.len() == 0 {
        0
    } else {
        item_sum(items.drop_last(), codes) + items.last().1 * codes[items.last().0].len()
    }
}

/// The entries of `m` for the symbols `keys`, in their order.
pub open spec fn items_of(m: Map<u32, usize>, keys: Seq<u32>) -> Seq<(u32, usize)> {
    Seq::new(keys.len(), |i: int| (keys[i], m[keys[i]]))
}

/// The sum over two lists, one after the other, is the sum of their sums.
proof fn lemma_item_sum_concat(
    a: Seq<(u32, usize)>,
    b: Seq<(u32, usize)>,
    codes: Map<u32, Seq<bool>>,
)
    ensures
        item_sum(a + b, codes) == item_sum(a, codes) + item_sum(b, codes),
    decreases b.len(),
{
    if b.len() == 0 {
        assert(a + b =~= a);
    } else {
        assert((a + b).drop_last() =~= a + b.drop_last());
        lemma_item_sum_concat(a, b.drop_last(), codes);
    }
}

/// Two code tables that agree on the symbols of the items give one sum.
proof fn lemma_item_sum_agree(
    items: Seq<(u32, usize)>,
    first: Map<u32, Seq<bool>>,
    second: Map<u32, Seq<bool>>,
)
    requires
        forall|i: int|
            0 <= i < items.len() ==> first[(#[trigger] items[i]).0] == second[items[i].0],
    ensures
        item_sum(items, first) == item_sum(items, second),
    decreases items.len(),
{
    if items.len() > 0 {
        let rest = items.drop_last();
        assert forall|i: int| 0 <= i < rest.len() implies first[(#[trigger] rest[i]).0]
            == second[rest[i].0] by {
            assert(rest[i] == items[i]);
        }
        lemma_item_sum_agree(rest, first, second);
        assert(items.last() == items[items.len() - 1]);
    }
}

/// Without one item, the sum is less by what that item adds.
proof fn lemma_item_sum_remove(items: Seq<(u32, usize)>, i: int, codes: Map<u32, Seq<bool>>)
    requires
        0 <= i < items.len(),
    ensures
        item_sum(items, codes) == item_sum(items.remove(i), codes) + items[i].1
            * codes[items[i].0].len(),
    decreases items.len(),
{
    if i == items.len() - 1 {
        assert(items.remove(i) =~= items.drop_last());
    } else {
        assert(items.remove(i).drop_last() =~= items.drop_last().remove(i));
        lemma_item_sum_remove(items.drop_last(), i, codes);
    }
}

/// The sum does not depend on the order of the items.
proof fn lemma_item_sum_permutation(
    a: Seq<(u32, usize)>,
    b: Seq<(u32, usize)>,
    codes: Map<u32, Seq<bool>>,
)
    requires
        a.to_multiset() == b.to_multiset(),
    ensures
        item_sum(a, codes) == item_sum(b, codes),
    decreases a.len(),
{
    to_multiset_len(a);
    to_multiset_len(b);
    if a.len() > 0 {
        let x = a.last();
        to_multiset_contains(a, x);
        assert(a[a.len() - 1] == x);
        to_multiset_contains(b, x);
        let i = choose|i: int| 0 <= i < b.len() && b[i] == x;
        to_multiset_remove(a, a.len() - 1);
        to_multiset_remove(b, i);
        assert(a.remove(a.len() - 1) =~= a.drop_last());
        lemma_item_sum_permutation(a.drop_last(), b.remove(i), codes);
        lemma_item_sum_remove(b, i, codes);
    }
}

/// The listed entries of a table are its entries, and their sum is the
/// length of the text.
proof fn lemma_items_of(m: Map<u32, usize>, keys: Seq<u32>, codes: Map<u32, Seq<bool>>)
    ensures
        items_of(m, keys).to_multiset() == entries_of(m, keys),
        item_sum(items_of(m, keys), codes) == coded_length(m, keys, codes),
    decreases keys.len(),
{
    let items = items_of(m, keys);
    if keys.len() > 0 {
        let rest = keys.drop_last();
        lemma_items_of(m, rest, codes);
        assert(items.drop_last() =~= items_of(m, rest));
        assert(items =~= items_of(m, rest).push((keys.last(), m[keys.last()])));
        to_multiset_build(items_of(m, rest), (keys.last(), m[keys.last()]));
    } else {
        assert forall|x: (u32, usize)| items.to_multiset().count(x) == 0 by {
            to_multiset_contains(items, x);
        }
        assert(items.to_multiset() =~= Multiset::<(u32, usize)>::empty());
    }
}

/// Summed over the leaves of a well-formed tree with each symbol at one
/// leaf, weight times code length is the cost of the tree.
proof fn lemma_tree_sum(t: Node<u32>, prefix: Seq<bool>)
    requires
        t.wf(),
        t.distinct(),
    ensures
        item_sum(t.leaves(), t.codes(prefix)) == t.cost(prefix.len() as int),
    decreases t,
{
    let codes = t.codes(prefix);
    match (t.left, t.right) {
        (Some(l), Some(r)) => {
            let lp = prefix.push(false);
            let rp = prefix.push(true);
            lemma_tree_sum(*l, lp);
            lemma_tree_sum(*r, rp);
            l.lemma_leaves();
            r.lemma_leaves();
            lemma_item_sum_concat(l.leaves(), r.leaves(), codes);
            assert forall|i: int| 0 <= i < l.leaves().len() implies codes[(
            #[trigger] l.leaves()[i]).0] == l.codes(lp)[l.leaves()[i].0] by {
                let s = l.leaves()[i].0;
                l.lemma_codes(lp, s);
                r.lemma_codes(rp, s);
                assert(l.symbols().contains(s));
                assert(!r.symbols().contains(s));
            }
            assert forall|i: int| 0 <= i < r.leaves().len() implies codes[(
            #[trigger] r.leaves()[i]).0] == r.codes(rp)[r.leaves()[i].0] by {
                let s = r.leaves()[i].0;
                r.lemma_codes(rp, s);
                assert(r.symbols().contains(s));
            }
            lemma_item_sum_agree(l.leaves(), codes, l.codes(lp));
            lemma_item_sum_agree(r.leaves(), codes, r.codes(rp));
        },
        _ => {
            let items = t.leaves();
            assert(items.drop_last() =~= Seq::<(u32, usize)>::empty());
            assert(item_sum(items.drop_last(), codes) == 0);
        },
    }
}

/// A text encoded with the code table of its frequency table is as long as
/// the code tree costs; with one symbol only, it has one bit for each
/// occurrence of the symbol.
pub proof fn lemma_huffman_length(m: Map<u32, usize>)
    requires
        m.dom().finite(),
        m.len() > 0,
        total_frequency(m) <= usize::MAX,
    ensures
        m.len() >= 2 ==> encoded_length(m, huffman_codes(m)) == huffman_tree(m).cost(0),
        m.len() == 1 ==> encoded_length(m, huffman_codes(m)) == huffman_tree(m).cost(1),
{
    let tree = huffman_tree(m);
    let keys = ascending_keys(m);
    let codes = huffman_codes(m);
    lemma_huffman_tree(m);
    lemma_ascending_keys_list(m);
    assert forall|s: u32, v: usize, w: usize|
        tree.entries().count((s, v)) >= 1 && tree.entries().count((s, w)) >= 1 implies v == w
        && tree.entries().count((s, v)) == 1 by {}
    tree.lemma_distinct();
    tree.lemma_leaves();
    tree.lemma_leaf_count_positive();
    lemma_items_of(m, keys, codes);
    assert(entries_of(m, keys) =~= tree.entries()) by {
        assert forall|e: (u32, usize)| entries_of(m, keys).count(e) == tree.entries().count(e) by {
            lemma_entries_of(m, keys, e.0, e.1);
            assert(tree.entries().count((e.0, e.1)) == if m.contains_key(e.0) && m[e.0] == e.1 {
                1nat
            } else {
                0nat
            });
        }
    }
    lemma_item_sum_permutation(items_of(m, keys), tree.leaves(), codes);
    if tree.is_leaf() {
        lemma_tree_sum(tree, seq![false]);
    } else {
        lemma_tree_sum(tree, Seq::empty());
        assert(tree.leaf_count() >= 2) by {
            tree.left.unwrap().lemma_leaf_count_positive();
            tree.right.unwrap().lemma_leaf_count_positive();
        }
    }
}

/// Whether the codes of the symbols `keys` all have `skip` bits or more, and
/// past these bits none begins with the whole rest of another.
pub open spec fn prefix_free_from(keys: Seq<u32>, codes: Map<u32, Seq<bool>>, skip: int) -> bool {
    &&& forall|a: u32| keys.contains(a) ==> (#[trigger] codes[a]).len() >= skip
    &&& forall|a: u32, b: u32|
        keys.contains(a) && keys.contains(b) && a != b ==> !(#[trigger] codes[a]).skip(
            skip,
        ).is_prefix_of((#[trigger] codes[b]).skip(skip))
}

/// The symbols of `keys` whose code has the bit `bit` at the position `at`.
pub open spec fn select(keys: Seq<u32>, codes: Map<u32, Seq<bool>>, at: int, bit: bool) -> Seq<u32>
    decreases keys.len(),
{
    if keys.len() == 0 {
        Seq::empty()
    } else if codes[keys.last()][at] == bit {
        select(keys.drop_last(), codes, at, bit).push(keys.last())
    } else {
        select(keys.drop_last(), codes, at, bit)
    }
}

/// The sum over the symbols `keys` of frequency times what is left of the
/// code past its first `skip` bits, with `depth` bits more for each.
pub open spec fn length_from(
    m: Map<u32, usize>,
    keys: Seq<u32>,
    codes: Map<u32, Seq<bool>>,
    skip: int,
    depth: int,
) -> int
    decreases keys.len(),
{
    if keys.len() == 0 {
        0
    } else {
        length_from(m, keys.drop_last(), codes, skip, depth) + m[keys.last()] * (depth
            + codes[keys.last()].len() - skip)
    }
}

/// The number of bits that the codes of the symbols `keys` have past their
/// first `skip` bits.
pub open spec fn bits_left(keys: Seq<u32>, codes: Map<u32, Seq<bool>>, skip: int) -> int
    decreases keys.len(),
{
    if keys.len() == 0 {
        0
    } else {
        bits_left(keys.drop_last(), codes, skip) + codes[keys.last()].len() - skip
    }
}

/// What is selected is in the list, each symbol once, with the bit asked for.
proof fn lemma_select(keys: Seq<u32>, codes: Map<u32, Seq<bool>>, at: int, bit: bool)
    requires
        keys.no_duplicates(),
    ensures
        select(keys, codes, at, bit).no_duplicates(),
        forall|a: u32| #[trigger]
            select(keys, codes, at, bit).contains(a) <==> keys.contains(a) && codes[a][at] == bit,
    decreases keys.len(),
{
    let out = select(keys, codes, at, bit);
    if keys.len() > 0 {
        let rest = keys.drop_last();
        let last = keys.last();
        let sub = select(rest, codes, at, bit);
        lemma_select(rest, codes, at, bit);
        assert forall|a: u32| #[trigger] out.contains(a) <==> keys.contains(a) && codes[a][at]
            == bit by {
            if out.contains(a) {
                let i = choose|i: int| 0 <= i < out.len() && out[i] == a;
                if i < sub.len() {
                    assert(sub.contains(sub[i]));
                    let j = choose|j: int| 0 <= j < rest.len() && rest[j] == a;
                    assert(keys[j] == a);
                } else {
                    assert(keys[keys.len() - 1] == a);
                }
            }
            if keys.contains(a) && codes[a][at] == bit {
                let j = choose|j: int| 0 <= j < keys.len() && keys[j] == a;
                if j < rest.len() {
                    assert(rest[j] == a);
                    assert(sub.contains(a));
                    let i = choose|i: int| 0 <= i < sub.len() && sub[i] == a;
                    assert(out[i] == a);
                } else {
                    assert(out[out.len() - 1] == a);
                }
            }
        }
        if codes[last][at] == bit {
            assert forall|i: int, j: int| 0 <= i < j < out.len() implies out[i] != out[j] by {
                if j == sub.len() {
                    assert(sub.contains(sub[i]));
                    let k = choose|k: int| 0 <= k < rest.len() && rest[k] == sub[i];
                    assert(keys[k] != keys[keys.len() - 1]);
                }
            }
        }
    }
}

/// The two selections share out the list: its length, its bits, its
/// frequencies and its encoded length.
proof fn lemma_select_split(
    m: Map<u32, usize>,
    keys: Seq<u32>,
    codes: Map<u32, Seq<bool>>,
    at: int,
    skip: int,
    depth: int,
)
    ensures
        select(keys, codes, at, false).len() + select(keys, codes, at, true).len() == keys.len(),
        bits_left(select(keys, codes, at, false), codes, skip) + bits_left(
            select(keys, codes, at, true),
            codes,
            skip,
        ) == bits_left(keys, codes, skip),
        frequencies(m, select(keys, codes, at, false)).add(
            frequencies(m, select(keys, codes, at, true)),
        ) == frequencies(m, keys),
        length_from(m, select(keys, codes, at, false), codes, skip, depth) + length_from(
            m,
            select(keys, codes, at, true),
            codes,
            skip,
            depth,
        ) == length_from(m, keys, codes, skip, depth),
    decreases keys.len(),
{
    let zeros = select(keys, codes, at, false);
    let ones = select(keys, codes, at, true);
    if keys.len() > 0 {
        let rest = keys.drop_last();
        lemma_select_split(m, rest, codes, at, skip, depth);
        if codes[keys.last()][at] {
            assert(ones.drop_last() =~= select(rest, codes, at, true));
        } else {
            assert(zeros.drop_last() =~= select(rest, codes, at, false));
        }
        assert(frequencies(m, zeros).add(frequencies(m, ones)) =~= frequencies(m, keys));
    } else {
        assert(frequencies(m, zeros).add(frequencies(m, ones)) =~= frequencies(m, keys));
    }
}

/// One bit further into the codes, one bit less is left of each, which one
/// level further down makes the same length.
proof fn lemma_skip_one(
    m: Map<u32, usize>,
    keys: Seq<u32>,
    codes: Map<u32, Seq<bool>>,
    skip: int,
    depth: int,
)
    requires
        forall|a: u32| keys.contains(a) ==> (#[trigger] codes[a]).len() >= skip,
    ensures
        bits_left(keys, codes, skip) >= 0,
        bits_left(keys, codes, skip + 1) == bits_left(keys, codes, skip) - keys.len(),
        length_from(m, keys, codes, skip + 1, depth + 1) == length_from(
            m,
            keys,
            codes,
            skip,
            depth,
        ),
        length_from(m, keys, codes, skip + 1, depth) <= length_from(m, keys, codes, skip, depth),
    decreases keys.len(),
{
    if keys.len() > 0 {
        let rest = keys.drop_last();
        let last = keys.last();
        assert forall|a: u32| rest.contains(a) implies (#[trigger] codes[a]).len() >= skip by {
            let i = choose|i: int| 0 <= i < rest.len() && rest[i] == a;
            assert(keys[i] == a);
        }
        assert(keys.contains(last)) by {
            assert(keys[keys.len() - 1] == last);
        }
        lemma_skip_one(m, rest, codes, skip, depth);
        let w = m[last] as int;
        let n = codes[last].len() as int;
        assert(w * (depth + 1 + n - (skip + 1)) == w * (depth + n - skip)) by (nonlinear_arith);
        assert(w * (depth + n - (skip + 1)) <= w * (depth + n - skip)) by (nonlinear_arith)
            requires
                w >= 0,
        ;
    }
}

/// For codes that are prefix-free past their first `skip` bits there is a
/// tree with the frequencies of their symbols at its leaves that, standing
/// at `depth`, costs no more than the text is long. Returns that tree.
proof fn code_shape(
    m: Map<u32, usize>,
    keys: Seq<u32>,
    codes: Map<u32, Seq<bool>>,
    skip: int,
    depth: int,
) -> (s: Shape)
    requires
        keys.len() >= 1,
        keys.no_duplicates(),
        prefix_free_from(keys, codes, skip),
        skip >= 0,
        depth >= 0,
    ensures
        s.weights() == frequencies(m, keys),
        s.cost(depth) <= length_from(m, keys, codes, skip, depth),
    decreases bits_left(keys, codes, skip), keys.len(),
{
    lemma_skip_one(m, keys, codes, skip, depth);
    if keys.len() == 1 {
        let k = keys[0];
        let w = m[k] as nat;
        let n = codes[k].len() as int;
        assert(keys.contains(k));
        assert(keys.drop_last() =~= Seq::<u32>::empty());
        assert(frequencies(m, keys.drop_last()) == Multiset::<nat>::empty());
        assert(length_from(m, keys.drop_last(), codes, skip, depth) == 0);
        assert(w * depth <= w * (depth + n - skip)) by (nonlinear_arith)
            requires
                w >= 0,
                n >= skip,
        ;
        let s = Shape::Leaf(w);
        assert(s.weights() =~= frequencies(m, keys));
        s
    } else {
        // With two symbols or more, no code has run out: it would begin every other.
        assert forall|a: u32| keys.contains(a) implies (#[trigger] codes[a]).len() >= skip + 1 by {
            if codes[a].len() == skip {
                let i = choose|i: int| 0 <= i < keys.len() && keys[i] == a;
                let j = if i == 0 {
                    1int
                } else {
                    0int
                };
                let b = keys[j];
                assert(keys.contains(b));
                assert(codes[a].skip(skip) =~= Seq::<bool>::empty());
                assert(codes[a].skip(skip).is_prefix_of(codes[b].skip(skip)));
            }
        }
        let zeros = select(keys, codes, skip, false);
        let ones = select(keys, codes, skip, true);
        lemma_select(keys, codes, skip, false);
        lemma_select(keys, codes, skip, true);
        lemma_select_split(m, keys, codes, skip, skip, depth);
        // Of two codes with the same next bit, neither begins the other past it.
        assert forall|a: u32, b: u32|
            keys.contains(a) && keys.contains(b) && a != b && codes[a][skip]
                == codes[b][skip] implies !(#[trigger] codes[a]).skip(skip + 1).is_prefix_of(
            (#[trigger] codes[b]).skip(skip + 1),
        ) by {
            let x = codes[a].skip(skip);
            let y = codes[b].skip(skip);
            let xs = codes[a].skip(skip + 1);
            let ys = codes[b].skip(skip + 1);
            if xs.is_prefix_of(ys) {
                assert forall|i: int| 0 <= i < x.len() implies x[i] == y[i] by {
                    if i > 0 {
                        assert(x[i] == xs[i - 1]);
                        assert(y[i] == ys[i - 1]);
                    }
                }
                assert(x.is_prefix_of(y));
            }
        }
        if zeros.len() == 0 || ones.len() == 0 {
            assert forall|a: u32, b: u32|
                keys.contains(a) && keys.contains(b) implies codes[a][skip] == codes[b][skip] by {
                if zeros.len() == 0 {
                    assert(!zeros.contains(a) && !zeros.contains(b));
                } else {
                    assert(!ones.contains(a) && !ones.contains(b));
                }
            }
            lemma_skip_one(m, keys, codes, skip + 1, depth);
            code_shape(m, keys, codes, skip + 1, depth)
        } else {
            lemma_skip_one(m, zeros, codes, skip, depth);
            lemma_skip_one(m, ones, codes, skip, depth);
            lemma_skip_one(m, zeros, codes, skip + 1, depth);
            lemma_skip_one(m, ones, codes, skip + 1, depth);
            let l = code_shape(m, zeros, codes, skip + 1, depth + 1);
            let r = code_shape(m, ones, codes, skip + 1, depth + 1);
            Shape::Fork(Box::new(l), Box::new(r))
        }
    }
}

/// Without a bit skipped and at the root, the length is that of the text.
proof fn lemma_length_from_start(m: Map<u32, usize>, keys: Seq<u32>, codes: Map<u32, Seq<bool>>)
    ensures
        length_from(m, keys, codes, 0, 0) == coded_length(m, keys, codes),
    decreases keys.len(),
{
    if keys.len() > 0 {
        lemma_length_from_start(m, keys.drop_last(), codes);
    }
}

/// No prefix-free code makes the text shorter than the code table of its
/// frequency table does: the sum over the symbols of frequency times code
/// length is least for that table. The codes compared with it are those that
/// give each symbol of the table a code, none of which begins with the whole
/// of another, and which give a symbol that occurs a code of one bit or more.
pub proof fn lemma_optimal(m: Map<u32, usize>, other: Map<u32, Seq<bool>>)
    requires
        m.dom().finite(),
        m.len() > 0,
        total_frequency(m) <= usize::MAX,
        forall|a: u32| m.contains_key(a) ==> other.contains_key(a),
        forall|a: u32, b: u32|
            m.contains_key(a) && m.contains_key(b) && a != b ==> !(
            #[trigger] other[a]).is_prefix_of(#[trigger] other[b]),
        forall|a: u32| m.contains_key(a) && m[a] > 0 ==> (#[trigger] other[a]).len() >= 1,
    ensures
        encoded_length(m, huffman_codes(m)) <= encoded_length(m, other),
{
    let keys = ascending_keys(m);
    let tree = huffman_tree(m);
    let queue = leaf_queue(m, keys);
    lemma_ascending_keys_list(m);
    lemma_huffman_tree(m);
    lemma_huffman_length(m);
    lemma_length_from_start(m, keys, other);
    assert(keys.no_duplicates());
    if m.len() >= 2 {
        assert(prefix_free_from(keys, other, 0)) by {
            assert forall|a: u32, b: u32|
                keys.contains(a) && keys.contains(b) && a != b implies !(#[trigger] other[a]).skip(
                0,
            ).is_prefix_of((#[trigger] other[b]).skip(0)) by {
                assert(other[a].skip(0) =~= other[a]);
                assert(other[b].skip(0) =~= other[b]);
            }
        }
        let shape = code_shape(m, keys, other, 0, 0);
        lemma_leaf_queue(m, keys);
        lemma_leaf_queue_weights(m, keys);
        lemma_merge_all_cost(queue);
        lemma_merge_cost_is_least(shape, weights_of(queue));
    } else {
        let k = keys[0];
        assert(keys.contains(k));
        assert(keys.drop_last() =~= Seq::<u32>::empty());
        assert(coded_length(m, keys.drop_last(), other) == 0);
        assert(tree.is_leaf()) by {
            if !tree.is_leaf() {
                tree.left.unwrap().lemma_leaf_count_positive();
                tree.right.unwrap().lemma_leaf_count_positive();
            }
        }
        assert(tree.entries().count((tree.data.unwrap(), tree.weight)) == 1);
        assert(m.contains_key(tree.data.unwrap()) && m[tree.data.unwrap()] == tree.weight);
        assert(tree.data.unwrap() == k) by {
            assert(keys.contains(tree.data.unwrap()));
        }
        let w = m[k] as int;
        let n = other[k].len() as int;
        assert(w * 1 <= w * n) by (nonlinear_arith)
            requires
                w >= 0,
                w > 0 ==> n >= 1,
                n >= 0,
        ;
    }
}

} // verus!
