//! The nodes of a code tree, and what a tree says about the code of each symbol.

use vstd::multiset::Multiset;
use vstd::prelude::*;

verus! {

/// A node of a code tree: a leaf that holds one symbol, or an internal node
/// with two children.
#[derive(Debug)]
pub struct Node<T> {
    pub left: Option<Box<Node<T>>>,
    pub right: Option<Box<Node<T>>>,
    pub weight: usize,
    pub data: Option<T>,
}

/// The leaf for the symbol `data` with the frequency `weight`.
pub open spec fn leaf_node<T>(data: T, weight: usize) -> Node<T> {
    Node { left: None, right: None, weight, data: Some(data) }
}

/// The internal node above `left` and `right`; its weight is the sum of theirs.
pub open spec fn branch_node<T>(left: Node<T>, right: Node<T>) -> Node<T> {
    Node {
        left: Some(Box::new(left)),
        right: Some(Box::new(right)),
        weight: (left.weight + right.weight) as usize,
        data: None,
    }
}

impl<T> Node<T> {
    /// A node without children.
    pub open spec fn is_leaf(&self) -> bool {
        self.left is None && self.right is None
    }

    /// The invariant of a code tree: a node has a symbol exactly if it has no
    /// children, it has both children or none, and the weight of an internal
    /// node is the sum of its children's weights.
    pub open spec fn wf(&self) -> bool
        decreases self,
    {
        match self.left {
            None => self.right is None && self.data is Some,
            Some(l) => match self.right {
                None => false,
                Some(r) => {
                    &&& self.data is None
                    &&& l.wf()
                    &&& r.wf()
                    &&& self.weight == l.weight + r.weight
                },
            },
        }
    }

    /// The length of the longest path from this node down to a leaf.
    pub open spec fn height(&self) -> nat
        decreases self,
    {
        match self.left {
            None => 0,
            Some(l) => match self.right {
                None => 0,
                Some(r) => if l.height() >= r.height() {
                    l.height() + 1
                } else {
                    r.height() + 1
                },
            },
        }
    }

    /// The number of leaves below this node, itself included.
    pub open spec fn leaf_count(&self) -> nat
        decreases self,
    {
        match self.left {
            None => 1,
            Some(l) => match self.right {
                None => 1,
                Some(r) => l.leaf_count() + r.leaf_count(),
            },
        }
    }

    /// The symbols at the leaves below this node.
    pub open spec fn symbols(&self) -> Set<T>
        decreases self,
    {
        match self.left {
            None => match self.data {
                Some(s) => set![s],
                None => Set::empty(),
            },
            Some(l) => match self.right {
                None => Set::empty(),
                Some(r) => l.symbols().union(r.symbols()),
            },
        }
    }

    /// The leaves below this node, each as its symbol and its weight.
    pub open spec fn entries(&self) -> Multiset<(T, usize)>
        decreases self,
    {
        match self.left {
            None => match self.data {
                Some(s) => Multiset::singleton((s, self.weight)),
                None => Multiset::empty(),
            },
            Some(l) => match self.right {
                None => Multiset::empty(),
                Some(r) => l.entries().add(r.entries()),
            },
        }
    }

    /// The leaves below this node from left to right, each as its symbol and
    /// its weight.
    pub open spec fn leaves(&self) -> Seq<(T, usize)>
        decreases self,
    {
        match self.left {
            None => match self.data {
                Some(s) => seq![(s, self.weight)],
                None => Seq::empty(),
            },
            Some(l) => match self.right {
                None => Seq::empty(),
                Some(r) => l.leaves() + r.leaves(),
            },
        }
    }

    /// Whether no symbol stands at two leaves below this node.
    pub open spec fn distinct(&self) -> bool
        decreases self,
    {
        match self.left {
            None => true,
            Some(l) => match self.right {
                None => true,
                Some(r) => l.distinct() && r.distinct() && l.symbols().disjoint(r.symbols()),
            },
        }
    }

    /// The node that `path` leads to from this node, where `false` goes to
    /// the left child and `true` to the right one; `None` where the path
    /// leaves the tree.
    pub open spec fn descend(&self, path: Seq<bool>) -> Option<Node<T>>
        decreases path.len(),
    {
        if path.len() == 0 {
            Some(*self)
        } else {
            match (self.left, self.right) {
                (Some(l), Some(r)) => if path[0] {
                    r.descend(path.drop_first())
                } else {
                    l.descend(path.drop_first())
                },
                _ => None,
            }
        }
    }

    /// The code of every symbol below this node, where the code of this node
    /// itself is `prefix`: a step to the left appends `false`, a step to the
    /// right appends `true`. Where a symbol stands at several leaves, the
    /// rightmost of them gives its code.
    pub open spec fn codes(&self, prefix: Seq<bool>) -> Map<T, Seq<bool>>
        decreases self,
    {
        match self.left {
            None => match self.data {
                Some(s) => map![s => prefix],
                None => Map::empty(),
            },
            Some(l) => match self.right {
                None => Map::empty(),
                Some(r) => l.codes(prefix.push(false)).union_prefer_right(
                    r.codes(prefix.push(true)),
                ),
            },
        }
    }

    /// How far below this node the leaf of the symbol `s` is; where it stands
    /// at several leaves, the rightmost of them counts.
    pub open spec fn depth_of(&self, s: T) -> Option<nat>
        decreases self,
    {
        match self.left {
            None => if self.data == Some(s) {
                Some(0nat)
            } else {
                None
            },
            Some(l) => match self.right {
                None => None,
                Some(r) => match r.depth_of(s) {
                    Some(d) => Some(d + 1),
                    None => match l.depth_of(s) {
                        Some(d) => Some(d + 1),
                        None => None,
                    },
                },
            },
        }
    }

    /// The code table of the tree with this root. A root that is a leaf gives
    /// its symbol the one-bit code `0`: no symbol has an empty code.
    pub open spec fn code_table(&self) -> Map<T, Seq<bool>> {
        if self.is_leaf() {
            self.codes(seq![false])
        } else {
            self.codes(Seq::empty())
        }
    }

    /// The total length of a text in which every leaf's symbol occurs as
    /// often as its weight says, when this node stands `depth` below the root:
    /// the sum over the leaves of weight times depth.
    pub open spec fn cost(&self, depth: int) -> int
        decreases self,
    {
        match self.left {
            None => self.weight * depth,
            Some(l) => match self.right {
                None => self.weight * depth,
                Some(r) => l.cost(depth + 1) + r.cost(depth + 1),
            },
        }
    }

    /// Below a well-formed node, every code starts with the node's own code,
    /// the code of a symbol is as much longer as the symbol's leaf lies deeper,
    /// the code leads from the node to that leaf, and the symbols with a code
    /// are those at the leaves.
    pub proof fn lemma_codes(&self, prefix: Seq<bool>, s: T)
        requires
            self.wf(),
        ensures
            self.codes(prefix).contains_key(s) <==> self.symbols().contains(s),
            self.codes(prefix).contains_key(s) <==> self.depth_of(s) is Some,
            self.codes(prefix).contains_key(s) ==> {
                let code = self.codes(prefix)[s];
                &&& prefix.is_prefix_of(code)
                &&& code.len() == prefix.len() + self.depth_of(s).unwrap()
                &&& self.descend(code.skip(prefix.len() as int)) matches Some(leaf)
                &&& leaf.is_leaf()
                &&& leaf.data == Some(s)
            },
        decreases self,
    {
        match (self.left, self.right) {
            (Some(l), Some(r)) => {
                let lp = prefix.push(false);
                let rp = prefix.push(true);
                l.lemma_codes(lp, s);
                r.lemma_codes(rp, s);
                if self.codes(prefix).contains_key(s) {
                    let code = self.codes(prefix)[s];
                    let tail = code.skip(prefix.len() as int);
                    assert(tail.drop_first() =~= code.skip(prefix.len() as int + 1));
                    if r.codes(rp).contains_key(s) {
                        assert(code[prefix.len() as int] == rp[prefix.len() as int]);
                    } else {
                        assert(code[prefix.len() as int] == lp[prefix.len() as int]);
                    }
                }
            },
            _ => {
                assert(prefix.skip(prefix.len() as int) =~= Seq::<bool>::empty());
            },
        }
    }

    /// Below a well-formed node, the code of no symbol begins with the whole
    /// code of another symbol.
    pub proof fn lemma_codes_prefix_free(&self, prefix: Seq<bool>, a: T, b: T)
        requires
            self.wf(),
            self.codes(prefix).contains_key(a),
            self.codes(prefix).contains_key(b),
            a != b,
        ensures
            !self.codes(prefix)[a].is_prefix_of(self.codes(prefix)[b]),
        decreases self,
    {
        match (self.left, self.right) {
            (Some(l), Some(r)) => {
                let lp = prefix.push(false);
                let rp = prefix.push(true);
                let at = prefix.len() as int;
                let ca = self.codes(prefix)[a];
                let cb = self.codes(prefix)[b];
                l.lemma_codes(lp, a);
                l.lemma_codes(lp, b);
                r.lemma_codes(rp, a);
                r.lemma_codes(rp, b);
                let a_right = r.codes(rp).contains_key(a);
                let b_right = r.codes(rp).contains_key(b);
                if a_right && b_right {
                    r.lemma_codes_prefix_free(rp, a, b);
                } else if !a_right && !b_right {
                    l.lemma_codes_prefix_free(lp, a, b);
                } else {
                    assert(ca[at] == if a_right {
                        rp[at]
                    } else {
                        lp[at]
                    });
                    assert(cb[at] == if b_right {
                        rp[at]
                    } else {
                        lp[at]
                    });
                    if ca.is_prefix_of(cb) {
                        assert(ca[at] == cb[at]);
                    }
                }
            },
            _ => {},
        }
    }

    /// A well-formed tree has as many leaves as entries, is less high than it
    /// has leaves, and has the symbols of its entries.
    pub proof fn lemma_entries(&self)
        requires
            self.wf(),
        ensures
            self.entries().len() == self.leaf_count(),
            self.height() < self.leaf_count(),
            forall|s: T, w: usize| self.entries().count((s, w)) > 0 ==> self.symbols().contains(s),
            forall|s: T|
                self.symbols().contains(s) ==> exists|w: usize|
                    self.entries().count((s, w)) > 0,
        decreases self,
    {
        match (self.left, self.right) {
            (Some(l), Some(r)) => {
                l.lemma_entries();
                r.lemma_entries();
                assert forall|s: T| self.symbols().contains(s) implies exists|w: usize|
                    self.entries().count((s, w)) > 0 by {
                    if l.symbols().contains(s) {
                        let w = choose|w: usize| l.entries().count((s, w)) > 0;
                        assert(self.entries().count((s, w)) > 0);
                    } else {
                        assert(r.symbols().contains(s));
                        let w = choose|w: usize| r.entries().count((s, w)) > 0;
                        assert(self.entries().count((s, w)) > 0);
                    }
                }
            },
            _ => {
                assert(self.entries().count((self.data.unwrap(), self.weight)) > 0);
            },
        }
    }

    /// The leaves of a well-formed tree are its entries, and their symbols
    /// its symbols.
    pub proof fn lemma_leaves(&self)
        requires
            self.wf(),
        ensures
            self.leaves().to_multiset() == self.entries(),
            forall|i: int|
                0 <= i < self.leaves().len() ==> self.symbols().contains(
                    (#[trigger] self.leaves()[i]).0,
                ),
        decreases self,
    {
        match (self.left, self.right) {
            (Some(l), Some(r)) => {
                l.lemma_leaves();
                r.lemma_leaves();
                vstd::seq_lib::lemma_multiset_commutative(l.leaves(), r.leaves());
                assert forall|i: int| 0 <= i < self.leaves().len() implies self.symbols().contains(
                    (#[trigger] self.leaves()[i]).0,
                ) by {
                    if i < l.leaves().len() {
                        assert(self.leaves()[i] == l.leaves()[i]);
                    } else {
                        assert(self.leaves()[i] == r.leaves()[i - l.leaves().len()]);
                    }
                }
            },
            _ => {
                let e = (self.data.unwrap(), self.weight);
                assert(self.leaves() =~= Seq::<(T, usize)>::empty().push(e));
                vstd::seq_lib::to_multiset_build(Seq::<(T, usize)>::empty(), e);
                assert forall|x: (T, usize)|
                    Seq::<(T, usize)>::empty().to_multiset().count(x) == 0 by {
                    vstd::seq_lib::to_multiset_contains(Seq::<(T, usize)>::empty(), x);
                }
                assert(self.leaves().to_multiset() =~= self.entries());
            },
        }
    }

    /// A well-formed tree in which each symbol has one entry has each symbol
    /// at one leaf.
    pub proof fn lemma_distinct(&self)
        requires
            self.wf(),
            forall|s: T, v: usize, w: usize|
                self.entries().count((s, v)) >= 1 && self.entries().count((s, w)) >= 1 ==> v == w
                    && self.entries().count((s, v)) == 1,
        ensures
            self.distinct(),
        decreases self,
    {
        match (self.left, self.right) {
            (Some(l), Some(r)) => {
                assert forall|s: T, v: usize, w: usize|
                    l.entries().count((s, v)) >= 1 && l.entries().count((s, w)) >= 1 implies v == w
                    && l.entries().count((s, v)) == 1 by {
                    assert(self.entries().count((s, v)) >= 1 && self.entries().count((s, w)) >= 1);
                }
                assert forall|s: T, v: usize, w: usize|
                    r.entries().count((s, v)) >= 1 && r.entries().count((s, w)) >= 1 implies v == w
                    && r.entries().count((s, v)) == 1 by {
                    assert(self.entries().count((s, v)) >= 1 && self.entries().count((s, w)) >= 1);
                }
                l.lemma_distinct();
                r.lemma_distinct();
                l.lemma_entries();
                r.lemma_entries();
                assert forall|s: T| !(l.symbols().contains(s) && r.symbols().contains(s)) by {
                    if l.symbols().contains(s) && r.symbols().contains(s) {
                        let v = choose|v: usize| l.entries().count((s, v)) > 0;
                        let w = choose|w: usize| r.entries().count((s, w)) > 0;
                        assert(self.entries().count((s, v)) >= 1 && self.entries().count((s, w))
                            >= 1);
                    }
                }
            },
            _ => {},
        }
    }

    /// Every node has a leaf below it or is one.
    pub proof fn lemma_leaf_count_positive(&self)
        ensures
            self.leaf_count() >= 1,
        decreases self,
    {
        match (self.left, self.right) {
            (Some(l), Some(r)) => {
                l.lemma_leaf_count_positive();
                r.lemma_leaf_count_positive();
            },
            _ => {},
        }
    }

    /// A leaf for the symbol `data` with the frequency `weight`.
    pub fn leaf(data: T, weight: usize) -> (n: Self)
        ensures
            n == leaf_node(data, weight),
            n.wf(),
    {
        Node { left: None, right: None, weight, data: Some(data) }
    }

    /// An internal node above `left` and `right`.
    pub fn branch(left: Self, right: Self) -> (n: Self)
        requires
            left.weight + right.weight <= usize::MAX,
        ensures
            n == branch_node(left, right),
            left.wf() && right.wf() ==> n.wf(),
    {
        let weight = left.weight + right.weight;
        Node { left: Some(Box::new(left)), right: Some(Box::new(right)), weight, data: None }
    }
}

} // verus!
