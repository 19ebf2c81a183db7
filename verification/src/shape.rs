//! Code trees reduced to what their cost depends on, and the bound that no
//! such tree undercuts: the cost of merging the two lightest weights again
//! and again.

use vstd::multiset::Multiset;
use vstd::prelude::*;
use vstd::seq_lib::{to_multiset_contains, to_multiset_insert, to_multiset_len, to_multiset_remove};

verus! {

/// A code tree without its symbols: a weight at each leaf.
pub enum Shape {
    Leaf(nat),
    Fork(Box<Shape>, Box<Shape>),
}

impl Shape {
    /// The weights at the leaves.
    pub open spec fn weights(self) -> Multiset<nat>
        decreases self,
    {
        match self {
            Shape::Leaf(w) => Multiset::singleton(w),
            Shape::Fork(l, r) => l.weights().add(r.weights()),
        }
    }

    /// The length of the longest path from the root to a leaf.
    pub open spec fn height(self) -> nat
        decreases self,
    {
        match self {
            Shape::Leaf(_) => 0,
            Shape::Fork(l, r) => if l.height() >= r.height() {
                l.height() + 1
            } else {
                r.height() + 1
            },
        }
    }

    /// The sum over the leaves of weight times depth, where the root stands
    /// at `depth`.
    pub open spec fn cost(self, depth: int) -> int
        decreases self,
    {
        match self {
            Shape::Leaf(w) => w * depth,
            Shape::Fork(l, r) => l.cost(depth + 1) + r.cost(depth + 1),
        }
    }
}

/// Whether no element of `ws` is less than one after it.
pub open spec fn descending(ws: Seq<nat>) -> bool {
    forall|i: int, j: int| 0 <= i < j < ws.len() ==> ws[i] >= ws[j]
}

/// Where the weight `w` enters `ws`: in front of every weight at the end of
/// `ws` that is no greater.
pub open spec fn weight_index(ws: Seq<nat>, w: nat) -> int
    decreases ws.len(),
{
    if ws.len() == 0 {
        0
    } else if ws.last() <= w {
        weight_index(ws.drop_last(), w)
    } else {
        ws.len() as int
    }
}

/// The weights after one round of merging: the last two give way to their sum.
pub open spec fn merged_weights(ws: Seq<nat>) -> Seq<nat> {
    let rest = ws.take(ws.len() - 2);
    let sum = ws[ws.len() - 1] + ws[ws.len() - 2];
    rest.insert(weight_index(rest, sum), sum)
}

/// The cost of merging the weights `ws` down to one: each round costs the sum
/// of the two weights that it merges.
pub open spec fn merge_cost(ws: Seq<nat>) -> int
    decreases ws.len(),
    via merge_cost_terminates
{
    if ws.len() < 2 {
        0
    } else {
        ws[ws.len() - 1] + ws[ws.len() - 2] + merge_cost(merged_weights(ws))
    }
}

/// Merging ends: each round leaves fewer weights.
#[via_fn]
proof fn merge_cost_terminates(ws: Seq<nat>) {
    if ws.len() >= 2 {
        lemma_merged_weights(ws);
    }
}

/// A weight enters behind a greater weight, if behind any, and in front of
/// weights that are no greater.
pub proof fn lemma_weight_index(ws: Seq<nat>, w: nat)
    ensures
        0 <= weight_index(ws, w) <= ws.len(),
        forall|i: int| weight_index(ws, w) <= i < ws.len() ==> ws[i] <= w,
        weight_index(ws, w) > 0 ==> ws[weight_index(ws, w) - 1] > w,
    decreases ws.len(),
{
    if ws.len() > 0 && ws.last() <= w {
        let rest = ws.drop_last();
        lemma_weight_index(rest, w);
        assert forall|i: int| weight_index(ws, w) <= i < ws.len() implies ws[i] <= w by {
            if i < rest.len() {
                assert(ws[i] == rest[i]);
            }
        }
    }
}

/// A round of merging takes one weight away and keeps the order.
pub proof fn lemma_merged_weights(ws: Seq<nat>)
    requires
        ws.len() >= 2,
    ensures
        merged_weights(ws).len() == ws.len() - 1,
        descending(ws) ==> descending(merged_weights(ws)),
        merged_weights(ws).to_multiset() == ws.to_multiset().remove(ws[ws.len() - 1]).remove(
            ws[ws.len() - 2],
        ).insert(ws[ws.len() - 1] + ws[ws.len() - 2]),
{
    let n = ws.len() as int;
    let rest = ws.take(n - 2);
    let sum = ws[n - 1] + ws[n - 2];
    let at = weight_index(rest, sum);
    let out = merged_weights(ws);
    lemma_weight_index(rest, sum);
    if descending(ws) {
        assert forall|i: int, j: int| 0 <= i < j < out.len() implies out[i] >= out[j] by {
            if at > 0 {
                assert(rest[at - 1] > sum);
            }
            if i < at && j > at {
                assert(out[i] == ws[i] && out[j] == ws[j - 1]);
            } else if i < at && j < at {
                assert(out[i] == ws[i] && out[j] == ws[j]);
            } else if i < at && j == at {
                assert(out[i] == ws[i]);
                assert(ws[i] >= ws[at - 1]);
            } else if i == at {
                assert(out[j] == rest[j - 1]);
            } else {
                assert(out[i] == ws[i - 1] && out[j] == ws[j - 1]);
            }
        }
    }
    to_multiset_remove(ws, n - 1);
    assert(ws.remove(n - 1) =~= ws.take(n - 1));
    to_multiset_remove(ws.take(n - 1), n - 2);
    assert(ws.take(n - 1).remove(n - 2) =~= rest);
    to_multiset_insert(rest, at, sum);
}

impl Shape {
    /// A tree has a leaf, a fork has two or more, and no cost is negative.
    pub proof fn lemma_basics(self, depth: int)
        requires
            depth >= 0,
        ensures
            self.weights().len() >= 1,
            self is Fork ==> self.weights().len() >= 2,
            self is Fork ==> self.height() >= 1,
            self.cost(depth) >= 0,
        decreases self,
    {
        match self {
            Shape::Leaf(w) => {
                assert(w * depth >= 0) by (nonlinear_arith)
                    requires
                        w >= 0,
                        depth >= 0,
                ;
            },
            Shape::Fork(l, r) => {
                l.lemma_basics(depth + 1);
                r.lemma_basics(depth + 1);
            },
        }
    }
}

/// A tree of two leaves or more has two sibling leaves at its greatest
/// depth. With one leaf of weight `v` in the place of the two and their
/// parent, the tree is no higher, and cheaper by what the two leaves cost
/// less what the new leaf costs one level up. Returns the weights of the two
/// leaves and the new tree.
proof fn merge_deepest(s: Shape, v: nat, depth: int) -> (r: (nat, nat, Shape))
    requires
        s is Fork,
    ensures
        s.weights().count(r.0) >= 1,
        s.weights().remove(r.0).count(r.1) >= 1,
        r.2.weights() == s.weights().remove(r.0).remove(r.1).insert(v),
        r.2.height() <= s.height(),
        r.2.cost(depth) == s.cost(depth) - (r.0 + r.1) * (depth + s.height()) + v * (depth
            + s.height() - 1),
    decreases s,
{
    let l = s->Fork_0;
    let r = s->Fork_1;
    match (*l, *r) {
        (Shape::Leaf(x), Shape::Leaf(y)) => {
            let t = Shape::Leaf(v);
            assert(t.weights() =~= s.weights().remove(x).remove(y).insert(v));
            assert(s.height() == 1);
            assert(l.cost(depth + 1) == x * (depth + 1));
            assert(r.cost(depth + 1) == y * (depth + 1));
            assert(s.cost(depth) == x * (depth + 1) + y * (depth + 1));
            assert((x + y) * (depth + s.height()) == x * (depth + 1) + y * (depth + 1))
                by (nonlinear_arith)
                requires
                    s.height() == 1,
            ;
            assert(v * (depth + s.height() - 1) == v * depth) by (nonlinear_arith)
                requires
                    s.height() == 1,
            ;
            (x, y, t)
        },
        _ => {
            l.lemma_basics(0);
            r.lemma_basics(0);
            if l.height() >= r.height() {
                let (x, y, l2) = merge_deepest(*l, v, depth + 1);
                let t = Shape::Fork(Box::new(l2), r);
                let deep = depth + s.height();
                assert((x + y) * (depth + 1 + l.height()) == (x + y) * deep && v * (depth + 1
                    + l.height() - 1) == v * (deep - 1)) by (nonlinear_arith)
                    requires
                        depth + 1 + l.height() == deep,
                ;
                assert(t.weights() =~= s.weights().remove(x).remove(y).insert(v));
                (x, y, t)
            } else {
                let (x, y, r2) = merge_deepest(*r, v, depth + 1);
                let t = Shape::Fork(l, Box::new(r2));
                let deep = depth + s.height();
                assert((x + y) * (depth + 1 + r.height()) == (x + y) * deep && v * (depth + 1
                    + r.height() - 1) == v * (deep - 1)) by (nonlinear_arith)
                    requires
                        depth + 1 + r.height() == deep,
                ;
                assert(t.weights() =~= s.weights().remove(x).remove(y).insert(v));
                (x, y, t)
            }
        },
    }
}

/// With the weight `v` at one leaf that had the lesser weight `w`, a tree is
/// as high as before and dearer by no more than the difference at the
/// greatest depth. Returns the new tree.
proof fn replace_weight(s: Shape, w: nat, v: nat, depth: int) -> (r: Shape)
    requires
        s.weights().count(w) >= 1,
        v >= w,
        depth >= 0,
    ensures
        r.weights() == s.weights().remove(w).insert(v),
        r.height() == s.height(),
        r.cost(depth) <= s.cost(depth) + (v - w) * (depth + s.height()),
    decreases s,
{
    match s {
        Shape::Leaf(x) => {
            let t = Shape::Leaf(v);
            assert(t.weights() =~= s.weights().remove(w).insert(v));
            assert(v * depth == w * depth + (v - w) * depth) by (nonlinear_arith);
            t
        },
        Shape::Fork(l, r) => {
            if l.weights().count(w) >= 1 {
                let l2 = replace_weight(*l, w, v, depth + 1);
                let t = Shape::Fork(Box::new(l2), r);
                assert(t.weights() =~= s.weights().remove(w).insert(v));
                assert((v - w) * (depth + 1 + l.height()) <= (v - w) * (depth + s.height()))
                    by (nonlinear_arith)
                    requires
                        v - w >= 0,
                        depth + 1 + l.height() <= depth + s.height(),
                ;
                t
            } else {
                let r2 = replace_weight(*r, w, v, depth + 1);
                let t = Shape::Fork(l, Box::new(r2));
                assert(t.weights() =~= s.weights().remove(w).insert(v));
                assert((v - w) * (depth + 1 + r.height()) <= (v - w) * (depth + s.height()))
                    by (nonlinear_arith)
                    requires
                        v - w >= 0,
                        depth + 1 + r.height() <= depth + s.height(),
                ;
                t
            }
        },
    }
}

/// The last two of weights in descending order are the least and the least
/// of the others.
proof fn lemma_two_least(ws: Seq<nat>)
    requires
        descending(ws),
        ws.len() >= 2,
    ensures
        ws.to_multiset().count(ws[ws.len() - 1]) >= 1,
        ws.to_multiset().remove(ws[ws.len() - 1]).count(ws[ws.len() - 2]) >= 1,
        forall|v: nat| #[trigger] ws.to_multiset().count(v) >= 1 ==> ws[ws.len() - 1] <= v,
        forall|v: nat| #[trigger]
            ws.to_multiset().remove(ws[ws.len() - 1]).count(v) >= 1 ==> ws[ws.len() - 2] <= v,
{
    let n = ws.len() as int;
    let all = ws.to_multiset();
    let a = ws[n - 1];
    let b = ws[n - 2];
    let front = ws.take(n - 1);
    assert forall|v: nat| all.count(v) >= 1 implies a <= v by {
        to_multiset_contains(ws, v);
        let i = choose|i: int| 0 <= i < n && ws[i] == v;
        if i < n - 1 {
            assert(ws[i] >= ws[n - 1]);
        }
    }
    to_multiset_remove(ws, n - 1);
    assert(ws.remove(n - 1) =~= front);
    assert forall|v: nat| all.remove(a).count(v) >= 1 implies b <= v by {
        to_multiset_contains(front, v);
        let i = choose|i: int| 0 <= i < front.len() && front[i] == v;
        if i < n - 2 {
            assert(ws[i] >= ws[n - 2]);
        }
    }
    assert(all.remove(a).count(b) >= 1) by {
        to_multiset_contains(front, b);
        assert(front[n - 2] == b);
    }
    assert(all.count(a) >= 1) by {
        to_multiset_contains(ws, a);
        assert(ws[n - 1] == a);
    }
}

/// Where `a` is the least weight of a tree of two leaves or more and `b` the
/// least of the others, there is a tree with one leaf of weight `a + b` in
/// the place of two leaves of these weights that is cheaper by `a + b` or
/// more. Returns that tree.
proof fn exchange(s: Shape, a: nat, b: nat) -> (r: Shape)
    requires
        s is Fork,
        s.weights().count(a) >= 1,
        s.weights().remove(a).count(b) >= 1,
        forall|v: nat| #[trigger] s.weights().count(v) >= 1 ==> a <= v,
        forall|v: nat| #[trigger] s.weights().remove(a).count(v) >= 1 ==> b <= v,
    ensures
        r.weights() == s.weights().remove(a).remove(b).insert(a + b),
        r.cost(0) + a + b <= s.cost(0),
{
    let all = s.weights();
    let top = s.height();
    let (x, y, t) = merge_deepest(s, a + b, 0);
    let (lo, hi) = if x <= y {
        (x, y)
    } else {
        (y, x)
    };
    assert(all.remove(x).remove(y) =~= all.remove(lo).remove(hi));
    assert(all.count(lo) >= 1 && all.count(hi) >= 1);
    assert(a <= lo);
    assert(all.remove(a).count(hi) >= 1);
    assert(b <= hi);
    // The lightest weight moves to the lighter of the two merged leaves.
    let t1 = if lo != a {
        replace_weight(t, a, lo, 0)
    } else {
        t
    };
    assert(t1.weights() =~= all.remove(a).remove(hi).insert(a + b));
    assert(t1.height() <= top);
    assert(t1.cost(0) <= t.cost(0) + (lo - a) * top) by {
        if lo != a {
            assert((lo - a) * (0 + t.height()) <= (lo - a) * top) by (nonlinear_arith)
                requires
                    lo - a >= 0,
                    t.height() <= top,
            ;
        } else {
            assert((lo - a) * top == 0) by (nonlinear_arith)
                requires
                    lo - a == 0,
            ;
        }
    }
    // The second lightest moves to the other.
    let t2 = if hi != b {
        replace_weight(t1, b, hi, 0)
    } else {
        t1
    };
    assert(t2.weights() =~= all.remove(a).remove(b).insert(a + b));
    assert(t2.cost(0) <= t1.cost(0) + (hi - b) * top) by {
        if hi != b {
            assert((hi - b) * (0 + t1.height()) <= (hi - b) * top) by (nonlinear_arith)
                requires
                    hi - b >= 0,
                    t1.height() <= top,
            ;
        } else {
            assert((hi - b) * top == 0) by (nonlinear_arith)
                requires
                    hi - b == 0,
            ;
        }
    }
    assert(t.cost(0) == s.cost(0) - (lo + hi) * top + (a + b) * (top - 1));
    assert(s.cost(0) - (lo + hi) * top + (a + b) * (top - 1) + (lo - a) * top + (hi - b) * top
        == s.cost(0) - (a + b)) by (nonlinear_arith);
    t2
}

/// No tree costs less than merging its weights costs: of all trees with the
/// weights `ws` at their leaves, none is cheaper than the one that comes of
/// merging the two lightest again and again.
pub proof fn lemma_merge_cost_is_least(s: Shape, ws: Seq<nat>)
    requires
        descending(ws),
        ws.to_multiset() == s.weights(),
    ensures
        s.cost(0) >= merge_cost(ws),
    decreases ws.len(),
{
    let n = ws.len() as int;
    s.lemma_basics(0);
    to_multiset_len(ws);
    if n >= 2 {
        if s is Leaf {
            assert(s.weights().len() == 1);
        }
        lemma_two_least(ws);
        let t = exchange(s, ws[n - 1], ws[n - 2]);
        lemma_merged_weights(ws);
        lemma_merge_cost_is_least(t, merged_weights(ws));
    }
}

} // verus!
