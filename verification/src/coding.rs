//! From a code tree to the code of every symbol.

use crate::bitstring::{BitString, MAX_BITS};
use crate::error::HuffmanError;
use crate::laws::{lemma_code_length_is_depth, lemma_code_table_prefix_free, prefix_free};
use crate::node::Node;
use std::collections::HashMap;
use vstd::prelude::*;

verus! {

/// The bits of every code in `m`.
pub open spec fn code_views(m: Map<u32, BitString>) -> Map<u32, Seq<bool>> {
    m.map_values(|b: BitString| b@)
}

/// A subtree that the traversal has yet to visit: the node, its depth, and
/// the branch that leads to it from its parent.
type Frame<'a> = (&'a Node<u32>, usize, bool);

/// The code table once the subtrees on the stack are recorded on top of
/// `acc`, the top of the stack first.
spec fn pending(stack: Seq<Frame>, paths: Seq<Seq<bool>>, acc: Map<u32, Seq<bool>>) -> Map<
    u32,
    Seq<bool>,
>
    decreases stack.len(),
{
    if stack.len() == 0 {
        acc
    } else {
        pending(
            stack.drop_last(),
            paths.drop_last(),
            acc.union_prefer_right(stack.last().0.codes(paths.last())),
        )
    }
}

/// The number of nodes in the subtrees on the stack.
spec fn pending_nodes(stack: Seq<Frame>) -> int
    decreases stack.len(),
{
    if stack.len() == 0 {
        0
    } else {
        pending_nodes(stack.drop_last()) + 2 * stack.last().0.leaf_count() - 1
    }
}

/// No stack holds fewer than no nodes.
proof fn lemma_pending_nodes_nonneg(stack: Seq<Frame>)
    ensures
        pending_nodes(stack) >= 0,
    decreases stack.len(),
{
    if stack.len() > 0 {
        lemma_pending_nodes_nonneg(stack.drop_last());
        stack.last().0.lemma_leaf_count_positive();
    }
}

/// What the traversal knows of the stack while the buffer holds `buf`: each
/// frame's path is as long as the frame is deep and ends in the frame's
/// branch, the path of its parent is still in the buffer, and no frame lies
/// deeper than one above it. The frame of the root is alone on the stack,
/// before anything is in the buffer.
spec fn stack_ok(stack: Seq<Frame>, paths: Seq<Seq<bool>>, buf: Seq<bool>, limit: nat) -> bool {
    &&& paths.len() == stack.len()
    &&& forall|k: int|
        0 <= k < stack.len() ==> {
            &&& (#[trigger] stack[k]).0.wf()
            &&& paths[k].len() == stack[k].1
            &&& stack[k].1 + stack[k].0.height() <= limit
            &&& stack[k].1 == 0 ==> stack.len() == 1 && buf.len() == 0
            &&& stack[k].1 >= 1 ==> {
                &&& paths[k].last() == stack[k].2
                &&& stack[k].1 - 1 <= buf.len()
                &&& buf.take(stack[k].1 - 1) == paths[k].drop_last()
            }
        }
    &&& forall|j: int, k: int|
        0 <= j < k < stack.len() ==> (#[trigger] stack[j]).1 <= (#[trigger] stack[k]).1
}

/// The code of every symbol of the tree `head_node`: the path from the root to
/// the symbol's leaf, `false` for a step to the left and `true` for a step to
/// the right. A tree that is a single leaf gives its symbol the code `0`.
/// Without a tree there is nothing to assign, which is an error.
///
/// The codes are prefix-free, and in a tree of more than one leaf a code has
/// as many bits as its leaf lies below the root.
pub fn get_coding_scheme(head_node: Option<&Node<u32>>) -> (result: Result<
    HashMap<u32, BitString>,
    HuffmanError,
>)
    requires
        head_node matches Some(root) ==> root.wf() && root.height() <= MAX_BITS,
    ensures
        head_node is None ==> result == Err::<HashMap<u32, BitString>, HuffmanError>(
            HuffmanError::InvalidInput,
        ),
        head_node matches Some(root) ==> {
            &&& result matches Ok(table)
            &&& code_views(table@) == root.code_table()
            &&& table@.dom() == root.code_table().dom()
            &&& forall|s: u32|
                table@.contains_key(s) ==> (#[trigger] table@[s]).wf() && table@[s]@
                    == root.code_table()[s]
            &&& prefix_free(code_views(table@))
            &&& !root.is_leaf() ==> forall|s: u32|
                table@.contains_key(s) ==> root.depth_of(s) == Some((#[trigger] table@[s])@.len())
        },
{
    let root = match head_node {
        None => {
            return Err(HuffmanError::InvalidInput);
        },
        Some(root) => root,
    };
    let mut code_map: HashMap<u32, BitString> = HashMap::new();
    let mut bs = BitString::new();
    match (&root.left, &root.right) {
        (Some(_), Some(_)) => {},
        _ => {
            bs.set_bit(false);
            let symbol: u32 = root.data.unwrap();
            code_map.insert(symbol, bs);
            proof {
                assert(Seq::<bool>::empty().push(false) =~= seq![false]);
                assert(code_views(code_map@) =~= root.code_table());
                assert(code_map@.dom() =~= code_views(code_map@).dom());
                lemma_code_table_prefix_free(*root);
            }
            return Ok(code_map);
        },
    }
    let mut stack: Vec<Frame> = Vec::new();
    stack.push((root, 0, false));
    let ghost mut paths: Seq<Seq<bool>> = seq![Seq::empty()];
    proof {
        let acc = code_views(code_map@);
        assert(acc =~= Map::empty());
        assert(stack@.drop_last() =~= Seq::<Frame>::empty());
        assert(acc.union_prefer_right(root.codes(Seq::empty())) =~= root.codes(Seq::empty()));
        assert(pending(stack@.drop_last(), paths.drop_last(), root.codes(Seq::empty()))
            == root.codes(Seq::empty()));
    }
    while stack.len() > 0
        invariant
            root.wf(),
            root.height() <= MAX_BITS,
            bs.wf(),
            stack_ok(stack@, paths, bs@, root.height()),
            forall|s: u32| code_map@.contains_key(s) ==> (#[trigger] code_map@[s]).wf(),
            pending(stack@, paths, code_views(code_map@)) == root.codes(Seq::empty()),
        decreases pending_nodes(stack@),
    {
        let ghost old_stack = stack@;
        let ghost old_paths = paths;
        let ghost old_buf = bs@;
        let ghost old_acc = code_views(code_map@);
        let (node, depth, bit) = stack.pop().unwrap();
        let ghost path = paths.last();
        proof {
            paths = paths.drop_last();
            let top = old_stack.len() - 1;
            assert(old_stack[top] == (node, depth, bit));
            assert(old_stack.drop_last() =~= stack@);
            lemma_pending_nodes_nonneg(stack@);
            node.lemma_leaf_count_positive();
        }
        if depth > 0 {
            proof {
                assert(old_buf.take(depth - 1) == path.drop_last());
                assert(path =~= path.drop_last().push(bit));
            }
            let have = bs.bit_len();
            if have > depth - 1 {
                bs.unset(have - (depth - 1));
            }
            bs.set_bit(bit);
        }
        proof {
            assert(bs@ =~= path);
            assert forall|k: int| 0 <= k < stack@.len() implies {
                &&& (#[trigger] stack@[k]).1 >= 1
                &&& bs@.take(stack@[k].1 - 1) == paths[k].drop_last()
            } by {
                assert(stack@[k] == old_stack[k]);
                assert(old_stack[k].1 <= old_stack[old_stack.len() - 1].1);
                assert(paths[k] == old_paths[k]);
                assert(bs@.take(stack@[k].1 - 1) =~= old_buf.take(stack@[k].1 - 1));
            }
            assert(stack_ok(stack@, paths, bs@, root.height()));
        }
        match (&node.left, &node.right) {
            (Some(l), Some(r)) => {
                let ghost below = stack@;
                let ghost below_paths = paths;
                stack.push((&**r, depth + 1, true));
                stack.push((&**l, depth + 1, false));
                proof {
                    paths = paths.push(path.push(true)).push(path.push(false));
                    let s2 = stack@;
                    let s1 = s2.drop_last();
                    assert(s1 =~= below.push((&**r, (depth + 1) as usize, true)));
                    assert(s1.drop_last() =~= below);
                    assert(paths.drop_last() =~= below_paths.push(path.push(true)));
                    assert(paths.drop_last().drop_last() =~= below_paths);
                    assert(path.push(true).drop_last() =~= path);
                    assert(path.push(false).drop_last() =~= path);
                    assert(bs@.take(depth as int) =~= path);
                    let a1 = old_acc.union_prefer_right(l.codes(path.push(false)));
                    let a2 = a1.union_prefer_right(r.codes(path.push(true)));
                    assert(a2 =~= old_acc.union_prefer_right(node.codes(path)));
                    assert(pending(s1, paths.drop_last(), a1) == pending(below, below_paths, a2));
                    assert(pending(s2, paths, old_acc) == pending(s1, paths.drop_last(), a1));
                    assert(stack_ok(stack@, paths, bs@, root.height()));
                    assert(pending_nodes(s1) == pending_nodes(below) + 2 * r.leaf_count() - 1);
                    assert(pending_nodes(s2) == pending_nodes(s1) + 2 * l.leaf_count() - 1);
                }
            },
            _ => {
                let symbol: u32 = node.data.unwrap();
                let code = bs.clone();
                code_map.insert(symbol, code);
                proof {
                    assert(code_views(code_map@) =~= old_acc.union_prefer_right(
                        node.codes(path),
                    ));
                }
            },
        }
    }
    proof {
        assert(code_map@.dom() =~= code_views(code_map@).dom());
        assert forall|s: u32| code_map@.contains_key(s) implies (#[trigger] code_map@[s])@
            == root.code_table()[s] && root.depth_of(s) == Some(code_map@[s]@.len()) by {
            assert(code_views(code_map@)[s] == code_map@[s]@);
            lemma_code_length_is_depth(*root, s);
        }
        lemma_code_table_prefix_free(*root);
    }
    Ok(code_map)
}

} // verus!
