//! What holds of every code table that the library makes.

use crate::bitstring::{packed, BitString};
use crate::builder::{huffman_tree, lemma_huffman_tree, total_frequency};
use crate::coding::code_views;
use crate::node::Node;
use vstd::prelude::*;

verus! {

/// Whether no code of `table` begins with the whole code of another symbol.
pub open spec fn prefix_free<T>(table: Map<T, Seq<bool>>) -> bool {
    forall|a: T, b: T|
        table.contains_key(a) && table.contains_key(b) && a != b ==> !(
        #[trigger] table[a]).is_prefix_of(#[trigger] table[b])
}

/// The code table of a frequency table: that of its code tree.
pub open spec fn huffman_codes(m: Map<u32, usize>) -> Map<u32, Seq<bool>> {
    huffman_tree(m).code_table()
}

/// The code table of a well-formed tree is prefix-free, gives a code to each
/// symbol of the tree and to nothing else, and holds no empty code.
pub proof fn lemma_code_table_prefix_free<T>(root: Node<T>)
    requires
        root.wf(),
    ensures
        prefix_free(root.code_table()),
        root.code_table().dom() == root.symbols(),
        forall|s: T|
            root.code_table().contains_key(s) ==> (#[trigger] root.code_table()[s]).len() >= 1,
{
    let table = root.code_table();
    let prefix = if root.is_leaf() {
        seq![false]
    } else {
        Seq::<bool>::empty()
    };
    assert forall|a: T, b: T| table.contains_key(a) && table.contains_key(b) && a != b implies !(
    #[trigger] table[a]).is_prefix_of(#[trigger] table[b]) by {
        root.lemma_codes_prefix_free(prefix, a, b);
    }
    assert forall|s: T| table.contains_key(s) <==> root.symbols().contains(s) by {
        root.lemma_codes(prefix, s);
    }
    assert(table.dom() =~= root.symbols());
    assert forall|s: T| table.contains_key(s) implies (#[trigger] table[s]).len() >= 1 by {
        root.lemma_codes(prefix, s);
    }
}

/// In the code table of a well-formed tree with more than one leaf, the code
/// of a symbol has as many bits as the symbol's leaf lies below the root, and
/// followed from the root it leads to that leaf.
pub proof fn lemma_code_length_is_depth<T>(root: Node<T>, s: T)
    requires
        root.wf(),
        !root.is_leaf(),
        root.code_table().contains_key(s),
    ensures
        root.depth_of(s) == Some(root.code_table()[s].len()),
        root.descend(root.code_table()[s]) matches Some(leaf) && leaf.is_leaf() && leaf.data
            == Some(s),
{
    root.lemma_codes(Seq::empty(), s);
    assert(root.code_table()[s].skip(0) =~= root.code_table()[s]);
}

/// In the code table of a tree that is one leaf, the code of the one symbol
/// is the single bit `0`.
pub proof fn lemma_single_leaf_code<T>(root: Node<T>)
    requires
        root.wf(),
        root.is_leaf(),
    ensures
        root.code_table() == map![root.data.unwrap() => seq![false]],
{
}

/// The code table of a frequency table that is not empty, and whose
/// frequencies fit together into a `usize`, is prefix-free and gives a code
/// of one bit or more to each symbol of the table and to nothing else.
pub proof fn lemma_huffman_codes(m: Map<u32, usize>)
    requires
        m.dom().finite(),
        m.len() > 0,
        total_frequency(m) <= usize::MAX,
    ensures
        prefix_free(huffman_codes(m)),
        huffman_codes(m).dom() == m.dom(),
        forall|s: u32| m.contains_key(s) ==> (#[trigger] huffman_codes(m)[s]).len() >= 1,
{
    lemma_huffman_tree(m);
    lemma_code_table_prefix_free(huffman_tree(m));
}

/// Building the tree of one frequency table twice, and assigning codes from
/// each of the two trees, gives the same codes, bit for bit and byte for byte.
pub proof fn lemma_deterministic(
    m: Map<u32, usize>,
    first_tree: Node<u32>,
    second_tree: Node<u32>,
    first_codes: Map<u32, BitString>,
    second_codes: Map<u32, BitString>,
)
    requires
        first_tree == huffman_tree(m),
        second_tree == huffman_tree(m),
        code_views(first_codes) == first_tree.code_table(),
        code_views(second_codes) == second_tree.code_table(),
    ensures
        first_tree == second_tree,
        first_codes.dom() == second_codes.dom(),
        forall|s: u32|
            first_codes.contains_key(s) ==> {
                &&& (#[trigger] first_codes[s])@ == second_codes[s]@
                &&& packed(first_codes[s]@) == packed(second_codes[s]@)
            },
{
    assert(first_codes.dom() =~= code_views(first_codes).dom());
    assert(second_codes.dom() =~= code_views(second_codes).dom());
    assert forall|s: u32| first_codes.contains_key(s) implies (#[trigger] first_codes[s])@
        == second_codes[s]@ by {
        assert(code_views(first_codes)[s] == first_codes[s]@);
        assert(code_views(second_codes)[s] == second_codes[s]@);
    }
}

} // verus!
