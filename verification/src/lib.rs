//! Huffman prefix codes: an optimal code tree from symbol frequencies, the
//! bit code of every symbol, and the packed bit buffer that holds a code.
//!
//! [`construct_huffman_tree`] builds the code tree of a frequency table, and
//! [`get_coding_scheme`] reads the code of every symbol off a tree. A code is
//! a [`BitString`]. Symbols are `u32` values, such as the code points of
//! characters.
//!
//! Every function is verified against a contract. The contracts are stated
//! over a model: a tree is a [`Node`] value, a bit buffer is the sequence of
//! its bits, and the tree of a table is [`builder::huffman_tree`]. What
//! follows for every table is proved in [`laws`] and [`optimal`]: the codes
//! are prefix-free, a code is as long as its leaf is deep, the same table
//! gives the same codes, and no prefix-free code encodes a text with these
//! frequencies in fewer bits.

pub mod bitstring;
pub mod builder;
pub mod coding;
pub mod error;
pub mod laws;
pub mod node;
pub mod node_queue;
pub mod optimal;
pub mod ordering;
pub mod queue;
pub mod shape;

pub use bitstring::BitString;
pub use builder::{construct_huffman_tree, frequencies_fit};
pub use coding::get_coding_scheme;
pub use error::HuffmanError;
pub use node::Node;
