//! The errors of the library.

use vstd::prelude::*;

verus! {

/// Why an operation of the library failed.
#[derive(Clone, Copy, Debug, PartialEq, Eq, Structural)]
pub enum HuffmanError {
    /// There is nothing to work on: the frequency table is empty, or no tree
    /// was given.
    InvalidInput,
}

} // verus!
