//! The visualize module provides the [`Visualize`] trait.

use vstd::prelude::*;

verus! {

/// The `Visualize` trait abstracts the visual presentation of a node's
/// data.  Implement it for the payload type of your nodes and hand the
/// results to [`crate::tree::LayoutTree::add_node`].  Only `visualize` is
/// mandatory to implement.
pub trait Visualize {
    /// Returns the string representation of the node's data.
    fn visualize(&self) -> String;

    /// When this function returns true a drawer can emphasize the node's
    /// string representation in an implementation dependent way, for
    /// instance print it bold.
    fn emphasize(&self) -> bool {
        false
    }
}

} // verus!
