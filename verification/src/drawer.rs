//! The module with the [`Drawer`] trait.

use vstd::prelude::*;

use crate::embedder::{items_view, parents_resolvable, PlacedTreeItem};

verus! {

/// The `Drawer`'s result: the rendered document as text, or the error a
/// drawer ran into.
pub type Result = crate::layouter_error::Result<String>;

/// By implementing this trait anyone can provide their own drawer, for
/// instance one that produces a bitmap format, instead of the
/// [`crate::svg_drawer::SvgDrawer`] the crate uses by default.
///
/// A drawer consumes a complete embedding: one in which every parent
/// reference resolves to the `ord` of some item, as the embedder
/// guarantees.  It returns the rendered document; persisting the document
/// is the caller's business.
pub trait Drawer {
    /// Renders the given embedding into a document.
    fn draw(&self, embedding: &[PlacedTreeItem]) -> Result
        requires
            parents_resolvable(items_view(embedding@)),
    ;
}

} // verus!
