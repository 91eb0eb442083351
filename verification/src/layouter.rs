//! The module with the public API that ties everything together.

use vstd::prelude::*;

use crate::drawer::Drawer;
use crate::embedder::{items_view, lemma_embedding_resolvable, spec_embedding_of, Embedder};
use crate::layouter_error::LayouterError;
use crate::svg_drawer::{svg_doc, SvgDrawer};
use crate::tree::LayoutTree;

verus! {

/// The `Result` type used by the [`Layouter`].
pub type Result = crate::layouter_error::Result<String>;

/// The Layouter type provides a simple builder mechanism with a fluent
/// API: configure a tree, optionally a custom drawer and the name of the
/// output file, then let [`Layouter::write`] render the tree.
///
/// Rendering yields the document text; persisting it under the configured
/// file name is left to the caller, who owns all file handling.
pub struct Layouter<'a, 'b, 'c, D: Drawer = SvgDrawer> {
    tree: &'a LayoutTree,
    drawer: Option<&'b D>,
    file_name: Option<&'c str>,
}

impl<'a, 'b, 'c> Layouter<'a, 'b, 'c, SvgDrawer> {
    /// Creates a new Layouter with the required tree.  Until a drawer is
    /// configured the crate's own SVG drawer is used.
    pub fn new(tree: &'a LayoutTree) -> (r: Self)
        requires
            tree.wf(),
        ensures
            r.wf(),
            r.spec_tree() == tree@,
            !r.has_file_name(),
            !r.has_custom_drawer(),
    {
        Self { tree, drawer: None, file_name: None }
    }
}

impl<'a, 'b, 'c, D: Drawer> Layouter<'a, 'b, 'c, D> {
    /// Whether the configured tree is well formed.  Trees built through
    /// [`LayoutTree`]'s own methods always are.
    pub closed spec fn wf(self) -> bool {
        self.tree.wf()
    }

    /// The model of the configured tree.
    pub closed spec fn spec_tree(self) -> Seq<crate::tree::NodeView> {
        self.tree@
    }

    /// Whether an output file name has been configured.
    pub closed spec fn has_file_name(self) -> bool {
        self.file_name is Some
    }

    /// Whether a custom drawer has been configured.
    pub closed spec fn has_custom_drawer(self) -> bool {
        self.drawer is Some
    }

    /// Sets the path of the output file on the layouter.
    pub fn with_file_path(self, path: &'c str) -> (r: Self)
        ensures
            r.wf() == self.wf(),
            r.spec_tree() == self.spec_tree(),
            r.has_file_name(),
            r.has_custom_drawer() == self.has_custom_drawer(),
    {
        Self { tree: self.tree, drawer: self.drawer, file_name: Some(path) }
    }

    /// Sets a different drawer when you don't want to use the default
    /// SVG drawer.
    pub fn with_drawer<D2: Drawer>(self, drawer: &'b D2) -> (r: Layouter<'a, 'b, 'c, D2>)
        ensures
            r.wf() == self.wf(),
            r.spec_tree() == self.spec_tree(),
            r.has_file_name() == self.has_file_name(),
            r.has_custom_drawer(),
    {
        Layouter { tree: self.tree, drawer: Some(drawer), file_name: self.file_name }
    }

    /// When the layouter instance is fully configured this method invokes
    /// the necessary embedding functionality and uses the drawer to
    /// render the result into a document, which the caller then writes to
    /// the output file.
    ///
    /// Without a configured output file name the call fails with a
    /// configuration error and does no work.  With the default drawer the
    /// call always succeeds and returns exactly the SVG document of the
    /// tree's embedding; with a custom drawer it returns what the drawer
    /// returns.
    pub fn write(&self) -> (r: Result)
        requires
            self.wf(),
        ensures
            !self.has_file_name() ==> r is Err,
            self.has_file_name() && !self.has_custom_drawer() ==> r is Ok && r->Ok_0@ == svg_doc(
                spec_embedding_of(self.spec_tree()),
            ),
    {
        if self.file_name.is_none() {
            return Err(
                LayouterError::from_description(
                    "No output file name given - use Layouter::with_file_path.".to_owned(),
                ),
            );
        }
        let embedding = Embedder::embed(self.tree);
        proof {
            self.tree.lemma_wf();
            lemma_embedding_resolvable(self.tree@, items_view(embedding@));
            crate::embedder::lemma_embedding_canonical(self.tree@, items_view(embedding@));
        }
        match self.drawer {
            Some(drawer) => drawer.draw(embedding.as_slice()),
            None => {
                let default_drawer = SvgDrawer::new();
                default_drawer.draw(embedding.as_slice())
            },
        }
    }
}

} // verus!
