//! Layout of ordered, rooted trees in the plane.
//!
//! The embedder assigns every node of a tree a vertical level and a
//! horizontal center so that parents sit centered above the packed
//! footprints of their children and sibling subtrees never overlap.  The
//! resulting embedding can be rendered as an SVG document.
//!
//! The input tree is a [`LayoutTree`], an arena the caller fills through
//! its insertion methods; [`Embedder::embed`] computes the embedding;
//! [`SvgDrawer`] renders it; [`Layouter`] ties the three together behind a
//! builder API.  Every step is specified against the layout model in
//! [`model`] and verified, and the properties of the layout are stated as
//! proof functions in [`laws`].

pub use drawer::Drawer;
pub use embedder::{Embedder, Embedding, PlacedTreeItem};
pub use layouter::{Layouter, Result};
pub use layouter_error::LayouterError;
pub use svg_drawer::SvgDrawer;
pub use tree::LayoutTree;
pub use visualize::Visualize;

pub mod ancestry;
pub mod drawer;
pub mod embedder;
pub mod laws;
pub mod layouter;
pub mod layouter_error;
pub mod model;
pub mod svg_drawer;
pub mod svg_text;
pub mod tree;
pub mod visualize;
