//! An in-memory filesystem-shaped tree together with a lazily evaluated
//! traversal engine over it.
//!
//! The tree is built once and never mutated afterwards; a [`iter::FilesIter`]
//! walks it in one of two orders (directory-prioritized depth-first, or
//! level-order with files before directories) under composable emission
//! filters, and a [`iter::PathsIter`] projects each visited entry to its
//! stored path. The behaviour of a whole traversal is captured by the
//! specification functions of [`model`], and the laws the engine obeys are
//! proved in [`laws`].

pub mod tree;
pub mod model;
pub mod iter;
pub mod laws;
