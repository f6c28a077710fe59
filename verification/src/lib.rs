//! Keeps a single reusable model in step with the throwaway place document
//! that an external scene editor works on.
//!
//! The scene graphs are `rbx_dom_weak` documents. Everything this crate decides
//! about them is verified: which subtree may move, what the host document
//! looks like, what is taken back out of it, when a burst of writes counts as
//! one save. The document type itself is reached through a small trusted layer
//! in [`dom`].
//!
//! - [`dom`]: the trusted layer and the model of a document.
//! - [`tree`]: the shape of a document, over the model.
//! - [`graph`]: the scene graph and its single-node operations.
//! - [`transplant`]: moving subtrees between graphs.
//! - [`host`]: building the host document and extracting the model from it.
//! - [`watch`]: the debounce state machine of the watch loop.
//! - [`session`]: the model's format and the exit code.
//! - [`wellformed`], [`moves`], [`roundtrip`]: what holds of graphs that are
//!   trees, proved.

pub mod dom;
pub mod graph;
pub mod host;
pub mod moves;
pub mod roundtrip;
pub mod session;
pub mod transplant;
pub mod tree;
pub mod watch;
pub mod wellformed;
