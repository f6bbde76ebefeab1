//! A byte container that supports cheap replacement of sub-ranges of its
//! content and remembers which ranges have already been replaced.
//!
//! The content is held as an ordered list of segments. [`Data`] is the
//! container; the module `model` holds the mathematical description of a
//! replacement, the module `laws` the properties proved of it, and the module
//! `lemmas` the facts that those proofs rest on.

pub mod data;
pub mod laws;
pub mod lemmas;
pub mod model;

pub use data::Data;
pub use model::ReplaceError;
pub use model::Segment;
pub use model::State;
