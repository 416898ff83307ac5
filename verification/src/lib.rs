//! A library to enforce user-specified tag relationships.
//!
//! A registry of tags, tag groups and roles, with per-tag rules, decides
//! whether a tagset (or a change to one) observes every rule: tag A
//! conflicting with tags B or C, requiring the presence of tag D, or being
//! reserved to the holders of some role.
//!
//! What the tags mean, and what they are applied to, is up to the consumer.
//!
//! The contracts are written over the model of [`model`]; what follows from
//! them for every registry and every tagset is proved in [`laws`].

pub mod engine;
pub mod error;
pub mod laws;
pub mod load;
pub mod model;
pub mod prelude;
pub mod tag;
pub mod text;

pub use self::engine::Engine;
pub use self::error::Error;
pub use self::tag::{Role, Tag, TagSpec, TemplateTagSpec};

use vstd::prelude::*;

verus! {

/// An alias for the result type of the standard library.
pub type StdResult<T, E> = std::result::Result<T, E>;

/// A result with the [`Error`] of this crate.
pub type Result<T> = StdResult<T, Error>;

} // verus!
