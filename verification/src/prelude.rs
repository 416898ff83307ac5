//! The names that most consumers need, to be imported together.

pub use crate::{Engine, Error, Role, Tag, TagSpec, TemplateTagSpec};
