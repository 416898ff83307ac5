//! Identifiers and the rule records attached to them.

pub mod object;
pub mod role;
pub mod rules;

pub use self::object::{tag_names, Tag};
pub use self::role::{role_names, Role};
pub use self::rules::{TagSpec, TemplateTagSpec};
