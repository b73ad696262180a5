//! A rule-driven generator of named attributes and the small text-template
//! language that renders what it generated.
//!
//! A [`Template`] holds attributes, each with a [`Generator`] that says how
//! its value is produced and with [`Requirement`]s that gate it. One run
//! settles the presets, then generates the attributes in their order; a
//! [`Formatting`] renders the result as text.

pub mod attribute;
pub mod chance;
pub mod dict;
pub mod formatting;
pub mod generate;
pub mod order;
pub mod query;
pub mod random;
pub mod requirement;
pub mod resolve;
pub mod template;
pub mod text;

pub use crate::attribute::{Attribute, Attributes, Generator};
pub use crate::chance::Chance;
pub use crate::dict::Dict;
pub use crate::formatting::{Formatting, SubFormatting};
pub use crate::random::Picker;
pub use crate::requirement::{meets_requirement, Denied, Generated, Requirement};
pub use crate::resolve::add_requirements;
pub use crate::template::Template;
