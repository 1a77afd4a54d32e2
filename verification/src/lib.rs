//! Search previews: which slice of a text to show at a given width, and where
//! a query matches inside it.

pub mod context;
pub mod context_spec;
pub mod evidence;
pub mod highlight;
pub mod literal;
pub mod normalize;
pub mod pi;
pub mod query;
pub mod ranges;
pub mod sanitize;
pub mod segments;
pub mod sorting;
pub mod text;
pub mod truncate;
pub mod words;
