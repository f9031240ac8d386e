//! Template-driven batch renaming: a template parser, the rules that compute
//! special parameters, a recency-ordered history of chosen values, the
//! decisions of the interactive value chooser and the rendering engine that
//! ties them together.

pub mod decimal;
pub mod template;
pub mod params;
pub mod chooser;
pub mod history;
pub mod render;
