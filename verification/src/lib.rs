//! Closure diff engine: parses component identifiers into package names and
//! versions, groups and deduplicates them per package, classifies each package
//! as added, removed or changed between two snapshots, and renders an aligned,
//! role-tagged report together with a closure size difference.

pub mod aggregate;
pub mod chars;
pub mod laws;
pub mod package;
pub mod parse;
pub mod render;
pub mod sizes;
pub mod span;
pub mod version;
