//! Style resolution for a tree of entities: selector matching and the
//! cascade, the passes that hand z-order, visibility and display down the
//! tree, and the decisions behind the measurement of content.

pub mod cache;
pub mod inheritance;
pub mod layout;
pub mod property;
pub mod rule;
pub mod selector;
pub mod style;
pub mod style_system;
pub mod traversal;
pub mod tree;
pub mod value;
