//! Reactive core of a retained-mode UI toolkit: a stage-level update
//! scheduler that merges heterogeneous redraw requests per window, and a
//! style cascade engine that matches a CSS-like selector language against
//! an index-linked node tree and resolves property values by specificity
//! and declaration order.

pub mod app;
pub mod parse;
pub mod selector;
pub mod stage;
pub mod style;
pub mod tree;
