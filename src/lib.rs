//! A terminal tree-view widget: an ordered tree of items with stable ids,
//! expand/collapse state, a selection and a depth-first frame renderer.
pub mod item;
pub mod frame;
pub mod session;
