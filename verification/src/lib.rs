//! A style cascade resolver and CSS2-style block layout engine.
//!
//! Given an element tree and a stylesheet, the crate resolves which
//! declared property values apply to each element (cascade with
//! specificity ordering) and then computes exact pixel geometry for a
//! tree of block boxes, including auto width and auto border
//! resolution, vertical stacking and height propagation. A small
//! painting module turns a laid-out tree into a list of solid-color
//! rectangles.

pub mod css;
pub mod dom;
pub mod style;
pub mod layout;
pub mod painting;
