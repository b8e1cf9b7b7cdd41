//! CSS layout: box trees to geometry, and geometry to paint commands.
//!
//! A tree of [`boxes::LayoutBox`] is laid out by [`layout`]: blocks stack,
//! inline content flows on lines, floats and positioned boxes leave the flow,
//! margins collapse, and columns balance. The laid out tree is then hit-tested
//! ([`hit_test`]) or turned into a display list ([`display_list`]).
//!
//! Every executable function states its result over a model of the tree,
//! [`boxes::BoxV`]. Coordinates are binary32 numbers ([`num`]) computed in
//! integers, so a contract fixes each bit of a result. What a font engine
//! answers is read from a table ([`text::Shaper`]).
pub mod num;
pub mod rounding;
pub mod integral;
pub mod exact;
pub mod grid;
pub mod geometry;
pub mod style;
pub mod casing;
pub mod floats;
pub mod margin_collapse;
pub mod text;
pub mod sizing;
pub mod boxes;
pub mod tree;
pub mod block;
pub mod leaf;
pub mod baseline;
pub mod align;
pub mod multicol;
pub mod flow;
pub mod layout;
pub mod unfolding;
pub mod children;
pub mod placing;
pub mod collapsing;
pub mod keeping;
pub mod pending;
pub mod order;
pub mod hit_test;
pub mod images;
pub mod display;
pub mod decorate;
pub mod borders;
pub mod controls;
pub mod ellipsis;
pub mod paint_text;
pub mod display_list;
pub mod nesting;
pub mod laws;
