//! A small rendering pipeline: markup and style sheets are parsed into trees, style
//! rules are resolved against every element of the document, the styled tree is laid out
//! as a flow of blocks, and the boxes are painted into a grid of pixels.

pub mod chars;
pub mod strmap;
pub mod dom;
pub mod css;
pub mod parser;
pub mod html;
pub mod style;
pub mod layout;
pub mod painting;
