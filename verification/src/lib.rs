//! Tree model and navigation engine of an interactive file-tree browser.

pub mod arena;
pub mod branch;
pub mod color;
pub mod cursor;
pub mod draw;
pub mod entry;
pub mod fs;
pub mod lines;
pub mod links;
pub mod options;
pub mod render;
pub mod shape;
pub mod term;
pub mod text;
pub mod tree;
pub mod util;
pub mod window;
