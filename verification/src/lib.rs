//! Key strings from an indented outline.
//!
//! An outline is a plain text with one key per line. A key is a path of names
//! separated by dots, and a line that is indented further than the line before
//! it lies below that line's key. The library reads such an outline into a tree
//! of names and writes the tree out as nested declarations: one constant for
//! each key, whose value is the key's full path.

pub mod emit;
pub mod nesting;
pub mod outline;
pub mod text;
pub mod tree;

pub use text::count_leading_whitespaces;
pub use tree::KeyElement;
pub use outline::{compile_input, KeyError};
pub use emit::{generate, generate_with_config, render};
