//! A compact line-oriented text notation for hierarchical, repeatable
//! key/text data.
//!
//! Each entry line starts with a hexadecimal depth offset, then `~`, then a
//! key, then `:`, then text.  A line starting with `|` continues the previous
//! text across a line break; a line starting with `+` opens a further text
//! value under the same key.  A greater offset on the next entry makes it a
//! child of the previous one.
//!
//! ```text
//! 0~a:a
//! +a
//! |b
//! |c
//! 0~b:a
//! 1~a
//! 2~a:b
//! 0~c:
//! |
//! |cc
//! |
//! ```
//!
//! parses to three top-level nodes `a`, `b`, `c`, where `a` carries the text
//! values `"a"` and `"a\nb\nc"`, `b` carries `"a"` and a child chain
//! `a -> a` whose innermost node carries `"b"`, and `c` carries `"\n\ncc\n"`.
//!
//! Malformed lines are reported with their row and column and skipped; the
//! parse then resumes at the next line.

/// The event parser's consumer interface, the tree of parsed targets, and
/// the conversions to a path table and to markup.
pub mod contents;
mod header;
/// To HTML markup.
pub mod html;
/// The streaming event parser and its transition specification.
pub mod parser;
mod strutil;
/// The offset-driven builder tree and its export.
pub mod tree;
/// Markup fragments.
pub mod xml;

pub use crate::contents::Contents;
pub use crate::contents::Event;
pub use crate::contents::Target;
pub use crate::contents::chars_to_target;
pub use crate::contents::parse_chars;
pub use crate::contents::parse_slice;
pub use crate::contents::slice_to_target;
pub use crate::contents::to_map;
pub use crate::contents::to_xml;
pub use crate::contents::vec_to_map;
pub use crate::contents::vec_to_xml;
pub use crate::contents::Builder;
