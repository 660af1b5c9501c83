//! Core text-editing structures for a native text editor: a piece table over
//! an immutable source buffer, a line index, UTF-8 validation and the
//! byte-offset editing state that the editor window drives.

pub mod utf8;
pub mod mmap_buffer;
pub mod piece_tree;
pub mod line_index;
pub mod text_lines;
pub mod editor;
