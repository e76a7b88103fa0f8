//! Output: the rules of writing a classified file.

pub mod format_guard;
pub mod las_writer;
