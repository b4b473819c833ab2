//! Renaming or copying a batch of files by a template of numeric and file-name tokens,
//! in an order that never overwrites a file still to be read.
pub mod iter;
pub mod options;
pub mod path;
pub mod rename;
pub mod template;
mod text;
