//! Declarative composition of zip archives: a manifest names archives, each
//! built from groups of source files placed under a directory of the archive.

pub mod command;
pub mod compose;
pub mod manifest;
pub mod path;
pub mod text;
pub mod validate;
