//! Interactive directory-tree browser core: a lazily loaded directory tree,
//! its flattening into a navigable row list, viewport/scroll windowing math,
//! and resolution of an absolute path into a tree position.

pub mod application;
pub mod errors;
pub mod filesystem;
pub mod structures;
