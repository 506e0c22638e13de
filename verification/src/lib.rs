//! A personal hierarchical note organizer: a tree of named, taggable `Idea`
//! nodes with tag inheritance, meta-idea configuration lookup, a visibility
//! filter, and a small path-expression language for addressing nodes.

pub mod command;
pub mod error;
pub mod idea;
pub mod model;
pub mod orgmode;
pub mod select;
pub mod strutil;
pub mod tree;
