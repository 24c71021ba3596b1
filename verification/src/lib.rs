//! A content-addressed knowledge store for a graph of short assertions
//! ("theses"). A thesis is either a piece of text that may reference other
//! theses, or a typed relation between two theses. Theses carry optional
//! symbolic aliases and a set of tags. The identity of a thesis is a 128-bit
//! hash of the canonical binary encoding of its content.

pub mod alias;
pub mod cascade;
pub mod chars;
pub mod commands;
pub mod content;
pub mod errors;
pub mod graph;
pub mod ids;
pub mod laws;
pub mod reference;
pub mod relation;
pub mod resolver;
pub mod store;
pub mod sweater;
pub mod tag;
pub mod text;
pub mod thesis;
pub mod write;
