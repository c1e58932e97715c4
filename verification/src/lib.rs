//! A small phrase-matching processor: phrases and field types are compiled from
//! configuration text into a tree of nodes, and input sentences are matched against
//! that tree to find the task they express and the field values they carry.
pub mod text;
pub mod phrase;
pub mod field_type;
pub mod node;
pub mod processor;
