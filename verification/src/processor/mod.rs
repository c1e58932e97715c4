//! Compiling the configuration into phrases and the node tree, and processing input.
pub mod line;
pub mod table;
pub mod processor;
