//! The node tree that tasks are compiled into, and the results of matching it.
pub mod result;
pub mod node;
pub mod base_node;
