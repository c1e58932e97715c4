//! Phrases: the patterns that input words are matched against.
pub mod result;
pub mod word_phrase;
pub mod group_phrase;
pub mod meta_phrase;
pub mod field;
pub mod phrase;
