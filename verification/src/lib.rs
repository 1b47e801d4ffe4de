//! A small library behind a chat bot's quote command: a map from quote
//! names to image file names, a lookup, and an autocomplete filter that
//! matches a normalized query against the sorted quote names.

pub mod quote;
pub mod text;
