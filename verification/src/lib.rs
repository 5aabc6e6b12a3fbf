//! Task-tracking core: status lifecycle, fuzzy relevance search, and a
//! structured filter mini-language, over an in-memory task table.

pub mod id;
pub mod model;
pub mod parse;
pub mod sort;
pub mod store;
pub mod text;
pub mod time;
