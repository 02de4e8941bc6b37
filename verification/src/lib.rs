//! Verified core of a Japanese input method.
use vstd::prelude::*;

pub mod alternatives;
pub mod builtin;
pub mod candidates;
pub mod client;
pub mod command;
pub mod config;
pub mod conversion;
pub mod dictionary;
pub mod dispatch;
pub mod engine;
pub mod entry;
pub mod factory;
pub mod gate;
pub mod json;
pub mod keymap;
pub mod lattice;
pub mod llm;
pub mod matrix;
pub mod merge;
pub mod nano;
pub mod pos;
pub mod rank;
pub mod rerank;
pub mod resize;
pub mod scan;
pub mod segmentation;
pub mod segmenter;
pub mod sentence;
pub mod signals;
pub mod store;
pub mod tables;
pub mod text;
pub mod textmap;
pub mod trie;
pub mod user_scorer;
pub mod words;

verus! {

} // verus!
