//! Word alignment library: IBM Model 1 translation tables, Viterbi word
//! alignment, and the codecs that make vocabularies and models portable.

pub mod alignment;
pub mod corpus;
pub mod decimal;
pub mod error;
pub mod lines;
pub mod model;
pub mod vocabulary;
