//! A compiler from a line-oriented text notation for musical scores into an
//! exactly-timed score model, plus a regrouping pass that turns the timed
//! model into canonical notation-length entries for rendering or export.

pub mod cli;
pub mod comments;
pub mod convert;
pub mod data;
pub mod diagnostics;
pub mod error;
pub mod frac;
pub mod grouping;
pub mod parser;
pub mod pitch;
pub mod processor;
pub mod score_def;
pub mod text;
pub mod tokenizer;
pub mod vsc;
