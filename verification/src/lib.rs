//! Reconciles a keyword-driven behavioural specification against the same
//! specification embedded as comments in source files: a position-preserving
//! keyword extractor and a structural differ over parsed specification trees.

pub mod compare;
pub mod feature;
pub mod generate;
pub mod laws;
pub mod parse;
pub mod value;
