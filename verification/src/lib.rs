//! Analysis of the output of the Boogie verifier: errors with their execution traces and models are
//! extracted from the output and reported on the source of the verified program.
pub mod display;
pub mod doc;
pub mod env;
pub mod errors;
pub mod extract;
pub mod laws;
pub mod model;
pub mod order;
pub mod parser;
pub mod pattern;
pub mod report;
pub mod text;
pub mod value;
