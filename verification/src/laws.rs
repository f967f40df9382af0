//! What the analysis promises, stated over what goes in and what comes out.
pub mod display;
pub mod errors;
pub mod model;
pub mod order;
pub mod parser;
pub mod report;
pub mod text;
pub mod views;
