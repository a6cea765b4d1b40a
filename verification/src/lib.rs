//! Verified tree optimizations for SVG documents.
pub mod node;
pub mod text;
pub mod attributes;
pub mod optimizations;
pub mod units;
pub mod id_usage;
pub mod xml_input;
pub mod parser;
