//! Turns dotenv text and JSON trees into flat `KEY=VALUE` pairs for shell export.
pub mod dotenv;
pub mod error;
pub mod input;
pub mod json;
pub mod matcher;
pub mod output;
pub mod text;
