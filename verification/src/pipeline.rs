//! Turning fetched block JSON into the rows the store keeps.

pub mod parser;
