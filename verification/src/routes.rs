//! The request handlers' decision logic, one module per record type.

pub mod languages;
pub mod vocabulary;
