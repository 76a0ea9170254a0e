//! A verified parser for plain-text "HTTP file" documents: one or more
//! human-authored HTTP request descriptions, optionally separated by
//! `###` title delimiters, turned into a typed in-memory model.

pub mod grammar;
pub mod headers;
pub mod laws;
pub mod parser;
pub mod scan;
