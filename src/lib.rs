//! Architecture decision records: parsing a record's text, the lifecycle
//! state machine, the text mutations that go with a status change, and the
//! pure parts of scanning a repository of records.

pub mod adr;
pub mod config;
pub mod date;
pub mod lifecycle;
pub mod parse;
pub mod repo;
pub mod round_trip;
pub mod status;
pub mod text;
