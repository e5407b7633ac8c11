//! Decoder for the pipe-delimited, type-annotated tabular text that a product
//! version service answers with, and the typed records projected from it.
//!
//! A response is a header line that declares named and typed columns, one
//! line that carries a sequence number, and rows of fields. `response::base`
//! reads such a text into a table, `response::summary` and
//! `response::versions` project its rows onto the two kinds of record, and
//! `response::laws` states what holds of all of them. `text` and `number`
//! hold what these are built from; `api`, `config` and `output` hold what a
//! program needs around them to ask the service and to report its answer.

pub mod api;
pub mod config;
pub mod number;
pub mod output;
pub mod prelude;
pub mod response;
pub mod text;
