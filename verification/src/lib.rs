//! A small jq-like JSON toolkit: a JSON parser, a filter language of field and
//! index accesses, and compact or pretty printers.

pub mod text;
pub mod json_parser;
pub mod filter;
pub mod json_value_filter;
pub mod json_printer;
pub mod cli;
pub mod parser;
pub mod parsed_values;
pub mod surrounding_whitespace;
