//! The Dove language: scanning, import analysis, parsing, name resolution,
//! the reporting of errors, and the scopes, classes and instances of a
//! running program.
pub mod text;
pub mod token;
pub mod error_handler;
pub mod scanner;
pub mod importer;
pub mod ast;
pub mod grammar;
pub mod precedence;
pub mod statements;
pub mod parser;
pub mod resolver;
pub mod ast_printer;
pub mod data_types;
pub mod environment;
pub mod dove_class;
pub mod dove;
