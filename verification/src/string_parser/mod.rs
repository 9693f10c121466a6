//! Parsers that turn text into a `ParsedString` tree.
pub mod model_classes;
pub mod json_parser;
pub mod xml_parser;
