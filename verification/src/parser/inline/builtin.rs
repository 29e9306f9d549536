pub mod inline_parser;
