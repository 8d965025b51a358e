pub mod bytecode;
pub mod compiler;
pub mod dap_json;
pub mod grammar;
pub mod diagnostics;
pub mod lexer;
pub mod module_loader;
pub mod parse_model;
pub mod parser;
pub mod text;
