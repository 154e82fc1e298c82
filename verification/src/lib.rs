//! A verified front end for the Raven language: the tokenizer, the readers that turn its
//! tokens into the pieces of a program (imports, attributes, modifiers, generics, types,
//! structure, implementation and function headers), and the byte cursor of the first
//! parser with its helpers.

// Tokens and the tokenizer.
pub mod tokens;
pub mod tokenizer;
pub mod token_util;
pub mod code_tokenizer;
pub mod top_tokenizer;
// Reading tokens into the program model.
pub mod top_parser;
pub mod type_parser;
pub mod struct_parser;
pub mod operator_parser;
pub mod code_parser;
pub mod control_parser;
pub mod code;
pub mod function_parser;
// The byte cursor of the first parser and its helpers.
pub mod parse_info;
pub mod literal;
pub mod parse_util;
// The program model and the settings around it.
pub mod modifiers;
pub mod program;
pub mod imports;
pub mod settings;
pub mod sources;
// Calls into the standard library whose contracts are trusted.
pub mod text;
pub mod types;
pub mod type_relation;
