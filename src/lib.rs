//! Front end of a small scripting language: a maximal-munch lexer that turns
//! source text into tokens, and a recursive-descent parser with panic-mode
//! recovery that turns tokens into statements. Both are verified against
//! functional models of the lexical and syntactic grammar.
pub mod ast;
pub mod error;
pub mod grammar;
pub mod input_stream;
pub mod lexer;
pub mod lexical;
pub mod parser;
pub mod recovery;
pub mod relex;
pub mod token;
