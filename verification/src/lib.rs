//! A small compiler for the B language: a C-like tokenizer, a lexer with the
//! checks a parser needs, and the compilation of B functions into x86-64
//! assembly text.

pub mod compiler;
pub mod lexer_laws;
pub mod stb;
pub mod stb_c_lexer;
pub mod text;
