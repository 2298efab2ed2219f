//! Front end and tree-walking evaluator of the reef scripting language.
//!
//! Source text is turned into tokens by [`lex::Scanner`], tokens into
//! statements by [`parse::Parser`], and statements are run by
//! [`eval::Evaluator`]. Each stage is stated by spec functions and its
//! executable code is proved to compute exactly what they say.
pub mod ast;
pub mod eval;
pub mod lex;
pub mod parse;
pub mod pipeline;
pub mod text;
pub mod token;
