//! The orchestration language: `A -> (B | c: C) -> #[sub] -> [c]`, read from
//! tokens into a syntax tree, then turned into a plan that builds the graph.
pub mod ast;
pub mod chains;
pub mod codegen;
pub mod cycles;
pub mod declarations;
pub mod links;
pub mod locate;
pub mod generate;
pub mod parser;
pub mod token;
