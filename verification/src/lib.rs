//! A compiler front end for a minimal eight-symbol tape-machine language:
//! a parser that turns source bytes into a statement tree with peephole
//! folding of repeated operations, and a code generator that turns the tree
//! into textual LLVM IR with single-assignment virtual registers and
//! globally unique loop labels.

pub mod ast;
pub mod llvm_ir_generator;
pub mod parser;

pub use ast::Stmt;
pub use llvm_ir_generator::code_gen;
pub use parser::parse;
