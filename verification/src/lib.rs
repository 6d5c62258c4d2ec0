//! A small arithmetic-expression interpreter: a tokenizer, an
//! operator-precedence (shunting-yard) parser, and a tree-walking evaluator
//! that keeps a textual trace of each reduction step.

pub mod ast;
