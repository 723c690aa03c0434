//! A small Lisp: its tokenizer, parser, intermediate representation and object stores.
pub mod text;
pub mod span;
pub mod tokenizer;
pub mod literal;
pub mod compact;
pub mod ast;
pub mod object_store;
pub mod error;
pub mod ir;
pub mod settings;
pub mod debugger;
pub mod symbol;
pub mod custom;
pub mod source_context;
pub mod backtrace;
pub mod compiler;
pub mod wellformed;
pub mod keep_reachable;
pub mod builtins;
pub mod repl;
pub mod bytecode;
pub mod memory;
pub mod formatter;
pub mod natives;
pub mod vm;
pub mod equality;
pub mod val;
