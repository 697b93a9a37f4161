//! A compiler from the Snek expression language to x86-64 assembly, with a
//! model of the runtime that the emitted code is linked against.
//!
//! The compiler: `reader` cuts a source text into forms, `parser` turns forms
//! into the syntax of `ast`, `codegen` says what is emitted for each
//! expression out of the instruction sequences of `shapes`, and `compiler`
//! and `program` emit it, as instructions of `instr`. `fresh` shows that the
//! labels of the emitted code are fresh. `machine` says what the instructions
//! do, `correctness` that the code of an arithmetic expression computes its
//! value, `operators` that the code of every operator does what the operator
//! does, `straight` the same of expressions with variables, `if` and
//! `print` that neither loop nor call a function nor touch the heap, and
//! `entry` of the entry point of a program with such an expression.
//!
//! The runtime: `value` is the encoding of values that both sides share,
//! `heap` and `stack` are the memory as the runtime sees it, `printer` writes
//! values, `equality` compares them, and `collector` reclaims the tuples that
//! the stack no longer reaches, in the four phases of `marking`,
//! `forwarding`, `rewriting` and `compacting`. `layout` says when a heap is
//! well formed, `checker` tests it, and `survival` shows that a collection
//! does not change the text of a value.

pub mod ast;
pub mod checker;
pub mod codegen;
pub mod collector;
pub mod compacting;
pub mod compiler;
pub mod correctness;
pub mod decimal;
pub mod emitter;
pub mod entry;
pub mod equality;
pub mod forwarding;
pub mod fresh;
pub mod heap;
pub mod instr;
pub mod layout;
pub mod machine;
pub mod marking;
pub mod measure;
pub mod operators;
pub mod parser;
pub mod printer;
pub mod program;
pub mod reader;
pub mod rewriting;
pub mod runtime;
pub mod shapes;
pub mod stack;
pub mod straight;
pub mod survival;
pub mod tables;
pub mod value;
