//! An interpreter core for the Brainfuck language.
//!
//! `parser` turns source bytes into a linear instruction stream in which runs
//! of identical arithmetic and pointer operators are folded into one counted
//! instruction and every loop bracket carries the position of its partner.
//! `machine` executes such a stream on a fixed-size byte memory, one
//! instruction at a time, leaving the actual byte I/O to the caller.
//! `args` reads the two command-line operands. `theorems` states what holds
//! of every source and every run.

pub mod instruction;
pub mod parser;
pub mod machine;
pub mod args;
pub mod theorems;
