//! An interpreter and compiler for the eight-instruction tape language
//! Brainfuck.
//!
//! A source text passes through the modules in this order:
//!
//! - `lex` turns its bytes into tokens with their places;
//! - `parse` checks that the brackets match;
//! - `ir` folds runs of `+` and `-` into sums and resolves the cell of every
//!   operation;
//! - `exe` runs tokens or instructions on a tape of 30,000 bytes;
//! - `fasm` writes instructions out as 32-bit x86 assembly in FASM syntax.
//!
//! `driver` strings these together. `machine` is the model the contracts of
//! `exe` speak of, and `sound` is its invariant. `brackets`, `shape`, `laws`,
//! `equivalence` and `folding` hold what is proved of the whole: what the
//! bracket check means, that lowering keeps the brackets, how runs compose,
//! that folding keeps the meaning of straight-line code, and that it keeps
//! count cell by cell whatever `><` pairs stand in the source.
pub mod brackets;
pub mod driver;
pub mod equivalence;
pub mod exe;
pub mod fasm;
pub mod folding;
pub mod ir;
pub mod laws;
pub mod lex;
pub mod machine;
pub mod parse;
pub mod shape;
pub mod sound;
pub mod tape;
pub mod text;
