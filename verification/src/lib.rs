//! An ahead-of-time compiler for a small concatenative, stack-based language.
//!
//! A program is a run of words that work on a stack of values. The [`lexer`]
//! reads the words, the [`analyzer`] infers the stack effect of the program
//! and of every word and quotation in it, the [`compiler`] lowers the analysed
//! program to flat procedures, and [`x86_64gen`] renders these as assembly for
//! x86-64 Linux. The [`driver`] runs the stages one after the other, and
//! [`effect`] relates what the code of a word does to the top of the stack to
//! the signature of the word, [`shape`] shows that every word of an analysed
//! program has the signature of its declaration, [`layout`] says where the
//! instructions of the items lie in the lowered program, and [`balance`] adds
//! up what the code of a whole program does to the top of the stack.

pub mod analyzer;
pub mod balance;
pub mod command_parser;
pub mod compiler;
pub mod driver;
pub mod effect;
pub mod layout;
pub mod lexer;
pub mod literal;
pub mod shape;
pub mod text;
pub mod x86_64gen;
