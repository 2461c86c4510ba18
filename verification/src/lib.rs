//! A stack-based calculator for expressions in reverse Polish notation,
//! together with a handful of small, self-contained routines on numbers,
//! text and trees. Every executable function carries a contract that is
//! checked by Verus.

pub mod bank;
pub mod bst;
pub mod drills;
pub mod generic_bst;
pub mod hanoi;
pub mod lists;
pub mod matrix;
pub mod numbers;
pub mod parser;
pub mod primes;
pub mod quiz;
pub mod rpn;
pub mod scores;
pub mod text;
pub mod words;
pub mod xml;
