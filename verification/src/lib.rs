//! A genetic search for arithmetic expressions.
//!
//! A genome is a string of bits read four at a time: each group spells a
//! digit or one of the operators `+ - * /`. The search breeds a population of
//! genomes until one of them spells an expression whose value is the number
//! asked for. Everything the search decides is verified: how text is split
//! into tokens, how infix is turned into postfix and evaluated, how genomes
//! are decoded, repaired and encoded, and how a generation is selected,
//! recombined and mutated.

pub mod bits;
pub mod codec;
pub mod engine;
pub mod expr;
pub mod grammar;
pub mod random;
pub mod text;

pub use bits::{binary, from_binary};
pub use codec::{encode_expression, get_operator, Chromosome, EncodeError};
pub use engine::{crossover, ga, select, Search, Step};
