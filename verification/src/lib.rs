//! A propositional knowledge base for a Wumpus-World agent.
//!
//! The core is a CNF encoder that interns structured domain variables as
//! integer SAT identifiers, accumulates clauses, and supports a single-level
//! snapshot/rewind so that entailment queries (`ask`) can temporarily assert
//! the negation of the query and roll the state back afterwards.

pub mod dimacs;
pub mod encoder;
pub mod hero;
pub mod kb;
pub mod logic;
pub mod random;
pub mod solver;
pub mod theory;
pub mod tseytin;
pub mod verdict;
pub mod world;

pub use logic::Literal;
