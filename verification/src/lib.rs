//! Propositional resolution: decides whether a formula in conjunctive normal
//! form can be refuted by deriving the empty clause.

pub mod bound;
pub mod clause;
pub mod literal;
pub mod logic;
pub mod semantics;
pub mod statement;
pub mod text;
pub mod trace;

pub use clause::Clause;
pub use literal::Literal;
pub use statement::{Round, Statement};
pub use trace::{Observer, Silent};
