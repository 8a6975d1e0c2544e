//! The value and namespace model of a small embeddable expression evaluator,
//! and the contract by which expression nodes are evaluated against a
//! namespace.

pub mod eval;
