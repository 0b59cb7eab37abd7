//! Hindley-Milner type inference with let-polymorphism, level-based
//! generalization and an arena of unification cells ("holes").
pub mod expr;
pub mod infer;
pub mod types;
pub mod unification;
