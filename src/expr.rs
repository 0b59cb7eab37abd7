use crate::types::{valid, Type};
use vstd::prelude::*;

verus! {

/// A literal value.
#[derive(Debug)]
pub enum Lit {
    Int(i32),
    Bool(bool),
    String(String),
}

/// A variable with the type it is declared to have.
#[derive(Debug)]
pub struct Annot {
    pub var: String,
    pub t: Type,
}

/// Represents the tree we want to type check.
#[derive(Debug)]
pub enum ExprKind {
    Var { name: String },
    Lit { val: Lit },
    Lam { var: String, body: Expr },
    LamTyp { annot: Annot, body: Expr },
    LetTyp { annot: Annot, val: Expr, next: Expr },
    App { fun: Expr, arg: Expr },
    Let { binding: String, val: Expr, next: Expr },
}

/// An expression lives on the heap, since [ExprKind] is recursive.
pub type Expr = Box<ExprKind>;

pub open spec fn max_nat(a: nat, b: nat) -> nat {
    if a < b {
        b
    } else {
        a
    }
}

/// The height of the tree.
pub open spec fn height(e: ExprKind) -> nat
    decreases e,
{
    match e {
        ExprKind::Var { .. } => 0,
        ExprKind::Lit { .. } => 0,
        ExprKind::Lam { body, .. } => 1 + height(*body),
        ExprKind::LamTyp { body, .. } => 1 + height(*body),
        ExprKind::LetTyp { val, next, .. } => 1 + max_nat(height(*val), height(*next)),
        ExprKind::App { fun, arg } => 1 + max_nat(height(*fun), height(*arg)),
        ExprKind::Let { val, next, .. } => 1 + max_nat(height(*val), height(*next)),
    }
}

/// Every declared type in the tree names only cells of an arena of `n` cells.
pub open spec fn annots_valid(e: ExprKind, n: nat) -> bool
    decreases e,
{
    match e {
        ExprKind::Var { .. } => true,
        ExprKind::Lit { .. } => true,
        ExprKind::Lam { body, .. } => annots_valid(*body, n),
        ExprKind::LamTyp { annot, body } => valid(annot.t@, n) && annots_valid(*body, n),
        ExprKind::LetTyp { annot, val, next } => valid(annot.t@, n) && annots_valid(*val, n)
            && annots_valid(*next, n),
        ExprKind::App { fun, arg } => annots_valid(*fun, n) && annots_valid(*arg, n),
        ExprKind::Let { val, next, .. } => annots_valid(*val, n) && annots_valid(*next, n),
    }
}

pub proof fn lemma_annots_grow(e: ExprKind, n: nat, m: nat)
    requires
        annots_valid(e, n),
        n <= m,
    ensures
        annots_valid(e, m),
    decreases e,
{
    match e {
        ExprKind::Var { .. } => {},
        ExprKind::Lit { .. } => {},
        ExprKind::Lam { body, .. } => lemma_annots_grow(*body, n, m),
        ExprKind::LamTyp { annot, body } => {
            crate::types::lemma_valid_grow(annot.t@, n, m);
            lemma_annots_grow(*body, n, m);
        },
        ExprKind::LetTyp { annot, val, next } => {
            crate::types::lemma_valid_grow(annot.t@, n, m);
            lemma_annots_grow(*val, n, m);
            lemma_annots_grow(*next, n, m);
        },
        ExprKind::App { fun, arg } => {
            lemma_annots_grow(*fun, n, m);
            lemma_annots_grow(*arg, n, m);
        },
        ExprKind::Let { val, next, .. } => {
            lemma_annots_grow(*val, n, m);
            lemma_annots_grow(*next, n, m);
        },
    }
}

} // verus!
