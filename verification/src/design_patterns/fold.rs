//! The fold pattern: a folder walks an abstract syntax tree and builds a new one, node by
//! node.
use vstd::prelude::*;

verus! {

/// A statement.
pub enum Stmt {
    Expr(Box<Expr>),
    Let(Box<Name>, Box<Expr>),
}

/// A name.
pub struct Name {
    pub value: String,
}

/// An integer expression.
pub enum Expr {
    IntLit(i64),
    Add(Box<Expr>, Box<Expr>),
    Sub(Box<Expr>, Box<Expr>),
}

/// Builds a new tree from an old one. A leaf is kept as it is unless a folder says
/// otherwise; a statement is rebuilt from its folded parts; an expression becomes the
/// literal 0 unless a folder says otherwise.
pub trait Folder: Sized {
    fn fold_name(&mut self, n: Box<Name>) -> (r: Box<Name>)
        default_ensures
            r == n,
    {
        n
    }

    /// Rebuilds a statement from what this folder's `fold_name` and then `fold_expr`
    /// give back for its parts.
    fn fold_stmt(&mut self, s: Box<Stmt>) -> (r: Box<Stmt>)
        ensures
            match *s {
                Stmt::Expr(e) => exists|m: &mut Self, x: Box<Expr>|
                    {
                        &&& *m == *old(self)
                        &&& *final(m) == *final(self)
                        &&& call_ensures(Self::fold_expr, (m, e), x)
                        &&& *r == Stmt::Expr(x)
                    },
                Stmt::Let(n, e) => exists|m1: &mut Self, m2: &mut Self, n2: Box<Name>, x: Box<Expr>|
                    {
                        &&& *m1 == *old(self)
                        &&& *final(m1) == *m2
                        &&& *final(m2) == *final(self)
                        &&& call_ensures(Self::fold_name, (m1, n), n2)
                        &&& call_ensures(Self::fold_expr, (m2, e), x)
                        &&& *r == Stmt::Let(n2, x)
                    },
            },
    {
        match *s {
            Stmt::Expr(e) => Box::new(Stmt::Expr(self.fold_expr(e))),
            Stmt::Let(n, e) => {
                let n2 = self.fold_name(n);
                Box::new(Stmt::Let(n2, self.fold_expr(e)))
            },
        }
    }

    fn fold_expr(&mut self, e: Box<Expr>) -> (r: Box<Expr>)
        default_ensures
            *r == Expr::IntLit(0),
    {
        Box::new(Expr::IntLit(0))
    }
}

/// Renames every name to `foo`.
pub struct Renamer;

impl Folder for Renamer {
    fn fold_name(&mut self, n: Box<Name>) -> (r: Box<Name>)
        ensures
            r.value@ == "foo"@,
    {
        Box::new(Name { value: String::from_str("foo") })
    }
}

} // verus!
