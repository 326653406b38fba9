//! The syntax tree that the parser builds. Every node owns its children, and
//! every token in it is a copy of one the lexer produced.
use crate::token::{Literal, Token};
use vstd::prelude::*;

verus! {

#[derive(Debug, PartialEq)]
pub enum Expr {
    Assign(Token, Box<Expr>),
    Binary(Box<Expr>, Token, Box<Expr>),
    Grouping(Box<Expr>),
    Literal(Literal),
    Logical(Box<Expr>, Token, Box<Expr>),
    Unary(Token, Box<Expr>),
    Variable(Token),
}

#[derive(Debug, PartialEq)]
pub enum Stmt {
    Block(Vec<Stmt>),
    Expression(Expr),
    If(Expr, Box<Stmt>, Box<Option<Stmt>>),
    Let(Token, Option<Expr>),
    While(Expr, Box<Stmt>),
    Fn(Token, Vec<String>, Box<Stmt>),
}

/// A statement with the statements of its blocks, and the names of its
/// parameters, as sequences.
pub enum StmtView {
    Block(Seq<StmtView>),
    Expression(Expr),
    If(Expr, Box<StmtView>, Option<Box<StmtView>>),
    Let(Token, Option<Expr>),
    While(Expr, Box<StmtView>),
    Fn(Token, Seq<Seq<char>>, Box<StmtView>),
}

impl View for Stmt {
    type V = StmtView;

    open spec fn view(&self) -> StmtView {
        stmt_view(*self)
    }
}

/// The view of one statement.
pub open spec fn stmt_view(s: Stmt) -> StmtView
    decreases s,
{
    match s {
        Stmt::Block(stmts) => StmtView::Block(stmts_view(stmts@)),
        Stmt::Expression(e) => StmtView::Expression(e),
        Stmt::If(c, t, e) => StmtView::If(
            c,
            Box::new(stmt_view(*t)),
            match *e {
                Some(s) => Some(Box::new(stmt_view(s))),
                None => None,
            },
        ),
        Stmt::Let(name, init) => StmtView::Let(name, init),
        Stmt::While(c, body) => StmtView::While(c, Box::new(stmt_view(*body))),
        Stmt::Fn(name, params, body) => StmtView::Fn(
            name,
            names_view(params@),
            Box::new(stmt_view(*body)),
        ),
    }
}

/// The texts of a sequence of names.
pub open spec fn names_view(names: Seq<String>) -> Seq<Seq<char>> {
    names.map_values(|n: String| n@)
}

/// The views of a sequence of statements.
pub open spec fn stmts_view(stmts: Seq<Stmt>) -> Seq<StmtView>
    decreases stmts,
{
    if stmts.len() == 0 {
        Seq::empty()
    } else {
        stmts_view(stmts.drop_last()).push(stmt_view(stmts.last()))
    }
}

} // verus!

verus! {

pub proof fn lemma_names_view_empty()
    ensures
        names_view(Seq::empty()) == Seq::<Seq<char>>::empty(),
{
    assert(names_view(Seq::empty()) =~= Seq::<Seq<char>>::empty());
}

pub proof fn lemma_stmts_view_push(stmts: Seq<Stmt>, s: Stmt)
    ensures
        stmts_view(stmts.push(s)) == stmts_view(stmts).push(stmt_view(s)),
{
    assert(stmts.push(s).drop_last() =~= stmts);
}

pub proof fn lemma_stmts_view_pair(a: Stmt, b: Stmt)
    ensures
        stmts_view(seq![a, b]) == seq![stmt_view(a), stmt_view(b)],
{
    lemma_stmts_view_push(Seq::empty().push(a), b);
    lemma_stmts_view_push(Seq::empty(), a);
    assert(Seq::<Stmt>::empty().push(a).push(b) =~= seq![a, b]);
    assert(stmts_view(Seq::<Stmt>::empty()) =~= Seq::<StmtView>::empty());
    assert(Seq::<StmtView>::empty().push(stmt_view(a)).push(stmt_view(b)) =~= seq![stmt_view(a), stmt_view(b)]);
}

} // verus!
