//! Failures are never silent: wherever a grammar rule fails, the reason it
//! failed is the last diagnostic it reported. So every declaration that
//! recovery drops has been reported.
use crate::error::Error;
use crate::ast::Expr;
use crate::grammar::{
    assignment, at_end, binary, binary_rest, block, block_items, check, combine, condition,
    consume, declaration, expression, expression_statement, fn_statement, for_clauses,
    for_condition, for_increment, for_initializer, for_statement, if_statement, level_operator,
    operand, primary, statement, unary, unexpected, var_declaration, while_statement, Parsed,
    FACTOR_LEVEL, OR_LEVEL, program, program_from, synchronize, resume, token_literal,
    finish_let, done,
};
use crate::ast::StmtView;
use crate::error::ErrorKind;
use crate::token::{Token, TokenType};
use vstd::prelude::*;

verus! {

/// A failed result ends its diagnostics with the reason it failed.
pub open spec fn reported<T>(r: Parsed<T>) -> bool {
    r.result matches Err(e) ==> r.errors.len() > 0 && r.errors.last() == e
}

proof fn lemma_last_of_concat(a: Seq<Error>, b: Seq<Error>)
    ensures
        b.len() > 0 ==> (a + b).len() > 0 && (a + b).last() == b.last(),
{
}

proof fn lemma_consume_reported(ts: Seq<Token>, p: int, kind: TokenType)
    ensures
        reported(consume(ts, p, kind)),
        consume(ts, p, kind).result is Err ==> consume(ts, p, kind).errors.len() == 1,
{
}

proof fn lemma_assignment_reported(ts: Seq<Token>, p: int)
    ensures
        reported(assignment(ts, p)),
    decreases ts.len() - p, 17int,
{
    lemma_binary_reported(ts, p, OR_LEVEL);
    let l = binary(ts, p, OR_LEVEL);
    if l.result is Ok && p <= l.pos < ts.len() && check(ts, l.pos, TokenType::Equal) {
        lemma_assignment_reported(ts, l.pos + 1);
        let r = assignment(ts, l.pos + 1);
        if r.result is Err {
            lemma_last_of_concat(l.errors, r.errors);
        }
    }
}

proof fn lemma_operand_reported(ts: Seq<Token>, p: int, level: u8)
    ensures
        reported(operand(ts, p, level)),
    decreases ts.len() - p, 2 * level + 3,
{
    if level <= FACTOR_LEVEL {
        lemma_unary_reported(ts, p);
    } else {
        lemma_binary_reported(ts, p, (level - 1) as u8);
    }
}

proof fn lemma_binary_reported(ts: Seq<Token>, p: int, level: u8)
    ensures
        reported(binary(ts, p, level)),
    decreases ts.len() - p, 2 * level + 4,
{
    lemma_operand_reported(ts, p, level);
    let l = operand(ts, p, level);
    if let Ok(left) = l.result {
        if p <= l.pos < ts.len() {
            lemma_binary_rest_reported(ts, left, l.pos, level);
            let rest = binary_rest(ts, left, l.pos, level);
            if rest.result is Err {
                lemma_last_of_concat(l.errors, rest.errors);
            }
        }
    }
}

proof fn lemma_binary_rest_reported(ts: Seq<Token>, left: Expr, p: int, level: u8)
    ensures
        reported(binary_rest(ts, left, p, level)),
    decreases ts.len() - p, 2 * level + 3,
{
    if 0 <= p < ts.len() && !at_end(ts, p) && level_operator(level, ts[p].kind) {
        lemma_operand_reported(ts, p + 1, level);
        let r = operand(ts, p + 1, level);
        if let Ok(right) = r.result {
            let node = combine(level, left, ts[p], right);
            if p < r.pos < ts.len() {
                lemma_binary_rest_reported(ts, node, r.pos, level);
                let rest = binary_rest(ts, node, r.pos, level);
                if rest.result is Err {
                    lemma_last_of_concat(r.errors, rest.errors);
                }
            }
        }
    }
}

proof fn lemma_unary_reported(ts: Seq<Token>, p: int)
    ensures
        reported(unary(ts, p)),
    decreases ts.len() - p, 1int,
{
    if 0 <= p < ts.len() && (check(ts, p, TokenType::Bang) || check(ts, p, TokenType::Minus)) {
        lemma_unary_reported(ts, p + 1);
    } else {
        lemma_primary_reported(ts, p);
    }
}

proof fn lemma_primary_reported(ts: Seq<Token>, p: int)
    ensures
        reported(primary(ts, p)),
    decreases ts.len() - p, 0int,
{
    if !check(ts, p, TokenType::False) && !check(ts, p, TokenType::True) && !check(
        ts,
        p,
        TokenType::Number,
    ) && !check(ts, p, TokenType::String) && !check(ts, p, TokenType::Identifier) && 0 <= p
        < ts.len() && check(ts, p, TokenType::LeftParen) {
        lemma_assignment_reported(ts, p + 1);
        let e = assignment(ts, p + 1);
        lemma_consume_reported(ts, e.pos, TokenType::RightParen);
        if e.result is Ok {
            let close = consume(ts, e.pos, TokenType::RightParen);
            if close.result is Err {
                lemma_last_of_concat(e.errors, close.errors);
            }
        }
    }
}

proof fn lemma_expression_statement_reported(ts: Seq<Token>, p: int)
    ensures
        reported(expression_statement(ts, p)),
{
    lemma_assignment_reported(ts, p);
    let e = expression(ts, p);
    lemma_consume_reported(ts, e.pos, TokenType::Semicolon);
    if e.result is Ok {
        lemma_last_of_concat(e.errors, consume(ts, e.pos, TokenType::Semicolon).errors);
    }
}

proof fn lemma_var_declaration_reported(ts: Seq<Token>, p: int)
    ensures
        reported(var_declaration(ts, p)),
{
    lemma_consume_reported(ts, p, TokenType::Identifier);
    lemma_assignment_reported(ts, p + 2);
    let e = expression(ts, p + 2);
    lemma_consume_reported(ts, e.pos, TokenType::Semicolon);
    lemma_consume_reported(ts, p + 1, TokenType::Semicolon);
    lemma_last_of_concat(e.errors, consume(ts, e.pos, TokenType::Semicolon).errors);
    lemma_last_of_concat(Seq::empty(), consume(ts, p + 1, TokenType::Semicolon).errors);
}

proof fn lemma_condition_reported(ts: Seq<Token>, p: int)
    ensures
        reported(condition(ts, p)),
{
    lemma_consume_reported(ts, p, TokenType::LeftParen);
    lemma_assignment_reported(ts, p + 1);
    let c = expression(ts, p + 1);
    lemma_consume_reported(ts, c.pos, TokenType::RightParen);
    lemma_last_of_concat(c.errors, consume(ts, c.pos, TokenType::RightParen).errors);
}

proof fn lemma_for_clauses_reported(ts: Seq<Token>, p: int)
    ensures
        reported(for_initializer(ts, p)),
        reported(for_clauses(ts, p)),
{
    lemma_var_declaration_reported(ts, p + 1);
    lemma_expression_statement_reported(ts, p);
    let i = for_initializer(ts, p);
    let q = i.pos;
    lemma_assignment_reported(ts, q);
    let c0 = expression(ts, q);
    lemma_consume_reported(ts, q, TokenType::Semicolon);
    lemma_consume_reported(ts, c0.pos, TokenType::Semicolon);
    lemma_last_of_concat(c0.errors, consume(ts, c0.pos, TokenType::Semicolon).errors);
    lemma_last_of_concat(Seq::empty(), consume(ts, q, TokenType::Semicolon).errors);
    let c = for_condition(ts, q);
    assert(reported(c));
    let r = c.pos;
    lemma_assignment_reported(ts, r);
    let e = expression(ts, r);
    lemma_consume_reported(ts, e.pos, TokenType::RightParen);
    lemma_last_of_concat(e.errors, consume(ts, e.pos, TokenType::RightParen).errors);
    let n = for_increment(ts, r);
    assert(reported(n));
    if c.result is Err {
        lemma_last_of_concat(i.errors, c.errors);
    }
    if n.result is Err {
        lemma_last_of_concat(i.errors + c.errors, n.errors);
    }
}

proof fn lemma_declaration_reported(ts: Seq<Token>, p: int)
    ensures
        reported(declaration(ts, p)),
    decreases ts.len() - p, 2int,
{
    lemma_var_declaration_reported(ts, p + 1);
    lemma_statement_reported(ts, p);
}

proof fn lemma_statement_reported(ts: Seq<Token>, p: int)
    ensures
        reported(statement(ts, p)),
    decreases ts.len() - p, 1int,
{
    if 0 <= p < ts.len() {
        lemma_for_statement_reported(ts, p + 1);
        lemma_if_statement_reported(ts, p + 1);
        lemma_while_statement_reported(ts, p + 1);
        lemma_block_reported(ts, p + 1);
        lemma_fn_statement_reported(ts, p + 1);
        lemma_expression_statement_reported(ts, p);
    }
}

proof fn lemma_block_reported(ts: Seq<Token>, p: int)
    ensures
        reported(block(ts, p)),
    decreases ts.len() - p, 4int,
{
    let b = block_items(ts, p);
    lemma_consume_reported(ts, b.pos, TokenType::RightBrace);
    lemma_last_of_concat(b.errors, consume(ts, b.pos, TokenType::RightBrace).errors);
}

proof fn lemma_if_statement_reported(ts: Seq<Token>, p: int)
    ensures
        reported(if_statement(ts, p)),
    decreases ts.len() - p, 0int,
{
    lemma_condition_reported(ts, p);
    let c = condition(ts, p);
    if c.result is Ok && p < c.pos < ts.len() {
        lemma_statement_reported(ts, c.pos);
        let t = statement(ts, c.pos);
        lemma_last_of_concat(c.errors, t.errors + seq![unexpected(ts, c.pos, TokenType::Eof)]);
        if t.result is Err {
            lemma_last_of_concat(c.errors, t.errors);
        } else if c.pos < t.pos < ts.len() && check(ts, t.pos, TokenType::Else) {
            lemma_statement_reported(ts, t.pos + 1);
            let e = statement(ts, t.pos + 1);
            if e.result is Err {
                lemma_last_of_concat(c.errors + t.errors, e.errors);
            }
        }
    }
}

proof fn lemma_while_statement_reported(ts: Seq<Token>, p: int)
    ensures
        reported(while_statement(ts, p)),
    decreases ts.len() - p, 0int,
{
    lemma_condition_reported(ts, p);
    let c = condition(ts, p);
    if c.result is Ok && p < c.pos < ts.len() {
        lemma_statement_reported(ts, c.pos);
        let b = statement(ts, c.pos);
        if b.result is Err {
            lemma_last_of_concat(c.errors, b.errors);
        }
    }
}

proof fn lemma_for_statement_reported(ts: Seq<Token>, p: int)
    ensures
        reported(for_statement(ts, p)),
    decreases ts.len() - p, 0int,
{
    lemma_consume_reported(ts, p, TokenType::LeftParen);
    lemma_for_clauses_reported(ts, p + 1);
    let c = for_clauses(ts, p + 1);
    if c.result is Ok && p < c.pos < ts.len() {
        lemma_statement_reported(ts, c.pos);
        let b = statement(ts, c.pos);
        if b.result is Err {
            lemma_last_of_concat(c.errors, b.errors);
        }
    }
}

proof fn lemma_fn_statement_reported(ts: Seq<Token>, p: int)
    ensures
        reported(fn_statement(ts, p)),
    decreases ts.len() - p, 0int,
{
    lemma_consume_reported(ts, p, TokenType::Identifier);
    lemma_consume_reported(ts, p + 1, TokenType::LeftParen);
    lemma_consume_reported(ts, p + 2, TokenType::RightParen);
    lemma_consume_reported(ts, p + 3, TokenType::LeftBrace);
    if 0 <= p && p + 4 < ts.len() {
        lemma_block_reported(ts, p + 4);
    }
}

/// Every declaration that the parser drops has been reported: where a
/// declaration fails, its diagnostics are not empty and the last of them is
/// the reason it failed.
pub proof fn lemma_dropped_declaration_reported(ts: Seq<Token>, p: int)
    ensures
        declaration(ts, p).result is Err ==> declaration(ts, p).errors.len() > 0,
        declaration(ts, p).result matches Err(e) ==> declaration(ts, p).errors.last() == e,
{
    lemma_declaration_reported(ts, p);
}

/// A token that no binary level takes as its operator, and that is not `=`.
pub open spec fn ends_operand(kind: TokenType) -> bool {
    &&& forall|l: u8| !#[trigger] level_operator(l, kind)
    &&& kind != TokenType::Equal
}

/// The hypothesis of `lemma_lone_primary`: the token at `p` is no prefix
/// operator, and `primary` there either fails or stops before a token that
/// ends an operand, having reported nothing.
pub open spec fn lone_primary(ts: Seq<Token>, p: int) -> bool {
    &&& 0 <= p
    &&& p + 1 < ts.len()
    &&& ts[p].kind != TokenType::Bang
    &&& ts[p].kind != TokenType::Minus
    &&& (primary(ts, p).result is Err || (primary(ts, p).pos == p + 1 && primary(ts, p).errors
        == Seq::<Error>::empty() && ends_operand(ts[p + 1].kind)))
}

/// Every binary level at such a `p` gives what `primary` gives there.
proof fn lemma_lone_binary(ts: Seq<Token>, p: int, level: u8)
    requires
        lone_primary(ts, p),
        1 <= level <= OR_LEVEL,
    ensures
        binary(ts, p, level) == primary(ts, p),
    decreases level,
{
    assert(unary(ts, p) == primary(ts, p));
    if level > 1 {
        lemma_lone_binary(ts, p, (level - 1) as u8);
    }
    assert(operand(ts, p, level) == primary(ts, p));
    if primary(ts, p).result is Ok {
        assert(!level_operator(level, ts[p + 1].kind));
        assert(Seq::<Error>::empty() + Seq::<Error>::empty() =~= Seq::<Error>::empty());
    }
}

/// So does a whole expression.
proof fn lemma_lone_primary(ts: Seq<Token>, p: int)
    requires
        lone_primary(ts, p),
    ensures
        assignment(ts, p) == primary(ts, p),
{
    lemma_lone_binary(ts, p, OR_LEVEL);
}

/// Recovery after a missing `)`: in any token sequence spelled like
/// `if (true { 1; } let y = 2;`, the `if` is dropped with a diagnostic for the
/// missing `)` and one for the stray `}`, and parsing resumes at the `let`,
/// whose declaration is kept.
pub proof fn lemma_missing_paren_recovers(ts: Seq<Token>)
    requires
        ts.len() == 13,
        ts[0].kind == TokenType::If,
        ts[1].kind == TokenType::LeftParen,
        ts[2].kind == TokenType::True,
        ts[3].kind == TokenType::LeftBrace,
        ts[4].kind == TokenType::Number,
        ts[5].kind == TokenType::Semicolon,
        ts[6].kind == TokenType::RightBrace,
        ts[7].kind == TokenType::Let,
        ts[8].kind == TokenType::Identifier,
        ts[9].kind == TokenType::Equal,
        ts[10].kind == TokenType::Number,
        ts[11].kind == TokenType::Semicolon,
        ts[12].kind == TokenType::Eof,
    ensures
        program(ts).0 == seq![
            StmtView::Let(ts[8], Some(Expr::Literal(token_literal(ts[10])))),
        ],
        program(ts).1 == seq![
            unexpected(ts, 3, TokenType::RightParen),
            Error {
                kind: ErrorKind::ExpectedExpression { found: TokenType::RightBrace },
                position: ts[6].line,
            },
        ],
{
    let e1 = unexpected(ts, 3, TokenType::RightParen);
    let e2 = Error {
        kind: ErrorKind::ExpectedExpression { found: TokenType::RightBrace },
        position: ts[6].line,
    };
    let empty = Seq::<Error>::empty();
    // The condition stops at the `{` where its `)` should be.
    assert(ends_operand(ts[3].kind)) by {
        assert forall|l: u8| !#[trigger] level_operator(l, ts[3].kind) by {}
    }
    lemma_lone_primary(ts, 2);
    assert(assignment(ts, 2) == done(Expr::Literal(crate::token::Literal::Bool(true)), 3, empty));
    assert(condition(ts, 1).result == Err::<Expr, Error>(e1));
    assert(condition(ts, 1).pos == 3);
    assert(empty + seq![e1] =~= seq![e1]);
    assert(condition(ts, 1).errors == seq![e1]);
    assert(statement(ts, 0).result == Err::<StmtView, Error>(e1));
    assert(statement(ts, 0).pos == 3);
    // Recovery skips to the token after the `;`.
    assert(resume(ts, 6) == 6);
    assert(resume(ts, 5) == 6);
    assert(resume(ts, 4) == 6);
    assert(synchronize(ts, 3) == 6);
    assert(declaration(ts, 0).pos == 6);
    assert(declaration(ts, 0).errors == seq![e1]);
    // The stray `}` starts no expression.
    lemma_lone_primary(ts, 6);
    assert(primary(ts, 6).result == Err::<Expr, Error>(e2));
    assert(expression_statement(ts, 6).result == Err::<StmtView, Error>(e2));
    assert(expression_statement(ts, 6).pos == 6);
    assert(statement(ts, 6) == expression_statement(ts, 6));
    assert(resume(ts, 7) == 7);
    assert(synchronize(ts, 6) == 7);
    assert(declaration(ts, 6).pos == 7);
    assert(declaration(ts, 6).errors == seq![e2]);
    // The `let` parses.
    assert(ends_operand(ts[11].kind)) by {
        assert forall|l: u8| !#[trigger] level_operator(l, ts[11].kind) by {}
    }
    lemma_lone_primary(ts, 10);
    let init = Expr::Literal(token_literal(ts[10]));
    assert(assignment(ts, 10) == done(init, 11, empty));
    assert(finish_let(ts, ts[8], Some(init), 11, empty) == done(StmtView::Let(ts[8], Some(init)), 12, empty));
    assert(var_declaration(ts, 8) == done(StmtView::Let(ts[8], Some(init)), 12, empty));
    assert(declaration(ts, 7) == var_declaration(ts, 8));
    // The program.
    assert(program_from(ts, 12) == (Seq::<StmtView>::empty(), empty));
    let let_stmt = StmtView::Let(ts[8], Some(init));
    assert(program_from(ts, 7).0 =~= seq![let_stmt]);
    assert(program_from(ts, 7).1 =~= empty);
    assert(program_from(ts, 6).0 =~= seq![let_stmt]);
    assert(program_from(ts, 6).1 =~= seq![e2]);
    assert(program_from(ts, 0).0 =~= seq![let_stmt]);
    assert(program_from(ts, 0).1 =~= seq![e1, e2]);
}

/// A missing `)` drops the statement: in any token sequence spelled like
/// `if (true { 1; }`, nothing is kept, and a diagnostic is reported for the
/// missing `)` and one for the stray `}`.
pub proof fn lemma_missing_paren_drops(ts: Seq<Token>)
    requires
        ts.len() == 8,
        ts[0].kind == TokenType::If,
        ts[1].kind == TokenType::LeftParen,
        ts[2].kind == TokenType::True,
        ts[3].kind == TokenType::LeftBrace,
        ts[4].kind == TokenType::Number,
        ts[5].kind == TokenType::Semicolon,
        ts[6].kind == TokenType::RightBrace,
        ts[7].kind == TokenType::Eof,
    ensures
        program(ts).0 == Seq::<StmtView>::empty(),
        program(ts).1 == seq![
            unexpected(ts, 3, TokenType::RightParen),
            Error {
                kind: ErrorKind::ExpectedExpression { found: TokenType::RightBrace },
                position: ts[6].line,
            },
        ],
{
    let e1 = unexpected(ts, 3, TokenType::RightParen);
    let e2 = Error {
        kind: ErrorKind::ExpectedExpression { found: TokenType::RightBrace },
        position: ts[6].line,
    };
    let empty = Seq::<Error>::empty();
    assert(ends_operand(ts[3].kind)) by {
        assert forall|l: u8| !#[trigger] level_operator(l, ts[3].kind) by {}
    }
    lemma_lone_primary(ts, 2);
    assert(assignment(ts, 2) == done(Expr::Literal(crate::token::Literal::Bool(true)), 3, empty));
    assert(condition(ts, 1).result == Err::<Expr, Error>(e1));
    assert(condition(ts, 1).pos == 3);
    assert(empty + seq![e1] =~= seq![e1]);
    assert(statement(ts, 0).result == Err::<StmtView, Error>(e1));
    assert(statement(ts, 0).pos == 3);
    assert(resume(ts, 6) == 6);
    assert(resume(ts, 5) == 6);
    assert(resume(ts, 4) == 6);
    assert(declaration(ts, 0).pos == 6);
    assert(declaration(ts, 0).errors == seq![e1]);
    lemma_lone_primary(ts, 6);
    assert(expression_statement(ts, 6).result == Err::<StmtView, Error>(e2));
    assert(statement(ts, 6) == expression_statement(ts, 6));
    assert(synchronize(ts, 6) == 7);
    assert(declaration(ts, 6).pos == 7);
    assert(declaration(ts, 6).errors == seq![e2]);
    assert(program_from(ts, 7) == (Seq::<StmtView>::empty(), empty));
    assert(program_from(ts, 6).0 =~= Seq::<StmtView>::empty());
    assert(program_from(ts, 6).1 =~= seq![e2]);
    assert(program_from(ts, 0).0 =~= Seq::<StmtView>::empty());
    assert(program_from(ts, 0).1 =~= seq![e1, e2]);
}

} // verus!
