//! The syntactic grammar as functions from a token sequence and a position to
//! what the parser returns there, where it stops, and the diagnostics it
//! reports on the way. Expressions climb precedence levels, statements follow
//! the statement grammar, and a failed declaration is skipped up to the next
//! likely statement boundary.
use crate::ast::{Expr, StmtView};
use crate::error::{Error, ErrorKind};
use crate::token::{Literal, Token, TokenType};
use vstd::prelude::*;

verus! {

/// What a grammar rule gives at a position: a value or the failure it
/// reported, the position where it stopped, and every diagnostic it reported.
pub struct Parsed<T> {
    pub result: Result<T, Error>,
    pub pos: int,
    pub errors: Seq<Error>,
}

/// The precedence levels of binary operators, loosest first.
pub const OR_LEVEL: u8 = 6;

pub const AND_LEVEL: u8 = 5;

pub const EQUALITY_LEVEL: u8 = 4;

pub const COMPARISON_LEVEL: u8 = 3;

pub const TERM_LEVEL: u8 = 2;

pub const FACTOR_LEVEL: u8 = 1;

pub open spec fn at_end(ts: Seq<Token>, p: int) -> bool {
    ts[p].kind == TokenType::Eof
}

/// Whether the token at `p` has `kind`; never at the end.
pub open spec fn check(ts: Seq<Token>, p: int, kind: TokenType) -> bool {
    !at_end(ts, p) && ts[p].kind == kind
}

/// The diagnostic for a missing token of `kind` at `p`.
pub open spec fn unexpected(ts: Seq<Token>, p: int, kind: TokenType) -> Error {
    Error {
        kind: ErrorKind::UnexpectedToken { expected: kind, found: ts[p].kind },
        position: ts[p].line,
    }
}

pub open spec fn fail<T>(e: Error, pos: int, errors: Seq<Error>) -> Parsed<T> {
    Parsed { result: Err(e), pos, errors }
}

pub open spec fn done<T>(v: T, pos: int, errors: Seq<Error>) -> Parsed<T> {
    Parsed { result: Ok(v), pos, errors }
}

/// The token of `kind` at `p`, or the diagnostic for its absence.
pub open spec fn consume(ts: Seq<Token>, p: int, kind: TokenType) -> Parsed<Token> {
    if check(ts, p, kind) {
        done(ts[p], p + 1, Seq::empty())
    } else {
        fail(unexpected(ts, p, kind), p, seq![unexpected(ts, p, kind)])
    }
}

/// Whether `kind` is an operator of the binary precedence `level`.
pub open spec fn level_operator(level: u8, kind: TokenType) -> bool {
    if level == OR_LEVEL {
        kind == TokenType::Or
    } else if level == AND_LEVEL {
        kind == TokenType::And
    } else if level == EQUALITY_LEVEL {
        kind == TokenType::BangEqual || kind == TokenType::EqualEqual
    } else if level == COMPARISON_LEVEL {
        kind == TokenType::Greater || kind == TokenType::GreaterEqual || kind == TokenType::Less
            || kind == TokenType::LessEqual
    } else if level == TERM_LEVEL {
        kind == TokenType::Plus || kind == TokenType::Minus
    } else {
        kind == TokenType::Slash || kind == TokenType::Star
    }
}

/// The node for `left op right` at `level`: `and` and `or` short-circuit.
pub open spec fn combine(level: u8, left: Expr, op: Token, right: Expr) -> Expr {
    if level >= AND_LEVEL {
        Expr::Logical(Box::new(left), op, Box::new(right))
    } else {
        Expr::Binary(Box::new(left), op, Box::new(right))
    }
}

/// The literal of a number or string token.
pub open spec fn token_literal(t: Token) -> Literal {
    match t.literal {
        Some(l) => l,
        None => Literal::Nil,
    }
}

/// `expression := assignment`, where
/// `assignment := logic_or ( "=" assignment )?`.
pub open spec fn assignment(ts: Seq<Token>, p: int) -> Parsed<Expr>
    decreases ts.len() - p, 17int,
{
    let l = binary(ts, p, OR_LEVEL);
    match l.result {
        Err(e) => l,
        Ok(left) => if p <= l.pos < ts.len() && check(ts, l.pos, TokenType::Equal) {
            let equals = ts[l.pos];
            let r = assignment(ts, l.pos + 1);
            match r.result {
                Err(e) => fail(e, r.pos, l.errors + r.errors),
                Ok(value) => match left {
                    Expr::Variable(name) => done(
                        Expr::Assign(name, Box::new(value)),
                        r.pos,
                        l.errors + r.errors,
                    ),
                    _ => done(
                        left,
                        r.pos,
                        l.errors + r.errors + seq![
                            Error { kind: ErrorKind::InvalidAssignmentTarget, position: equals.line },
                        ],
                    ),
                },
            }
        } else {
            l
        },
    }
}

/// An operand of the binary `level`: the next tighter level.
pub open spec fn operand(ts: Seq<Token>, p: int, level: u8) -> Parsed<Expr>
    decreases ts.len() - p, 2 * level + 3,
{
    if level <= FACTOR_LEVEL {
        unary(ts, p)
    } else {
        binary(ts, p, (level - 1) as u8)
    }
}

/// `level := operand ( OPERATOR operand )*`, left-associative.
pub open spec fn binary(ts: Seq<Token>, p: int, level: u8) -> Parsed<Expr>
    decreases ts.len() - p, 2 * level + 4,
{
    let l = operand(ts, p, level);
    match l.result {
        Err(e) => l,
        Ok(left) => if p <= l.pos < ts.len() {
            let rest = binary_rest(ts, left, l.pos, level);
            Parsed { result: rest.result, pos: rest.pos, errors: l.errors + rest.errors }
        } else {
            l
        },
    }
}

/// The operators and operands of `level` that follow `left` from `p` on.
pub open spec fn binary_rest(ts: Seq<Token>, left: Expr, p: int, level: u8) -> Parsed<Expr>
    decreases ts.len() - p, 2 * level + 3,
{
    if 0 <= p < ts.len() && !at_end(ts, p) && level_operator(level, ts[p].kind) {
        let op = ts[p];
        let r = operand(ts, p + 1, level);
        match r.result {
            Err(e) => r,
            Ok(right) => {
                let node = combine(level, left, op, right);
                if p < r.pos < ts.len() {
                    let rest = binary_rest(ts, node, r.pos, level);
                    Parsed { result: rest.result, pos: rest.pos, errors: r.errors + rest.errors }
                } else {
                    done(node, r.pos, r.errors)
                }
            },
        }
    } else {
        done(left, p, Seq::empty())
    }
}

/// `unary := ( "!" | "-" ) unary | primary`.
pub open spec fn unary(ts: Seq<Token>, p: int) -> Parsed<Expr>
    decreases ts.len() - p, 1int,
{
    if 0 <= p < ts.len() && (check(ts, p, TokenType::Bang) || check(ts, p, TokenType::Minus)) {
        let r = unary(ts, p + 1);
        match r.result {
            Err(e) => r,
            Ok(right) => done(Expr::Unary(ts[p], Box::new(right)), r.pos, r.errors),
        }
    } else {
        primary(ts, p)
    }
}

/// `primary := "false" | "true" | NUMBER | STRING | IDENTIFIER | "(" expression ")"`.
pub open spec fn primary(ts: Seq<Token>, p: int) -> Parsed<Expr>
    decreases ts.len() - p, 0int,
{
    if check(ts, p, TokenType::False) {
        done(Expr::Literal(Literal::Bool(false)), p + 1, Seq::empty())
    } else if check(ts, p, TokenType::True) {
        done(Expr::Literal(Literal::Bool(true)), p + 1, Seq::empty())
    } else if check(ts, p, TokenType::Number) || check(ts, p, TokenType::String) {
        done(Expr::Literal(token_literal(ts[p])), p + 1, Seq::empty())
    } else if check(ts, p, TokenType::Identifier) {
        done(Expr::Variable(ts[p]), p + 1, Seq::empty())
    } else if 0 <= p < ts.len() && check(ts, p, TokenType::LeftParen) {
        let e = assignment(ts, p + 1);
        match e.result {
            Err(x) => e,
            Ok(inner) => {
                let close = consume(ts, e.pos, TokenType::RightParen);
                match close.result {
                    Err(x) => fail(x, e.pos, e.errors + close.errors),
                    Ok(_) => done(Expr::Grouping(Box::new(inner)), close.pos, e.errors),
                }
            },
        }
    } else {
        let e = Error {
            kind: ErrorKind::ExpectedExpression { found: ts[p].kind },
            position: ts[p].line,
        };
        fail(e, p, seq![e])
    }
}

/// `expression := assignment`.
pub open spec fn expression(ts: Seq<Token>, p: int) -> Parsed<Expr> {
    assignment(ts, p)
}

/// The keywords at which recovery resumes.
pub open spec fn starts_statement(kind: TokenType) -> bool {
    kind == TokenType::Let || kind == TokenType::For || kind == TokenType::If || kind
        == TokenType::While || kind == TokenType::Fn || kind == TokenType::Return
}

/// Recovery after a failed declaration that stopped at `p`: skip that token,
/// then every token up to the end, to the first one after a `;`, or to a
/// statement keyword.
pub open spec fn synchronize(ts: Seq<Token>, p: int) -> int {
    resume(ts, if at_end(ts, p) { p } else { p + 1 })
}

pub open spec fn resume(ts: Seq<Token>, q: int) -> int
    decreases ts.len() - q,
{
    if q < 1 || q >= ts.len() || at_end(ts, q) {
        q
    } else if ts[q - 1].kind == TokenType::Semicolon || starts_statement(ts[q].kind) {
        q
    } else {
        resume(ts, q + 1)
    }
}

/// The statement of a result that succeeded, if it did.
pub open spec fn kept<T>(r: Result<T, Error>) -> Seq<T> {
    match r {
        Ok(v) => seq![v],
        Err(_) => Seq::empty(),
    }
}

/// Where positions would not move forward the grammar stops with a
/// diagnostic; the parser's proofs show that they always move.
pub open spec fn stalled<T>(ts: Seq<Token>, q: int, errors: Seq<Error>) -> Parsed<T> {
    fail(unexpected(ts, q, TokenType::Eof), q, errors + seq![unexpected(ts, q, TokenType::Eof)])
}

/// `exprStmt := expression ";"`.
pub open spec fn expression_statement(ts: Seq<Token>, p: int) -> Parsed<StmtView> {
    let e = expression(ts, p);
    match e.result {
        Err(x) => fail(x, e.pos, e.errors),
        Ok(v) => {
            let c = consume(ts, e.pos, TokenType::Semicolon);
            match c.result {
                Err(x) => fail(x, e.pos, e.errors + c.errors),
                Ok(_) => done(StmtView::Expression(v), c.pos, e.errors),
            }
        },
    }
}

/// The `;` that ends a `let` declaration of `name` whose initializer, if any,
/// stopped at `q`.
pub open spec fn finish_let(ts: Seq<Token>, name: Token, init: Option<Expr>, q: int, errors: Seq<Error>) -> Parsed<StmtView> {
    let c = consume(ts, q, TokenType::Semicolon);
    match c.result {
        Err(x) => fail(x, q, errors + c.errors),
        Ok(_) => done(StmtView::Let(name, init), c.pos, errors),
    }
}

/// `varDecl := IDENTIFIER ( "=" expression )? ";"`, after the `let`.
pub open spec fn var_declaration(ts: Seq<Token>, p: int) -> Parsed<StmtView> {
    let n = consume(ts, p, TokenType::Identifier);
    match n.result {
        Err(x) => fail(x, p, n.errors),
        Ok(name) => if check(ts, p + 1, TokenType::Equal) {
            let e = expression(ts, p + 2);
            match e.result {
                Err(x) => fail(x, e.pos, e.errors),
                Ok(init) => finish_let(ts, name, Some(init), e.pos, e.errors),
            }
        } else {
            finish_let(ts, name, None, p + 1, Seq::empty())
        },
    }
}

/// The initializer of a `for`, after its `(`: a `let` declaration, an
/// expression statement, or a lone `;`.
pub open spec fn for_initializer(ts: Seq<Token>, p: int) -> Parsed<Option<StmtView>> {
    if check(ts, p, TokenType::Semicolon) {
        done(None, p + 1, Seq::empty())
    } else {
        let s = if check(ts, p, TokenType::Let) {
            var_declaration(ts, p + 1)
        } else {
            expression_statement(ts, p)
        };
        match s.result {
            Err(x) => fail(x, s.pos, s.errors),
            Ok(v) => done(Some(v), s.pos, s.errors),
        }
    }
}

/// The condition of a `for` through its `;`; `true` where it is left out.
pub open spec fn for_condition(ts: Seq<Token>, p: int) -> Parsed<Expr> {
    let c = if check(ts, p, TokenType::Semicolon) {
        done(Expr::Literal(Literal::Bool(true)), p, Seq::empty())
    } else {
        expression(ts, p)
    };
    match c.result {
        Err(x) => c,
        Ok(condition) => {
            let semi = consume(ts, c.pos, TokenType::Semicolon);
            match semi.result {
                Err(x) => fail(x, c.pos, c.errors + semi.errors),
                Ok(_) => done(condition, semi.pos, c.errors),
            }
        },
    }
}

/// The increment of a `for`, if any, through its `)`.
pub open spec fn for_increment(ts: Seq<Token>, p: int) -> Parsed<Option<Expr>> {
    if check(ts, p, TokenType::RightParen) {
        done(None, p + 1, Seq::empty())
    } else {
        let e = expression(ts, p);
        match e.result {
            Err(x) => fail(x, e.pos, e.errors),
            Ok(increment) => {
                let close = consume(ts, e.pos, TokenType::RightParen);
                match close.result {
                    Err(x) => fail(x, e.pos, e.errors + close.errors),
                    Ok(_) => done(Some(increment), close.pos, e.errors),
                }
            },
        }
    }
}

/// The three clauses of a `for`, after its `(`, through its `)`.
pub open spec fn for_clauses(ts: Seq<Token>, p: int) -> Parsed<(Option<StmtView>, Expr, Option<Expr>)> {
    let i = for_initializer(ts, p);
    match i.result {
        Err(x) => fail(x, i.pos, i.errors),
        Ok(initializer) => {
            let c = for_condition(ts, i.pos);
            match c.result {
                Err(x) => fail(x, c.pos, i.errors + c.errors),
                Ok(condition) => {
                    let n = for_increment(ts, c.pos);
                    match n.result {
                        Err(x) => fail(x, n.pos, i.errors + c.errors + n.errors),
                        Ok(increment) => done(
                            (initializer, condition, increment),
                            n.pos,
                            i.errors + c.errors + n.errors,
                        ),
                    }
                },
            }
        },
    }
}

/// The `while` loop that a `for` stands for: the increment runs after the
/// body, and the initializer before the loop, each in a block of its own.
pub open spec fn desugar_for(init: Option<StmtView>, condition: Expr, increment: Option<Expr>, body: StmtView) -> StmtView {
    let body = match increment {
        Some(i) => StmtView::Block(seq![body, StmtView::Expression(i)]),
        None => body,
    };
    let looped = StmtView::While(condition, Box::new(body));
    match init {
        Some(s) => StmtView::Block(seq![s, looped]),
        None => looped,
    }
}

/// `"(" expression ")"`: the condition of an `if` or a `while`.
pub open spec fn condition(ts: Seq<Token>, p: int) -> Parsed<Expr> {
    let o = consume(ts, p, TokenType::LeftParen);
    match o.result {
        Err(x) => fail(x, p, o.errors),
        Ok(_) => {
            let c = expression(ts, p + 1);
            match c.result {
                Err(x) => c,
                Ok(v) => {
                    let close = consume(ts, c.pos, TokenType::RightParen);
                    match close.result {
                        Err(x) => fail(x, c.pos, c.errors + close.errors),
                        Ok(_) => done(v, close.pos, c.errors),
                    }
                },
            }
        },
    }
}

/// `declaration := "let" varDecl | statement`; a failure is reported and
/// skipped by `synchronize`.
pub open spec fn declaration(ts: Seq<Token>, p: int) -> Parsed<StmtView>
    decreases ts.len() - p, 2int,
{
    let a = if check(ts, p, TokenType::Let) {
        var_declaration(ts, p + 1)
    } else {
        statement(ts, p)
    };
    match a.result {
        Ok(_) => a,
        Err(e) => fail(e, synchronize(ts, a.pos), a.errors),
    }
}

/// `statement := "for" forStmt | "if" ifStmt | "while" whileStmt | "{" block
/// | "fn" fnStmt | exprStmt`.
pub open spec fn statement(ts: Seq<Token>, p: int) -> Parsed<StmtView>
    decreases ts.len() - p, 1int,
{
    if !(0 <= p < ts.len()) {
        stalled(ts, p, Seq::empty())
    } else if check(ts, p, TokenType::For) {
        for_statement(ts, p + 1)
    } else if check(ts, p, TokenType::If) {
        if_statement(ts, p + 1)
    } else if check(ts, p, TokenType::While) {
        while_statement(ts, p + 1)
    } else if check(ts, p, TokenType::LeftBrace) {
        let b = block(ts, p + 1);
        match b.result {
            Err(x) => fail(x, b.pos, b.errors),
            Ok(items) => done(StmtView::Block(items), b.pos, b.errors),
        }
    } else if check(ts, p, TokenType::Fn) {
        fn_statement(ts, p + 1)
    } else {
        expression_statement(ts, p)
    }
}

/// `block := declaration* "}"`, after the `{`.
pub open spec fn block(ts: Seq<Token>, p: int) -> Parsed<Seq<StmtView>>
    decreases ts.len() - p, 4int,
{
    let b = block_items(ts, p);
    let items = match b.result {
        Ok(v) => v,
        Err(_) => Seq::empty(),
    };
    let close = consume(ts, b.pos, TokenType::RightBrace);
    match close.result {
        Err(x) => fail(x, b.pos, b.errors + close.errors),
        Ok(_) => done(items, close.pos, b.errors),
    }
}

/// The declarations from `p` up to a `}` or the end.
pub open spec fn block_items(ts: Seq<Token>, p: int) -> Parsed<Seq<StmtView>>
    decreases ts.len() - p, 3int,
{
    if 0 <= p < ts.len() && !at_end(ts, p) && !check(ts, p, TokenType::RightBrace) {
        let d = declaration(ts, p);
        if p < d.pos < ts.len() {
            let rest = block_items(ts, d.pos);
            let items = match rest.result {
                Ok(v) => v,
                Err(_) => Seq::empty(),
            };
            done(kept(d.result) + items, rest.pos, d.errors + rest.errors)
        } else {
            done(kept(d.result), d.pos, d.errors)
        }
    } else {
        done(Seq::empty(), p, Seq::empty())
    }
}

/// `ifStmt := "(" expression ")" statement ( "else" statement )?`, after the `if`.
pub open spec fn if_statement(ts: Seq<Token>, p: int) -> Parsed<StmtView>
    decreases ts.len() - p, 0int,
{
    let c = condition(ts, p);
    match c.result {
        Err(x) => fail(x, c.pos, c.errors),
        Ok(cond) => if p < c.pos < ts.len() {
            let t = statement(ts, c.pos);
            match t.result {
                Err(x) => fail(x, t.pos, c.errors + t.errors),
                Ok(then_branch) => if c.pos < t.pos < ts.len() && check(ts, t.pos, TokenType::Else) {
                    let e = statement(ts, t.pos + 1);
                    match e.result {
                        Err(x) => fail(x, e.pos, c.errors + t.errors + e.errors),
                        Ok(else_branch) => done(
                            StmtView::If(cond, Box::new(then_branch), Some(Box::new(else_branch))),
                            e.pos,
                            c.errors + t.errors + e.errors,
                        ),
                    }
                } else {
                    done(StmtView::If(cond, Box::new(then_branch), None), t.pos, c.errors + t.errors)
                },
            }
        } else {
            stalled(ts, c.pos, c.errors)
        },
    }
}

/// `whileStmt := "(" expression ")" statement`, after the `while`.
pub open spec fn while_statement(ts: Seq<Token>, p: int) -> Parsed<StmtView>
    decreases ts.len() - p, 0int,
{
    let c = condition(ts, p);
    match c.result {
        Err(x) => fail(x, c.pos, c.errors),
        Ok(cond) => if p < c.pos < ts.len() {
            let b = statement(ts, c.pos);
            match b.result {
                Err(x) => fail(x, b.pos, c.errors + b.errors),
                Ok(body) => done(StmtView::While(cond, Box::new(body)), b.pos, c.errors + b.errors),
            }
        } else {
            stalled(ts, c.pos, c.errors)
        },
    }
}

/// `forStmt := "(" ( varDecl | exprStmt | ";" ) expression? ";" expression? ")"
/// statement`, after the `for`, as the `while` loop it stands for.
pub open spec fn for_statement(ts: Seq<Token>, p: int) -> Parsed<StmtView>
    decreases ts.len() - p, 0int,
{
    let o = consume(ts, p, TokenType::LeftParen);
    match o.result {
        Err(x) => fail(x, p, o.errors),
        Ok(_) => {
            let c = for_clauses(ts, p + 1);
            match c.result {
                Err(x) => fail(x, c.pos, c.errors),
                Ok(clauses) => if p < c.pos < ts.len() {
                    let b = statement(ts, c.pos);
                    match b.result {
                        Err(x) => fail(x, b.pos, c.errors + b.errors),
                        Ok(body) => done(
                            desugar_for(clauses.0, clauses.1, clauses.2, body),
                            b.pos,
                            c.errors + b.errors,
                        ),
                    }
                } else {
                    stalled(ts, c.pos, c.errors)
                },
            }
        },
    }
}

/// `fnStmt := IDENTIFIER "(" ")" "{" block`, after the `fn`: a function
/// without parameters whose body is a block.
pub open spec fn fn_statement(ts: Seq<Token>, p: int) -> Parsed<StmtView>
    decreases ts.len() - p, 0int,
{
    let n = consume(ts, p, TokenType::Identifier);
    let o = consume(ts, p + 1, TokenType::LeftParen);
    let c = consume(ts, p + 2, TokenType::RightParen);
    let b = consume(ts, p + 3, TokenType::LeftBrace);
    match (n.result, o.result, c.result, b.result) {
        (Err(x), _, _, _) => fail(x, p, n.errors),
        (Ok(_), Err(x), _, _) => fail(x, p + 1, o.errors),
        (Ok(_), Ok(_), Err(x), _) => fail(x, p + 2, c.errors),
        (Ok(_), Ok(_), Ok(_), Err(x)) => fail(x, p + 3, b.errors),
        (Ok(name), Ok(_), Ok(_), Ok(_)) => if 0 <= p && p + 4 < ts.len() {
            let body = block(ts, p + 4);
            match body.result {
                Err(x) => fail(x, body.pos, body.errors),
                Ok(items) => done(
                    StmtView::Fn(name, Seq::empty(), Box::new(StmtView::Block(items))),
                    body.pos,
                    body.errors,
                ),
            }
        } else {
            stalled(ts, p + 4, Seq::empty())
        },
    }
}

/// The statements of a whole program from `p` on, and its diagnostics.
pub open spec fn program_from(ts: Seq<Token>, p: int) -> (Seq<StmtView>, Seq<Error>)
    decreases ts.len() - p,
{
    if 0 <= p < ts.len() && !at_end(ts, p) {
        let d = declaration(ts, p);
        if p < d.pos < ts.len() {
            let rest = program_from(ts, d.pos);
            (kept(d.result) + rest.0, d.errors + rest.1)
        } else {
            (kept(d.result), d.errors)
        }
    } else {
        (Seq::empty(), Seq::empty())
    }
}

/// `program := declaration* EOF`: the statements that parsed and every
/// diagnostic, in order.
pub open spec fn program(ts: Seq<Token>) -> (Seq<StmtView>, Seq<Error>) {
    program_from(ts, 0)
}

pub broadcast proof fn lemma_concat_assoc<A>(a: Seq<A>, b: Seq<A>, c: Seq<A>)
    ensures
        #[trigger] ((a + b) + c) == a + (b + c),
{
    assert(((a + b) + c) =~= a + (b + c));
}

pub broadcast proof fn lemma_concat_empty<A>(a: Seq<A>)
    ensures
        #[trigger] (a + Seq::<A>::empty()) == a,
{
    assert(a + Seq::<A>::empty() =~= a);
}

} // verus!
