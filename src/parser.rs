//! The parser: recursive descent over a token sequence with panic-mode
//! recovery, proved to follow the grammar of `grammar`.
use crate::ast::{
    lemma_names_view_empty, lemma_stmts_view_pair, lemma_stmts_view_push, stmt_view, stmts_view, Expr, Stmt, StmtView,
};
use crate::error::{Error, ErrorKind};
use crate::grammar::{
    assignment, at_end, binary, binary_rest, check, combine, consume, level_operator, operand,
    primary, unary, Parsed, lemma_concat_assoc, lemma_concat_empty, block,
    block_items, condition, declaration, desugar_for, expression_statement, fn_statement,
    for_clauses, for_condition, for_increment, for_initializer, for_statement, if_statement, kept, program, program_from, resume, statement,
    synchronize, var_declaration, while_statement, AND_LEVEL, COMPARISON_LEVEL, EQUALITY_LEVEL,
    FACTOR_LEVEL, OR_LEVEL, TERM_LEVEL,
};
use crate::token::{parsable, Literal, Token, TokenType};
use vstd::prelude::*;

verus! {



/// Parses a token sequence into statements, collecting syntax diagnostics.
pub struct Parser {
    tokens: Vec<Token>,
    current: usize,
    errors: Vec<Error>,
}

pub open spec fn stmt_result(r: Result<Stmt, Error>) -> Result<StmtView, Error> {
    match r {
        Ok(s) => Ok(stmt_view(s)),
        Err(e) => Err(e),
    }
}

pub open spec fn block_result(r: Result<Vec<Stmt>, Error>) -> Result<Seq<StmtView>, Error> {
    match r {
        Ok(v) => Ok(stmts_view(v@)),
        Err(e) => Err(e),
    }
}

pub open spec fn option_stmt(s: Option<Stmt>) -> Option<StmtView> {
    match s {
        Some(s) => Some(stmt_view(s)),
        None => None,
    }
}

pub open spec fn clauses_result(r: Result<(Option<Stmt>, Expr, Option<Expr>), Error>) -> Result<
    (Option<StmtView>, Expr, Option<Expr>),
    Error,
> {
    match r {
        Ok((i, c, n)) => Ok((option_stmt(i), c, n)),
        Err(e) => Err(e),
    }
}

/// `after` is `before` moved on by the grammar step `s`.
spec fn stepped<T>(before: Parser, after: Parser, s: Parsed<T>) -> bool {
    &&& after.wf()
    &&& after.tokens@ == before.tokens@
    &&& after.current == s.pos
    &&& after.errors@ == before.errors@ + s.errors
    &&& before.current <= after.current
}

impl Parser {
    /// The tokens being parsed.
    pub closed spec fn tokens(&self) -> Seq<Token> {
        self.tokens@
    }

    /// The index of the token the parser reads next.
    pub closed spec fn position(&self) -> int {
        self.current as int
    }

    /// The syntax diagnostics of the last parse.
    pub closed spec fn diagnostics(&self) -> Seq<Error> {
        self.errors@
    }

    pub closed spec fn wf(&self) -> bool {
        parsable(self.tokens@) && self.current < self.tokens@.len()
    }

    spec fn pos(&self) -> int {
        self.current as int
    }

    pub fn new(tokens: Vec<Token>) -> (r: Self)
        requires
            parsable(tokens@),
        ensures
            r.wf(),
            r.tokens() == tokens@,
            r.position() == 0,
            r.diagnostics() == Seq::<Error>::empty(),
    {
        broadcast use lemma_concat_assoc, lemma_concat_empty;

        Parser { tokens, current: 0, errors: Vec::new() }
    }

    /// The diagnostics of the last parse, in the order they were found.
    pub fn errors(&self) -> (r: &Vec<Error>)
        ensures
            r@ == self.diagnostics(),
    {
        broadcast use lemma_concat_assoc, lemma_concat_empty;

        &self.errors
    }

    fn peek_kind(&self) -> (r: TokenType)
        requires
            self.wf(),
        ensures
            r == self.tokens@[self.pos()].kind,
    {
        broadcast use lemma_concat_assoc, lemma_concat_empty;

        self.tokens[self.current].kind
    }

    fn is_at_end(&self) -> (r: bool)
        requires
            self.wf(),
        ensures
            r == at_end(self.tokens@, self.pos()),
    {
        broadcast use lemma_concat_assoc, lemma_concat_empty;

        self.peek_kind() == TokenType::Eof
    }

    fn check(&self, kind: TokenType) -> (r: bool)
        requires
            self.wf(),
        ensures
            r == check(self.tokens@, self.pos(), kind),
    {
        broadcast use lemma_concat_assoc, lemma_concat_empty;

        !self.is_at_end() && self.peek_kind() == kind
    }

    /// The current token, read: the position moves on unless it is the end.
    fn advance(&mut self) -> (r: Token)
        requires
            old(self).wf(),
        ensures
            final(self).wf(),
            final(self).tokens@ == old(self).tokens@,
            final(self).errors@ == old(self).errors@,
            r == old(self).tokens@[old(self).pos()],
            final(self).current == if at_end(old(self).tokens@, old(self).pos()) {
                old(self).current as int
            } else {
                old(self).current + 1
            },
    {
        broadcast use lemma_concat_assoc, lemma_concat_empty;

        let t = self.tokens[self.current].clone();
        if !self.is_at_end() && self.current < self.tokens.len() - 1 {
            self.current = self.current + 1;
        }
        t
    }

    fn report(&mut self, e: Error)
        ensures
            final(self).tokens@ == old(self).tokens@,
            final(self).current == old(self).current,
            final(self).errors@ == old(self).errors@ + seq![e],
    {
        broadcast use lemma_concat_assoc, lemma_concat_empty;

        self.errors.push(e);
        assert(self.errors@ =~= old(self).errors@ + seq![e]);
    }

    /// The current token where it has `kind`; else the diagnostic for it.
    fn consume(&mut self, kind: TokenType) -> (r: Result<Token, Error>)
        requires
            old(self).wf(),
        ensures
            stepped(*old(self), *final(self), consume(old(self).tokens@, old(self).pos(), kind)),
            r == consume(old(self).tokens@, old(self).pos(), kind).result,
            r is Ok ==> old(self).current < final(self).current,
    {
        broadcast use lemma_concat_assoc, lemma_concat_empty;

        if self.check(kind) {
            Ok(self.advance())
        } else {
            let found = self.tokens[self.current].kind;
            let e = Error::new(
                ErrorKind::UnexpectedToken { expected: kind, found },
                self.tokens[self.current].line,
            );
            self.report(e);
            Err(e)
        }
    }

    /// `expression := assignment`.
    fn expression(&mut self) -> (r: Result<Expr, Error>)
        requires
            old(self).wf(),
        ensures
            stepped(*old(self), *final(self), assignment(old(self).tokens@, old(self).pos())),
            r == assignment(old(self).tokens@, old(self).pos()).result,
            r is Ok ==> old(self).current < final(self).current,
        decreases old(self).tokens@.len() - old(self).current, 18int,
    {
        broadcast use lemma_concat_assoc, lemma_concat_empty;

        self.assignment()
    }

    fn assignment(&mut self) -> (r: Result<Expr, Error>)
        requires
            old(self).wf(),
        ensures
            stepped(*old(self), *final(self), assignment(old(self).tokens@, old(self).pos())),
            r == assignment(old(self).tokens@, old(self).pos()).result,
            r is Ok ==> old(self).current < final(self).current,
        decreases old(self).tokens@.len() - old(self).current, 17int,
    {
        broadcast use lemma_concat_assoc, lemma_concat_empty;

        let ghost ts = self.tokens@;
        let ghost p = self.pos();
        let ghost errs0 = self.errors@;
        let left = self.binary(OR_LEVEL)?;
        let ghost l = binary(ts, p, OR_LEVEL);
        let ghost errs1 = self.errors@;
        if self.check(TokenType::Equal) {
            let equals = self.advance();
            let value = self.assignment();
            let ghost r = assignment(ts, l.pos + 1);
            match value {
                Err(e) => {
                    Err(e)
                },
                Ok(value) => match left {
                    Expr::Variable(name) => Ok(Expr::Assign(name, Box::new(value))),
                    left => {
                        self.report(Error::new(ErrorKind::InvalidAssignmentTarget, equals.line));
                        Ok(left)
                    },
                },
            }
        } else {
            Ok(left)
        }
    }

    /// An operand of the binary `level`: the next tighter level.
    fn operand(&mut self, level: u8) -> (r: Result<Expr, Error>)
        requires
            old(self).wf(),
            1 <= level <= OR_LEVEL,
        ensures
            stepped(*old(self), *final(self), operand(old(self).tokens@, old(self).pos(), level)),
            r == operand(old(self).tokens@, old(self).pos(), level).result,
            r is Ok ==> old(self).current < final(self).current,
        decreases old(self).tokens@.len() - old(self).current, 2 * level + 3,
    {
        broadcast use lemma_concat_assoc, lemma_concat_empty;

        if level <= FACTOR_LEVEL {
            self.unary()
        } else {
            self.binary(level - 1)
        }
    }

    fn is_level_operator(&self, level: u8) -> (r: bool)
        requires
            self.wf(),
        ensures
            r == (!at_end(self.tokens@, self.pos()) && level_operator(
                level,
                self.tokens@[self.pos()].kind,
            )),
    {
        broadcast use lemma_concat_assoc, lemma_concat_empty;

        if self.is_at_end() {
            return false;
        }
        let k = self.peek_kind();
        if level == OR_LEVEL {
            k == TokenType::Or
        } else if level == AND_LEVEL {
            k == TokenType::And
        } else if level == EQUALITY_LEVEL {
            k == TokenType::BangEqual || k == TokenType::EqualEqual
        } else if level == COMPARISON_LEVEL {
            k == TokenType::Greater || k == TokenType::GreaterEqual || k == TokenType::Less || k
                == TokenType::LessEqual
        } else if level == TERM_LEVEL {
            k == TokenType::Plus || k == TokenType::Minus
        } else {
            k == TokenType::Slash || k == TokenType::Star
        }
    }

    /// One binary precedence level: `or`, `and`, equality, comparison, term
    /// or factor, from loosest to tightest. Operands come from the next
    /// tighter level, and the tree leans left.
    fn binary(&mut self, level: u8) -> (r: Result<Expr, Error>)
        requires
            old(self).wf(),
            1 <= level <= OR_LEVEL,
        ensures
            stepped(*old(self), *final(self), binary(old(self).tokens@, old(self).pos(), level)),
            r == binary(old(self).tokens@, old(self).pos(), level).result,
            r is Ok ==> old(self).current < final(self).current,
        decreases old(self).tokens@.len() - old(self).current, 2 * level + 4,
    {
        broadcast use lemma_concat_assoc, lemma_concat_empty;

        let ghost ts = self.tokens@;
        let ghost p = self.pos();
        let ghost errs0 = self.errors@;
        let mut expr = self.operand(level)?;
        let ghost l = operand(ts, p, level);
        let ghost target = binary(ts, p, level);
        assert(target == Parsed {
            result: binary_rest(ts, expr, l.pos, level).result,
            pos: binary_rest(ts, expr, l.pos, level).pos,
            errors: l.errors + binary_rest(ts, expr, l.pos, level).errors,
        });
        while self.is_level_operator(level)
            invariant
                self.wf(),
                self.tokens@ == ts,
                1 <= level <= OR_LEVEL,
                p < self.current,
                ts == old(self).tokens@,
                p == old(self).pos(),
                errs0 == old(self).errors@,
                target == binary(ts, p, level),
                ({
                    let rest = binary_rest(ts, expr, self.pos(), level);
                    &&& target.result == rest.result
                    &&& target.pos == rest.pos
                    &&& errs0 + target.errors == self.errors@ + rest.errors
                }),
            decreases ts.len() - self.current,
        {
            let ghost q = self.pos();
            let ghost errs = self.errors@;
            let ghost left = expr;
            let op = self.advance();
            let right = self.operand(level);
            match right {
                Err(e) => {
                    assert(binary_rest(ts, left, q, level).result == Err::<Expr, Error>(e));
                    return Err(e);
                },
                Ok(right) => {
                    expr = if level >= AND_LEVEL {
                        Expr::Logical(Box::new(expr), op, Box::new(right))
                    } else {
                        Expr::Binary(Box::new(expr), op, Box::new(right))
                    };
                },
            }
            proof {
                let r = operand(ts, q + 1, level);
                assert(expr == combine(level, left, op, r.result->Ok_0));
            }
        }
        Ok(expr)
    }

    /// `unary := ( "!" | "-" ) unary | primary`.
    fn unary(&mut self) -> (r: Result<Expr, Error>)
        requires
            old(self).wf(),
        ensures
            stepped(*old(self), *final(self), unary(old(self).tokens@, old(self).pos())),
            r == unary(old(self).tokens@, old(self).pos()).result,
            r is Ok ==> old(self).current < final(self).current,
        decreases old(self).tokens@.len() - old(self).current, 1int,
    {
        broadcast use lemma_concat_assoc, lemma_concat_empty;

        if self.check(TokenType::Bang) || self.check(TokenType::Minus) {
            let operator = self.advance();
            let right = self.unary()?;
            Ok(Expr::Unary(operator, Box::new(right)))
        } else {
            self.primary()
        }
    }

    /// `primary := "false" | "true" | NUMBER | STRING | IDENTIFIER | "(" expression ")"`.
    fn primary(&mut self) -> (r: Result<Expr, Error>)
        requires
            old(self).wf(),
        ensures
            stepped(*old(self), *final(self), primary(old(self).tokens@, old(self).pos())),
            r == primary(old(self).tokens@, old(self).pos()).result,
            r is Ok ==> old(self).current < final(self).current,
        decreases old(self).tokens@.len() - old(self).current, 0int,
    {
        broadcast use lemma_concat_assoc, lemma_concat_empty;

        if self.check(TokenType::False) {
            self.advance();
            Ok(Expr::Literal(Literal::Bool(false)))
        } else if self.check(TokenType::True) {
            self.advance();
            Ok(Expr::Literal(Literal::Bool(true)))
        } else if self.check(TokenType::Number) || self.check(TokenType::String) {
            let t = self.advance();
            let literal = match t.literal {
                Some(l) => l,
                None => Literal::Nil,
            };
            Ok(Expr::Literal(literal))
        } else if self.check(TokenType::Identifier) {
            Ok(Expr::Variable(self.advance()))
        } else if self.check(TokenType::LeftParen) {
            self.advance();
            let inner = self.expression()?;
            self.consume(TokenType::RightParen)?;
            Ok(Expr::Grouping(Box::new(inner)))
        } else {
            let t = &self.tokens[self.current];
            let e = Error::new(ErrorKind::ExpectedExpression { found: t.kind }, t.line);
            self.report(e);
            Err(e)
        }
    }
}

impl Parser {
    /// Parses the whole token sequence from its start: the statements that
    /// parsed, in order. The diagnostics of the parse replace those of any
    /// earlier one.
    pub fn parse(&mut self) -> (r: Vec<Stmt>)
        requires
            old(self).wf(),
        ensures
            final(self).wf(),
            final(self).tokens() == old(self).tokens(),
            stmts_view(r@) == program(old(self).tokens()).0,
            final(self).diagnostics() == program(old(self).tokens()).1,
            0 <= final(self).position() < final(self).tokens().len(),
            final(self).tokens()[final(self).position()].kind == TokenType::Eof,
            (forall|i: int|
                0 <= i < old(self).tokens().len() - 1 ==> #[trigger] old(self).tokens()[i].kind
                    != TokenType::Eof) ==> final(self).position() == old(self).tokens().len() - 1,
    {
        broadcast use lemma_concat_assoc, lemma_concat_empty;

        self.current = 0;
        self.errors = Vec::new();
        let ghost ts = self.tokens@;
        let mut statements: Vec<Stmt> = Vec::new();
        while !self.is_at_end()
            invariant
                self.wf(),
                self.tokens@ == ts,
                program(ts).0 == stmts_view(statements@) + program_from(ts, self.pos()).0,
                program(ts).1 == self.errors@ + program_from(ts, self.pos()).1,
            decreases ts.len() - self.current,
        {
            let ghost q = self.pos();
            let ghost before = statements@;
            let ghost errs = self.errors@;
            let d = self.declaration();
            proof {
                let dd = declaration(ts, q);
                let rest = program_from(ts, self.pos());
                assert(program_from(ts, q).0 == kept(dd.result) + rest.0);
                assert(program_from(ts, q).1 == dd.errors + rest.1);
            }
            if let Some(s) = d {
                statements.push(s);
                proof {
                    lemma_stmts_view_push(before, s);
                    assert(kept(declaration(ts, q).result) == seq![stmt_view(s)]);
                    assert(stmts_view(before).push(stmt_view(s)) == stmts_view(before) + seq![stmt_view(s)]);
                }
            } else {
                assert(kept(declaration(ts, q).result) =~= Seq::<StmtView>::empty());
            }
        }
        proof {
            assert(program_from(ts, self.pos()).0 =~= Seq::<StmtView>::empty());
        }
        statements
    }

    /// `declaration := "let" varDecl | statement`. A failure has been reported;
    /// the tokens up to the next likely statement boundary are skipped and
    /// nothing comes back.
    fn declaration(&mut self) -> (r: Option<Stmt>)
        requires
            old(self).wf(),
            !at_end(old(self).tokens@, old(self).pos()),
        ensures
            stepped(*old(self), *final(self), declaration(old(self).tokens@, old(self).pos())),
            option_stmt(r) == match declaration(old(self).tokens@, old(self).pos()).result {
                Ok(s) => Some(s),
                Err(_) => None,
            },
            old(self).current < final(self).current,
        decreases old(self).tokens@.len() - old(self).current, 2int,
    {
        broadcast use lemma_concat_assoc, lemma_concat_empty;

        let attempt = if self.check(TokenType::Let) {
            self.advance();
            self.var_declaration()
        } else {
            self.statement()
        };
        match attempt {
            Ok(s) => Some(s),
            Err(_) => {
                self.synchronize();
                None
            },
        }
    }

    /// Skips the token where a declaration failed, then every token up to
    /// the end, to the first one after a `;`, or to a statement keyword.
    fn synchronize(&mut self)
        requires
            old(self).wf(),
        ensures
            final(self).wf(),
            final(self).tokens@ == old(self).tokens@,
            final(self).errors@ == old(self).errors@,
            final(self).current == synchronize(old(self).tokens@, old(self).pos()),
            old(self).current <= final(self).current,
            !at_end(old(self).tokens@, old(self).pos()) ==> old(self).current < final(self).current,
    {
        broadcast use lemma_concat_assoc, lemma_concat_empty;

        let ghost ts = self.tokens@;
        let ghost target = synchronize(ts, self.pos());
        self.advance();
        while !self.is_at_end()
            invariant
                self.wf(),
                self.tokens@ == ts,
                self.errors@ == old(self).errors@,
                resume(ts, self.pos()) == target,
                old(self).current <= self.current,
                !at_end(ts, old(self).pos()) ==> old(self).current < self.current,
                ts == old(self).tokens@,
                target == synchronize(ts, old(self).pos()),
            decreases ts.len() - self.current,
        {
            if self.tokens[self.current - 1].kind == TokenType::Semicolon {
                return;
            }
            match self.peek_kind() {
                TokenType::Let | TokenType::For | TokenType::If | TokenType::While | TokenType::Fn
                | TokenType::Return => {
                    return;
                },
                _ => {},
            }
            self.advance();
        }
    }

    /// `statement := "for" forStmt | "if" ifStmt | "while" whileStmt | "{" block
    /// | "fn" fnStmt | exprStmt`.
    fn statement(&mut self) -> (r: Result<Stmt, Error>)
        requires
            old(self).wf(),
        ensures
            stepped(*old(self), *final(self), statement(old(self).tokens@, old(self).pos())),
            stmt_result(r) == statement(old(self).tokens@, old(self).pos()).result,
            r is Ok ==> old(self).current < final(self).current,
        decreases old(self).tokens@.len() - old(self).current, 1int,
    {
        broadcast use lemma_concat_assoc, lemma_concat_empty;

        if self.check(TokenType::For) {
            self.advance();
            self.for_statement()
        } else if self.check(TokenType::If) {
            self.advance();
            self.if_statement()
        } else if self.check(TokenType::While) {
            self.advance();
            self.while_statement()
        } else if self.check(TokenType::LeftBrace) {
            self.advance();
            let items = self.block()?;
            Ok(Stmt::Block(items))
        } else if self.check(TokenType::Fn) {
            self.advance();
            self.fn_statement()
        } else {
            self.expression_statement()
        }
    }

    /// `block := declaration* "}"`, after the `{`.
    fn block(&mut self) -> (r: Result<Vec<Stmt>, Error>)
        requires
            old(self).wf(),
        ensures
            stepped(*old(self), *final(self), block(old(self).tokens@, old(self).pos())),
            block_result(r) == block(old(self).tokens@, old(self).pos()).result,
            r is Ok ==> old(self).current < final(self).current,
        decreases old(self).tokens@.len() - old(self).current, 4int,
    {
        broadcast use lemma_concat_assoc, lemma_concat_empty;

        let ghost ts = self.tokens@;
        let ghost p = self.pos();
        let ghost full = block_items(ts, p);
        let ghost errs0 = self.errors@;
        let mut statements: Vec<Stmt> = Vec::new();
        while !self.check(TokenType::RightBrace) && !self.is_at_end()
            invariant
                self.wf(),
                self.tokens@ == ts,
                ts == old(self).tokens@,
                p == old(self).pos(),
                errs0 == old(self).errors@,
                full == block_items(ts, p),
                p <= self.current,
                full.result is Ok,
                block_items(ts, self.pos()).result is Ok,
                full.result->Ok_0 == stmts_view(statements@) + block_items(ts, self.pos()).result->Ok_0,
                full.pos == block_items(ts, self.pos()).pos,
                errs0 + full.errors == self.errors@ + block_items(ts, self.pos()).errors,
            decreases ts.len() - self.current,
        {
            let ghost q = self.pos();
            let ghost before = statements@;
            let d = self.declaration();
            proof {
                let dd = declaration(ts, q);
                let rest = block_items(ts, self.pos());
                assert(block_items(ts, q).result->Ok_0 == kept(dd.result) + rest.result->Ok_0);
            }
            if let Some(s) = d {
                statements.push(s);
                proof {
                    lemma_stmts_view_push(before, s);
                    assert(kept(declaration(ts, q).result) == seq![stmt_view(s)]);
                    assert(stmts_view(before).push(stmt_view(s)) == stmts_view(before) + seq![stmt_view(s)]);
                }
            } else {
                assert(kept(declaration(ts, q).result) =~= Seq::<StmtView>::empty());
            }
        }
        proof {
            assert(block_items(ts, self.pos()).result->Ok_0 =~= Seq::<StmtView>::empty());
            assert(full.result->Ok_0 == stmts_view(statements@));
        }
        self.consume(TokenType::RightBrace)?;
        Ok(statements)
    }

    /// `"(" expression ")"`: the condition of an `if` or a `while`.
    fn condition(&mut self) -> (r: Result<Expr, Error>)
        requires
            old(self).wf(),
        ensures
            stepped(*old(self), *final(self), condition(old(self).tokens@, old(self).pos())),
            r == condition(old(self).tokens@, old(self).pos()).result,
            r is Ok ==> old(self).current < final(self).current,
    {
        broadcast use lemma_concat_assoc, lemma_concat_empty;

        self.consume(TokenType::LeftParen)?;
        let c = self.expression()?;
        self.consume(TokenType::RightParen)?;
        Ok(c)
    }

    /// `ifStmt := "(" expression ")" statement ( "else" statement )?`, after the `if`.
    fn if_statement(&mut self) -> (r: Result<Stmt, Error>)
        requires
            old(self).wf(),
        ensures
            stepped(*old(self), *final(self), if_statement(old(self).tokens@, old(self).pos())),
            stmt_result(r) == if_statement(old(self).tokens@, old(self).pos()).result,
            r is Ok ==> old(self).current < final(self).current,
        decreases old(self).tokens@.len() - old(self).current, 0int,
    {
        broadcast use lemma_concat_assoc, lemma_concat_empty;

        let cond = self.condition()?;
        let then_branch = self.statement()?;
        let else_branch = if self.check(TokenType::Else) {
            self.advance();
            Some(self.statement()?)
        } else {
            None
        };
        Ok(Stmt::If(cond, Box::new(then_branch), Box::new(else_branch)))
    }

    /// `whileStmt := "(" expression ")" statement`, after the `while`.
    fn while_statement(&mut self) -> (r: Result<Stmt, Error>)
        requires
            old(self).wf(),
        ensures
            stepped(*old(self), *final(self), while_statement(old(self).tokens@, old(self).pos())),
            stmt_result(r) == while_statement(old(self).tokens@, old(self).pos()).result,
            r is Ok ==> old(self).current < final(self).current,
        decreases old(self).tokens@.len() - old(self).current, 0int,
    {
        broadcast use lemma_concat_assoc, lemma_concat_empty;

        let cond = self.condition()?;
        let body = self.statement()?;
        Ok(Stmt::While(cond, Box::new(body)))
    }

    fn for_initializer(&mut self) -> (r: Result<Option<Stmt>, Error>)
        requires
            old(self).wf(),
        ensures
            stepped(*old(self), *final(self), for_initializer(old(self).tokens@, old(self).pos())),
            match r {
                Ok(s) => for_initializer(old(self).tokens@, old(self).pos()).result == Ok::<
                    Option<StmtView>,
                    Error,
                >(option_stmt(s)),
                Err(e) => for_initializer(old(self).tokens@, old(self).pos()).result == Err::<
                    Option<StmtView>,
                    Error,
                >(e),
            },
            r is Ok ==> old(self).current < final(self).current,
    {
        broadcast use lemma_concat_assoc, lemma_concat_empty;

        if self.check(TokenType::Semicolon) {
            self.advance();
            Ok(None)
        } else {
            let s = if self.check(TokenType::Let) {
                self.advance();
                self.var_declaration()?
            } else {
                self.expression_statement()?
            };
            Ok(Some(s))
        }
    }

    fn for_condition(&mut self) -> (r: Result<Expr, Error>)
        requires
            old(self).wf(),
        ensures
            stepped(*old(self), *final(self), for_condition(old(self).tokens@, old(self).pos())),
            r == for_condition(old(self).tokens@, old(self).pos()).result,
            r is Ok ==> old(self).current < final(self).current,
    {
        broadcast use lemma_concat_assoc, lemma_concat_empty;

        let condition = if self.check(TokenType::Semicolon) {
            Expr::Literal(Literal::Bool(true))
        } else {
            self.expression()?
        };
        self.consume(TokenType::Semicolon)?;
        Ok(condition)
    }

    fn for_increment(&mut self) -> (r: Result<Option<Expr>, Error>)
        requires
            old(self).wf(),
        ensures
            stepped(*old(self), *final(self), for_increment(old(self).tokens@, old(self).pos())),
            r == for_increment(old(self).tokens@, old(self).pos()).result,
            r is Ok ==> old(self).current < final(self).current,
    {
        if self.check(TokenType::RightParen) {
            self.advance();
            Ok(None)
        } else {
            let ghost ts = self.tokens@;
            let ghost errs = self.errors@;
            let increment = self.expression()?;
            proof {
                let e = crate::grammar::expression(ts, old(self).pos());
                let close = consume(ts, e.pos, TokenType::RightParen);
                lemma_concat_assoc(errs, e.errors, close.errors);
                lemma_concat_empty(errs + e.errors);
            }
            self.consume(TokenType::RightParen)?;
            Ok(Some(increment))
        }
    }

    /// The clauses of a `for`, after its `(`, through its `)`.
    fn for_clauses(&mut self) -> (r: Result<(Option<Stmt>, Expr, Option<Expr>), Error>)
        requires
            old(self).wf(),
        ensures
            stepped(*old(self), *final(self), for_clauses(old(self).tokens@, old(self).pos())),
            clauses_result(r) == for_clauses(old(self).tokens@, old(self).pos()).result,
            r is Ok ==> old(self).current < final(self).current,
    {
        broadcast use lemma_concat_assoc, lemma_concat_empty;

        let initializer = self.for_initializer()?;
        let condition = self.for_condition()?;
        let increment = self.for_increment()?;
        Ok((initializer, condition, increment))
    }

    /// `forStmt := "(" ( varDecl | exprStmt | ";" ) expression? ";" expression? ")"
    /// statement`, after the `for`, built as the `while` loop it stands for.
    fn for_statement(&mut self) -> (r: Result<Stmt, Error>)
        requires
            old(self).wf(),
        ensures
            stepped(*old(self), *final(self), for_statement(old(self).tokens@, old(self).pos())),
            stmt_result(r) == for_statement(old(self).tokens@, old(self).pos()).result,
            r is Ok ==> old(self).current < final(self).current,
        decreases old(self).tokens@.len() - old(self).current, 0int,
    {
        broadcast use lemma_concat_assoc, lemma_concat_empty;

        self.consume(TokenType::LeftParen)?;
        let (initializer, condition, increment) = self.for_clauses()?;
        let body = self.statement()?;
        let ghost init_view = option_stmt(initializer);
        let ghost body_view = stmt_view(body);
        let body = match increment {
            Some(inc) => {
                                let v = vec![body, Stmt::Expression(inc)];
                proof {
                    lemma_stmts_view_pair(v@[0], v@[1]);
                    assert(v@ == seq![v@[0], v@[1]]);
                    assert(stmt_view(v@[0]) == body_view);
                    assert(stmt_view(v@[1]) == StmtView::Expression(inc));
                    assert(stmt_view(Stmt::Block(v)) == StmtView::Block(seq![body_view, StmtView::Expression(inc)]));
                }
                Stmt::Block(v)
            },
            None => body,
        };
        let looped = Stmt::While(condition, Box::new(body));
        let r = match initializer {
            Some(s) => {
                let ghost looped_view = stmt_view(looped);
                let v = vec![s, looped];
                proof {
                    lemma_stmts_view_pair(v@[0], v@[1]);
                    assert(v@ == seq![v@[0], v@[1]]);
                    assert(stmt_view(v@[1]) == looped_view);
                    assert(init_view == Some(stmt_view(v@[0])));
                }
                Stmt::Block(v)
            },
            None => looped,
        };
        assert(stmt_view(r) == desugar_for(init_view, condition, increment, body_view));
        Ok(r)
    }

    /// `fnStmt := IDENTIFIER "(" ")" "{" block`, after the `fn`.
    fn fn_statement(&mut self) -> (r: Result<Stmt, Error>)
        requires
            old(self).wf(),
        ensures
            stepped(*old(self), *final(self), fn_statement(old(self).tokens@, old(self).pos())),
            stmt_result(r) == fn_statement(old(self).tokens@, old(self).pos()).result,
            r is Ok ==> old(self).current < final(self).current,
        decreases old(self).tokens@.len() - old(self).current, 0int,
    {
        broadcast use lemma_concat_assoc, lemma_concat_empty;

        let name = self.consume(TokenType::Identifier)?;
        self.consume(TokenType::LeftParen)?;
        self.consume(TokenType::RightParen)?;
        self.consume(TokenType::LeftBrace)?;
        let body = self.block()?;
        let params: Vec<String> = Vec::new();
        let r = Stmt::Fn(name, params, Box::new(Stmt::Block(body)));
        proof {
            lemma_names_view_empty();
            assert(params@ == Seq::<String>::empty());
            assert(stmt_view(Stmt::Block(body)) == StmtView::Block(stmts_view(body@)));
            assert(stmt_view(r) == StmtView::Fn(
                name,
                Seq::empty(),
                Box::new(StmtView::Block(stmts_view(body@))),
            ));
        }
        Ok(r)
    }

    /// `exprStmt := expression ";"`.
    fn expression_statement(&mut self) -> (r: Result<Stmt, Error>)
        requires
            old(self).wf(),
        ensures
            stepped(*old(self), *final(self), expression_statement(old(self).tokens@, old(self).pos())),
            stmt_result(r) == expression_statement(old(self).tokens@, old(self).pos()).result,
            r is Ok ==> old(self).current < final(self).current,
    {
        broadcast use lemma_concat_assoc, lemma_concat_empty;

        let e = self.expression()?;
        self.consume(TokenType::Semicolon)?;
        Ok(Stmt::Expression(e))
    }

    /// `varDecl := IDENTIFIER ( "=" expression )? ";"`, after the `let`.
    fn var_declaration(&mut self) -> (r: Result<Stmt, Error>)
        requires
            old(self).wf(),
        ensures
            stepped(*old(self), *final(self), var_declaration(old(self).tokens@, old(self).pos())),
            stmt_result(r) == var_declaration(old(self).tokens@, old(self).pos()).result,
            r is Ok ==> old(self).current < final(self).current,
    {
        broadcast use lemma_concat_assoc, lemma_concat_empty;

        let name = self.consume(TokenType::Identifier)?;
        let initializer = if self.check(TokenType::Equal) {
            self.advance();
            Some(self.expression()?)
        } else {
            None
        };
        self.consume(TokenType::Semicolon)?;
        Ok(Stmt::Let(name, initializer))
    }
}

} // verus!
