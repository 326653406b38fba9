use blum::ast::{Expr, Stmt};
use blum::error::{Error, ErrorKind};
use blum::lexer::Lexer;
use blum::parser::Parser;
use blum::token::{Literal, TokenType};

fn parse(source: &str) -> (Vec<Stmt>, Vec<Error>) {
    let tokens = Lexer::new(source).scan_tokens();
    let mut parser = Parser::new(tokens);
    let statements = parser.parse();
    (statements, parser.errors().clone())
}

fn number(e: &Expr) -> &str {
    match e {
        Expr::Literal(Literal::Number(text)) => text,
        other => panic!("not a number: {other:?}"),
    }
}

#[test]
fn multiplication_binds_tighter_than_addition() {
    let (stmts, errors) = parse("let x = 1 + 2 * 3;");
    assert!(errors.is_empty());
    assert_eq!(stmts.len(), 1);
    match &stmts[0] {
        Stmt::Let(name, Some(Expr::Binary(left, plus, right))) => {
            assert_eq!(name.lexeme, "x");
            assert_eq!(number(left), "1");
            assert_eq!(plus.kind, TokenType::Plus);
            match &**right {
                Expr::Binary(l, star, r) => {
                    assert_eq!(number(l), "2");
                    assert_eq!(star.kind, TokenType::Star);
                    assert_eq!(number(r), "3");
                }
                other => panic!("unexpected {other:?}"),
            }
        }
        other => panic!("unexpected {other:?}"),
    }
}

#[test]
fn if_with_both_branches() {
    let (stmts, errors) = parse("if (true) { 1; } else { 2; }");
    assert!(errors.is_empty());
    assert_eq!(stmts.len(), 1);
    match &stmts[0] {
        Stmt::If(Expr::Literal(Literal::Bool(true)), then_branch, else_branch) => {
            match &**then_branch {
                Stmt::Block(items) => {
                    assert_eq!(items.len(), 1);
                    match &items[0] {
                        Stmt::Expression(e) => assert_eq!(number(e), "1"),
                        other => panic!("unexpected {other:?}"),
                    }
                }
                other => panic!("unexpected {other:?}"),
            }
            match &**else_branch {
                Some(Stmt::Block(items)) => {
                    assert_eq!(items.len(), 1);
                    match &items[0] {
                        Stmt::Expression(e) => assert_eq!(number(e), "2"),
                        other => panic!("unexpected {other:?}"),
                    }
                }
                other => panic!("unexpected {other:?}"),
            }
        }
        other => panic!("unexpected {other:?}"),
    }
}

#[test]
fn missing_parenthesis_drops_the_statement() {
    let (stmts, errors) = parse("if (true { 1; }");
    assert!(stmts.is_empty());
    assert!(!errors.is_empty());
    assert_eq!(
        errors[0].kind,
        ErrorKind::UnexpectedToken { expected: TokenType::RightParen, found: TokenType::LeftBrace }
    );
}

#[test]
fn parsing_resumes_after_a_failed_statement() {
    let (stmts, errors) = parse("if (true { 1; } let y = 2;");
    assert_eq!(stmts.len(), 1);
    assert!(matches!(&stmts[0], Stmt::Let(name, Some(_)) if name.lexeme == "y"));
    assert_eq!(errors.len(), 2);
    assert_eq!(errors[1].kind, ErrorKind::ExpectedExpression { found: TokenType::RightBrace });

    let (stmts, errors) = parse("x = (1;\ny = 2;");
    assert_eq!(errors.len(), 1);
    assert_eq!(errors[0].position, 1);
    assert_eq!(stmts.len(), 1);
    match &stmts[0] {
        Stmt::Expression(Expr::Assign(name, value)) => {
            assert_eq!(name.lexeme, "y");
            assert_eq!(number(value), "2");
        }
        other => panic!("unexpected {other:?}"),
    }
}

#[test]
fn empty_program() {
    let (stmts, errors) = parse("");
    assert!(stmts.is_empty());
    assert!(errors.is_empty());
    let (stmts, errors) = parse("  // nothing\n");
    assert!(stmts.is_empty());
    assert!(errors.is_empty());
}

#[test]
fn missing_semicolon() {
    let (stmts, errors) = parse("1 + 2");
    assert!(stmts.is_empty());
    assert_eq!(
        errors,
        vec![Error {
            kind: ErrorKind::UnexpectedToken { expected: TokenType::Semicolon, found: TokenType::Eof },
            position: 1,
        }]
    );
}

#[test]
fn invalid_assignment_target_is_reported_and_kept() {
    let (stmts, errors) = parse("1 = 2;");
    assert_eq!(errors.len(), 1);
    assert_eq!(errors[0].kind, ErrorKind::InvalidAssignmentTarget);
    assert_eq!(stmts.len(), 1);
    match &stmts[0] {
        Stmt::Expression(e) => assert_eq!(number(e), "1"),
        other => panic!("unexpected {other:?}"),
    }
}

#[test]
fn assignment_is_right_associative() {
    let (stmts, errors) = parse("a = b = 3;");
    assert!(errors.is_empty());
    match &stmts[0] {
        Stmt::Expression(Expr::Assign(a, inner)) => {
            assert_eq!(a.lexeme, "a");
            match &**inner {
                Expr::Assign(b, value) => {
                    assert_eq!(b.lexeme, "b");
                    assert_eq!(number(value), "3");
                }
                other => panic!("unexpected {other:?}"),
            }
        }
        other => panic!("unexpected {other:?}"),
    }
}

#[test]
fn subtraction_leans_left() {
    let (stmts, _) = parse("8 - 4 - 2;");
    match &stmts[0] {
        Stmt::Expression(Expr::Binary(left, _, right)) => {
            assert_eq!(number(right), "2");
            match &**left {
                Expr::Binary(l, _, r) => {
                    assert_eq!(number(l), "8");
                    assert_eq!(number(r), "4");
                }
                other => panic!("unexpected {other:?}"),
            }
        }
        other => panic!("unexpected {other:?}"),
    }
}

#[test]
fn logical_operators_and_precedence() {
    let (stmts, errors) = parse("a or b and !c == -d;");
    assert!(errors.is_empty());
    match &stmts[0] {
        Stmt::Expression(Expr::Logical(a, or, rest)) => {
            assert!(matches!(&**a, Expr::Variable(t) if t.lexeme == "a"));
            assert_eq!(or.kind, TokenType::Or);
            match &**rest {
                Expr::Logical(b, and, eq) => {
                    assert!(matches!(&**b, Expr::Variable(t) if t.lexeme == "b"));
                    assert_eq!(and.kind, TokenType::And);
                    match &**eq {
                        Expr::Binary(l, op, r) => {
                            assert_eq!(op.kind, TokenType::EqualEqual);
                            assert!(matches!(&**l, Expr::Unary(t, _) if t.kind == TokenType::Bang));
                            assert!(matches!(&**r, Expr::Unary(t, _) if t.kind == TokenType::Minus));
                        }
                        other => panic!("unexpected {other:?}"),
                    }
                }
                other => panic!("unexpected {other:?}"),
            }
        }
        other => panic!("unexpected {other:?}"),
    }
}

#[test]
fn grouping_and_comparison() {
    let (stmts, errors) = parse("(1 + 2) <= \"s\";");
    assert!(errors.is_empty());
    match &stmts[0] {
        Stmt::Expression(Expr::Binary(l, op, r)) => {
            assert_eq!(op.kind, TokenType::LessEqual);
            assert!(matches!(&**l, Expr::Grouping(_)));
            assert_eq!(**r, Expr::Literal(Literal::String("s".to_owned())));
        }
        other => panic!("unexpected {other:?}"),
    }
}

#[test]
fn for_loop_becomes_while() {
    let (stmts, errors) = parse("for (let i = 0; i < 3; i = i + 1) { i; }");
    assert!(errors.is_empty());
    assert_eq!(stmts.len(), 1);
    match &stmts[0] {
        Stmt::Block(outer) => {
            assert_eq!(outer.len(), 2);
            assert!(matches!(&outer[0], Stmt::Let(name, Some(_)) if name.lexeme == "i"));
            match &outer[1] {
                Stmt::While(Expr::Binary(_, lt, _), body) => {
                    assert_eq!(lt.kind, TokenType::Less);
                    match &**body {
                        Stmt::Block(items) => {
                            assert_eq!(items.len(), 2);
                            assert!(matches!(&items[0], Stmt::Block(_)));
                            assert!(matches!(&items[1], Stmt::Expression(Expr::Assign(_, _))));
                        }
                        other => panic!("unexpected {other:?}"),
                    }
                }
                other => panic!("unexpected {other:?}"),
            }
        }
        other => panic!("unexpected {other:?}"),
    }
}

#[test]
fn for_loop_without_clauses() {
    let (stmts, errors) = parse("for (;;) x;");
    assert!(errors.is_empty());
    match &stmts[0] {
        Stmt::While(Expr::Literal(Literal::Bool(true)), body) => {
            assert!(matches!(&**body, Stmt::Expression(Expr::Variable(_))));
        }
        other => panic!("unexpected {other:?}"),
    }
}

#[test]
fn while_loop() {
    let (stmts, errors) = parse("while (false) {}");
    assert!(errors.is_empty());
    match &stmts[0] {
        Stmt::While(Expr::Literal(Literal::Bool(false)), body) => {
            assert_eq!(**body, Stmt::Block(vec![]));
        }
        other => panic!("unexpected {other:?}"),
    }
}

#[test]
fn function_then_let() {
    let (stmts, errors) = parse("fn main() {\n  let a = 1;\n  a;\n}\nlet b;");
    assert!(errors.is_empty());
    assert_eq!(stmts.len(), 2);
    match &stmts[0] {
        Stmt::Fn(name, params, body) => {
            assert_eq!(name.lexeme, "main");
            assert!(params.is_empty());
            match &**body {
                Stmt::Block(items) => assert_eq!(items.len(), 2),
                other => panic!("unexpected {other:?}"),
            }
        }
        other => panic!("unexpected {other:?}"),
    }
    assert!(matches!(&stmts[1], Stmt::Let(name, None) if name.lexeme == "b"));
}

#[test]
fn function_without_name() {
    let (stmts, errors) = parse("fn () {}");
    assert!(stmts.is_empty());
    assert_eq!(
        errors[0].kind,
        ErrorKind::UnexpectedToken { expected: TokenType::Identifier, found: TokenType::LeftParen }
    );
}

#[test]
fn unclosed_block() {
    let (stmts, errors) = parse("{ 1;");
    assert!(stmts.is_empty());
    assert_eq!(
        errors,
        vec![Error {
            kind: ErrorKind::UnexpectedToken { expected: TokenType::RightBrace, found: TokenType::Eof },
            position: 1,
        }]
    );
}

#[test]
fn parsing_twice_gives_the_same_result() {
    let tokens = Lexer::new("a; (;").scan_tokens();
    let mut parser = Parser::new(tokens);
    let first = parser.parse();
    let first_errors = parser.errors().clone();
    let second = parser.parse();
    assert_eq!(first, second);
    assert_eq!(&first_errors, parser.errors());
    assert_eq!(first_errors.len(), 1);
}

#[test]
fn basic_parser_test() {
    let source = "fn greet() {\n    let message = \"hello\";\n    message;\n}\n\nlet answer = 6 * 7;\n";
    let tokens = Lexer::new(source).scan_tokens();
    let mut parser = Parser::new(tokens);
    let ast = parser.parse();

    match ast[0] {
        Stmt::Fn(_, _, _) => (),
        _ => panic!(),
    }

    match ast[1] {
        Stmt::Let(_, _) => (),
        _ => panic!(),
    }
}
