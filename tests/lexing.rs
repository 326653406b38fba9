use blum::error::ErrorKind;
use blum::lexer::{is_alpha, is_alphanumeric, is_digit_char, keyword, Lexer};
use blum::token::{Literal, Token, TokenType};

fn scan(source: &str) -> Vec<Token> {
    Lexer::new(source).scan_tokens()
}

fn kinds(tokens: &[Token]) -> Vec<TokenType> {
    tokens.iter().map(|t| t.kind).collect()
}

fn number_value(token: &Token) -> f64 {
    match &token.literal {
        Some(Literal::Number(text)) => text.parse::<f64>().unwrap(),
        other => panic!("not a number literal: {other:?}"),
    }
}

#[test]
fn string_lex() {
    let tokens = scan("\"foobar\"");
    assert_eq!(kinds(&tokens), vec![TokenType::String, TokenType::Eof]);
    assert_eq!(tokens[0].literal, Some(Literal::String("foobar".to_owned())));
    assert_eq!(tokens[0].lexeme, "\"foobar\"");
}

#[test]
fn number_lex() {
    let tokens = scan("10");
    assert_eq!(kinds(&tokens), vec![TokenType::Number, TokenType::Eof]);
    assert_eq!(number_value(&tokens[0]), 10.0);
}

#[test]
fn float_lex() {
    let tokens = scan("10.20");
    assert_eq!(kinds(&tokens), vec![TokenType::Number, TokenType::Eof]);
    assert_eq!(tokens[0].literal, Some(Literal::Number("10.20".to_owned())));
    assert_eq!(number_value(&tokens[0]), 10.20);
}

#[test]
fn second_dot_ends_the_number() {
    let mut lexer = Lexer::new("10.20.30");
    let tokens = lexer.scan_tokens();
    assert_eq!(
        kinds(&tokens),
        vec![TokenType::Number, TokenType::Dot, TokenType::Number, TokenType::Eof]
    );
    assert_eq!(tokens[0].lexeme, "10.20");
    assert_eq!(tokens[2].lexeme, "30");
    assert!(lexer.errors().is_empty());
}

#[test]
fn float_lex_with_error() {
    let tokens = scan("10.20.30");
    assert!(!tokens.is_empty());
    assert_eq!(tokens.last().unwrap().kind, TokenType::Eof);
    assert!(!tokens.iter().any(|t| t.kind == TokenType::Number && t.lexeme == "10.20.30"));
    assert_eq!(tokens.iter().filter(|t| t.kind == TokenType::Number).count(), 2);
}

#[test]
fn trailing_dot_is_its_own_token() {
    let tokens = scan("7.");
    assert_eq!(kinds(&tokens), vec![TokenType::Number, TokenType::Dot, TokenType::Eof]);
    assert_eq!(tokens[0].lexeme, "7");
}

#[test]
fn keyword_and_identifier() {
    let tokens = scan("return");
    assert_eq!(kinds(&tokens), vec![TokenType::Return, TokenType::Eof]);
    assert_eq!(tokens[0].literal, None);
    let tokens = scan("foo");
    assert_eq!(kinds(&tokens), vec![TokenType::Identifier, TokenType::Eof]);
    assert_eq!(tokens[0].literal, Some(Literal::String("foo".to_owned())));
    assert_eq!(tokens[0].lexeme, "foo");
}

#[test]
fn keyword_prefix_is_an_identifier() {
    let tokens = scan("returned iffy _x1");
    assert_eq!(
        kinds(&tokens),
        vec![TokenType::Identifier, TokenType::Identifier, TokenType::Identifier, TokenType::Eof]
    );
    assert_eq!(tokens[2].lexeme, "_x1");
}

#[test]
fn every_keyword() {
    let source = "and else false for fn if or return true let while";
    let tokens = scan(source);
    assert_eq!(
        kinds(&tokens),
        vec![
            TokenType::And,
            TokenType::Else,
            TokenType::False,
            TokenType::For,
            TokenType::Fn,
            TokenType::If,
            TokenType::Or,
            TokenType::Return,
            TokenType::True,
            TokenType::Let,
            TokenType::While,
            TokenType::Eof,
        ]
    );
}

#[test]
fn keyword_lookup() {
    let text: Vec<char> = "xwhiley".chars().collect();
    assert_eq!(keyword(&text, 1, 6), Some(TokenType::While));
    assert_eq!(keyword(&text, 0, 6), None);
    assert_eq!(keyword(&text, 1, 3), None);
}

#[test]
fn character_classes() {
    assert!(is_digit_char('7'));
    assert!(!is_digit_char('a'));
    assert!(is_alpha('_'));
    assert!(is_alpha('Q'));
    assert!(!is_alpha('3'));
    assert!(is_alphanumeric('3'));
    assert!(!is_alphanumeric('-'));
}

#[test]
fn operators_take_the_longest_match() {
    let tokens = scan("! != = == < <= > >= ( ) { } , . - + ; * /");
    assert_eq!(
        kinds(&tokens),
        vec![
            TokenType::Bang,
            TokenType::BangEqual,
            TokenType::Equal,
            TokenType::EqualEqual,
            TokenType::Less,
            TokenType::LessEqual,
            TokenType::Greater,
            TokenType::GreaterEqual,
            TokenType::LeftParen,
            TokenType::RightParen,
            TokenType::LeftBrace,
            TokenType::RightBrace,
            TokenType::Comma,
            TokenType::Dot,
            TokenType::Minus,
            TokenType::Plus,
            TokenType::Semicolon,
            TokenType::Star,
            TokenType::Slash,
            TokenType::Eof,
        ]
    );
    assert_eq!(kinds(&scan("!===")), vec![TokenType::BangEqual, TokenType::EqualEqual, TokenType::Eof]);
}

#[test]
fn operator_at_the_end_is_one_character() {
    let tokens = scan("a !");
    assert_eq!(kinds(&tokens), vec![TokenType::Identifier, TokenType::Bang, TokenType::Eof]);
    assert_eq!(tokens[1].lexeme, "!");
}

#[test]
fn comments_and_whitespace_give_no_tokens() {
    let tokens = scan("// a comment\n\t x \r// another");
    assert_eq!(kinds(&tokens), vec![TokenType::Identifier, TokenType::Eof]);
    assert_eq!(tokens[0].line, 2);
    assert_eq!(tokens[1].line, 2);
}

#[test]
fn empty_source_gives_only_the_end() {
    let tokens = scan("");
    assert_eq!(kinds(&tokens), vec![TokenType::Eof]);
    assert_eq!(tokens[0].line, 1);
    assert_eq!(tokens[0].lexeme, "");
}

#[test]
fn lines_count_from_one_and_never_decrease() {
    let tokens = scan("let a = \"x\ny\";\n\nb;\n");
    let lines: Vec<usize> = tokens.iter().map(|t| t.line).collect();
    assert_eq!(lines, vec![1, 1, 1, 2, 2, 4, 4, 5]);
    assert_eq!(tokens.last().unwrap().kind, TokenType::Eof);
    assert!(lines.windows(2).all(|w| w[0] <= w[1]));
}

#[test]
fn string_keeps_text_verbatim() {
    let tokens = scan("\"a\\n b\"");
    assert_eq!(tokens[0].literal, Some(Literal::String("a\\n b".to_owned())));
}

#[test]
fn unterminated_string_is_reported_and_dropped() {
    let mut lexer = Lexer::new("x \"abc\nd");
    let tokens = lexer.scan_tokens();
    assert_eq!(kinds(&tokens), vec![TokenType::Identifier, TokenType::Eof]);
    assert_eq!(lexer.errors().len(), 1);
    assert_eq!(lexer.errors()[0].kind, ErrorKind::UnterminatedString);
    assert_eq!(lexer.errors()[0].position, 2);
}

#[test]
fn unexpected_characters_are_reported_and_skipped() {
    let mut lexer = Lexer::new("a @ b\n#");
    let tokens = lexer.scan_tokens();
    assert_eq!(
        kinds(&tokens),
        vec![TokenType::Identifier, TokenType::Identifier, TokenType::Eof]
    );
    let errors = lexer.errors();
    assert_eq!(errors.len(), 2);
    assert_eq!(errors[0].kind, ErrorKind::UnexpectedCharacter('@'));
    assert_eq!(errors[0].position, 1);
    assert_eq!(errors[1].kind, ErrorKind::UnexpectedCharacter('#'));
    assert_eq!(errors[1].position, 2);
}

#[test]
fn scanning_twice_gives_the_same_result() {
    let mut lexer = Lexer::new("a $ 1");
    let first = lexer.scan_tokens();
    let second = lexer.scan_tokens();
    assert_eq!(first, second);
    assert_eq!(lexer.errors().len(), 1);
}

#[test]
fn relexing_spaced_lexemes_keeps_the_kinds() {
    let source = "fn f() { let x = 10.5; x = x >= \"s\" or !y; } // end\n@";
    let tokens = scan(source);
    let mut spaced = String::new();
    for t in &tokens {
        spaced.push_str(&t.lexeme);
        spaced.push(' ');
    }
    assert_eq!(kinds(&scan(&spaced)), kinds(&tokens));
}
