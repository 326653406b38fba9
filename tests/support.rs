use blum::error::{Error, ErrorKind, Handler};
use blum::input_stream::InputStream;
use blum::token::{Literal, Token, TokenType};

#[test]
fn input_stream_reads_and_counts_lines() {
    let mut s = InputStream::new("a\nbc");
    assert_eq!(s.peek(), Some('a'));
    assert!(!s.eof());
    assert_eq!(s.next(), Some('a'));
    assert_eq!((s.line, s.col, s.pos), (0, 1, 1));
    assert_eq!(s.next(), Some('\n'));
    assert_eq!((s.line, s.col, s.pos), (1, 0, 2));
    assert_eq!(s.next(), Some('b'));
    assert_eq!(s.next(), Some('c'));
    assert!(s.eof());
    assert_eq!(s.peek(), None);
    assert_eq!(s.next(), None);
    assert_eq!((s.line, s.col, s.pos), (1, 3, 5));
    assert!(s.eof());
    assert_eq!(s.next(), None);
    assert_eq!((s.line, s.col, s.pos), (1, 4, 6));
}

#[test]
fn input_stream_of_unicode_text() {
    let s = InputStream::new("é✓");
    assert_eq!((s.line, s.col, s.pos), (0, 0, 0));
    assert_eq!(s.source, vec!['é', '✓']);
}

#[test]
fn handler_collects_errors() {
    let mut h = Handler::new("main.blum".to_owned());
    assert!(!h.errors_occured());
    h.error(Error::new(ErrorKind::UnterminatedString, 3));
    h.report_all(&vec![
        Error::new(ErrorKind::InvalidAssignmentTarget, 4),
        Error::new(ErrorKind::UnexpectedCharacter('$'), 5),
    ]);
    assert!(h.errors_occured());
    assert_eq!(h.error_count(), 3);
    assert_eq!(h.errors[2].position, 5);
    h.set_source_file("other.blum".to_owned());
    assert_eq!(h.source_file, "other.blum");
    assert_eq!(h.error_count(), 3);
}

#[test]
fn token_new_and_clone() {
    let t = Token::new(TokenType::Number, "4", Some(Literal::Number("4".to_owned())), 9);
    let c = t.clone();
    assert_eq!(t, c);
    assert_eq!(c.line, 9);
    assert_eq!(c.lexeme, "4");
}
