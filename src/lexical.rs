//! The lexical grammar as a function from source text to tokens and
//! diagnostics: maximal munch, one step at a time from left to right.
use crate::error::{Error, ErrorKind};
use crate::input_stream::newlines;
use crate::token::{LiteralView, TokenType, TokenView};
use vstd::prelude::*;

verus! {

pub open spec fn is_digit(c: char) -> bool {
    '0' <= c && c <= '9'
}

/// A character that can start an identifier: an ASCII letter or `_`.
pub open spec fn is_word_start(c: char) -> bool {
    ('a' <= c && c <= 'z') || ('A' <= c && c <= 'Z') || c == '_'
}

/// A character that can continue an identifier.
pub open spec fn is_word_char(c: char) -> bool {
    is_word_start(c) || is_digit(c)
}

/// The classes of characters over which the lexer runs ahead.
#[derive(Clone, Copy)]
pub enum Run {
    Digits,
    Word,
    ToNewline,
    ToQuote,
}

pub open spec fn in_run(c: char, run: Run) -> bool {
    match run {
        Run::Digits => is_digit(c),
        Run::Word => is_word_char(c),
        Run::ToNewline => c != '\n',
        Run::ToQuote => c != '"',
    }
}

/// The first index at or after `i` whose character leaves the run, or the
/// length of the source.
pub open spec fn run_end(src: Seq<char>, i: int, run: Run) -> int
    decreases src.len() - i,
{
    if 0 <= i < src.len() && in_run(src[i], run) {
        run_end(src, i + 1, run)
    } else {
        i
    }
}

/// The end of a number that starts at `start`: its digits, then a fraction
/// only where a `.` is followed by a digit.
pub open spec fn number_end(src: Seq<char>, start: int) -> int {
    let e = run_end(src, start, Run::Digits);
    if e + 1 < src.len() && src[e] == '.' && is_digit(src[e + 1]) {
        run_end(src, e + 1, Run::Digits)
    } else {
        e
    }
}

/// The keyword spelled by `text`, if any.
pub open spec fn keyword_of(text: Seq<char>) -> Option<TokenType> {
    if text == "and"@ {
        Some(TokenType::And)
    } else if text == "else"@ {
        Some(TokenType::Else)
    } else if text == "false"@ {
        Some(TokenType::False)
    } else if text == "for"@ {
        Some(TokenType::For)
    } else if text == "fn"@ {
        Some(TokenType::Fn)
    } else if text == "if"@ {
        Some(TokenType::If)
    } else if text == "or"@ {
        Some(TokenType::Or)
    } else if text == "return"@ {
        Some(TokenType::Return)
    } else if text == "true"@ {
        Some(TokenType::True)
    } else if text == "let"@ {
        Some(TokenType::Let)
    } else if text == "while"@ {
        Some(TokenType::While)
    } else {
        None
    }
}

/// The literal payload that a token of `kind` spelled `lexeme` carries:
/// the text between the quotes of a string, the digits of a number, the name
/// of an identifier; nothing for the other kinds.
pub open spec fn literal_for(kind: TokenType, lexeme: Seq<char>) -> Option<LiteralView> {
    match kind {
        TokenType::String => Some(LiteralView::Text(lexeme.subrange(1, lexeme.len() - 1))),
        TokenType::Number => Some(LiteralView::Number(lexeme)),
        TokenType::Identifier => Some(LiteralView::Text(lexeme)),
        _ => None,
    }
}

/// The token of `kind` spelled by `src[start..end]`, found on `line`.
pub open spec fn token_at(src: Seq<char>, kind: TokenType, start: int, end: int, line: nat) -> TokenView {
    let lexeme = src.subrange(start, end);
    TokenView { kind, lexeme, literal: literal_for(kind, lexeme), line }
}

/// The token that closes every scan.
pub open spec fn end_token(line: nat) -> TokenView {
    TokenView { kind: TokenType::Eof, lexeme: Seq::empty(), literal: None, line }
}

/// One step of the scan: where it resumes, on which line, and the token or
/// diagnostic it gave, if any.
pub struct Step {
    pub next: int,
    pub line: nat,
    pub token: Option<TokenView>,
    pub error: Option<Error>,
}

pub open spec fn emit(src: Seq<char>, kind: TokenType, start: int, end: int, line: nat) -> Step {
    Step { next: end, line, token: Some(token_at(src, kind, start, end, line)), error: None }
}

pub open spec fn skip(next: int, line: nat) -> Step {
    Step { next, line, token: None, error: None }
}

pub open spec fn report(next: int, line: nat, kind: ErrorKind) -> Step {
    Step { next, line, token: None, error: Some(Error { kind, position: line as usize }) }
}

/// `one` alone, or `two` where the next character is `=`.
pub open spec fn one_or_two(src: Seq<char>, pos: int, line: nat, one: TokenType, two: TokenType) -> Step {
    if pos + 1 < src.len() && src[pos + 1] == '=' {
        emit(src, two, pos, pos + 2, line)
    } else {
        emit(src, one, pos, pos + 1, line)
    }
}

/// The single-character token that `c` is, if any.
pub open spec fn punctuation(c: char) -> Option<TokenType> {
    match c {
        '(' => Some(TokenType::LeftParen),
        ')' => Some(TokenType::RightParen),
        '{' => Some(TokenType::LeftBrace),
        '}' => Some(TokenType::RightBrace),
        ',' => Some(TokenType::Comma),
        '.' => Some(TokenType::Dot),
        '-' => Some(TokenType::Minus),
        '+' => Some(TokenType::Plus),
        ';' => Some(TokenType::Semicolon),
        '*' => Some(TokenType::Star),
        _ => None,
    }
}

/// The step of the scan that starts at `pos < src.len()` on `line`.
pub open spec fn scan_step(src: Seq<char>, pos: int, line: nat) -> Step {
    let c = src[pos];
    if punctuation(c) is Some {
        emit(src, punctuation(c)->0, pos, pos + 1, line)
    } else if c == '!' {
        one_or_two(src, pos, line, TokenType::Bang, TokenType::BangEqual)
    } else if c == '=' {
        one_or_two(src, pos, line, TokenType::Equal, TokenType::EqualEqual)
    } else if c == '<' {
        one_or_two(src, pos, line, TokenType::Less, TokenType::LessEqual)
    } else if c == '>' {
        one_or_two(src, pos, line, TokenType::Greater, TokenType::GreaterEqual)
    } else if c == '/' {
        if pos + 1 < src.len() && src[pos + 1] == '/' {
            skip(run_end(src, pos + 2, Run::ToNewline), line)
        } else {
            emit(src, TokenType::Slash, pos, pos + 1, line)
        }
    } else if c == ' ' || c == '\r' || c == '\t' {
        skip(pos + 1, line)
    } else if c == '\n' {
        skip(pos + 1, line + 1)
    } else if c == '"' {
        let close = run_end(src, pos + 1, Run::ToQuote);
        let at = line + newlines(src, pos + 1, close);
        if close < src.len() {
            emit(src, TokenType::String, pos, close + 1, at)
        } else {
            report(close, at, ErrorKind::UnterminatedString)
        }
    } else if is_digit(c) {
        emit(src, TokenType::Number, pos, number_end(src, pos), line)
    } else if is_word_start(c) {
        let end = run_end(src, pos + 1, Run::Word);
        let kind = match keyword_of(src.subrange(pos, end)) {
            Some(k) => k,
            None => TokenType::Identifier,
        };
        emit(src, kind, pos, end, line)
    } else {
        report(pos + 1, line, ErrorKind::UnexpectedCharacter(c))
    }
}

pub proof fn lemma_run_end(src: Seq<char>, i: int, run: Run)
    requires
        0 <= i <= src.len(),
    ensures
        i <= run_end(src, i, run) <= src.len(),
        forall|k: int| i <= k < run_end(src, i, run) ==> in_run(#[trigger] src[k], run),
        run_end(src, i, run) < src.len() ==> !in_run(src[run_end(src, i, run)], run),
    decreases src.len() - i,
{
    if i < src.len() && in_run(src[i], run) {
        lemma_run_end(src, i + 1, run);
    }
}

/// Every step moves forward and stays within the source.
pub proof fn lemma_step_advances(src: Seq<char>, pos: int, line: nat)
    requires
        0 <= pos < src.len(),
    ensures
        pos < scan_step(src, pos, line).next <= src.len(),
        scan_step(src, pos, line).line >= line,
{
    lemma_run_end(src, pos + 1, Run::ToQuote);
    lemma_run_end(src, pos + 1, Run::Word);
    lemma_run_end(src, pos, Run::Digits);
    if pos + 2 <= src.len() {
        lemma_run_end(src, pos + 2, Run::ToNewline);
    }
    let e = run_end(src, pos, Run::Digits);
    if e + 1 < src.len() {
        lemma_run_end(src, e + 1, Run::Digits);
    }
}

/// The tokens and diagnostics of the scan from `pos` on `line` to the end.
pub open spec fn scan_from(src: Seq<char>, pos: int, line: nat) -> (Seq<TokenView>, Seq<Error>)
    decreases src.len() - pos,
{
    if pos < 0 || pos >= src.len() {
        (seq![end_token(line)], Seq::empty())
    } else {
        let step = scan_step(src, pos, line);
        proof {
            lemma_step_advances(src, pos, line);
        }
        let rest = scan_from(src, step.next, step.line);
        (
            match step.token {
                Some(t) => seq![t] + rest.0,
                None => rest.0,
            },
            match step.error {
                Some(e) => seq![e] + rest.1,
                None => rest.1,
            },
        )
    }
}

/// The tokens and diagnostics of a whole source: lines count from 1.
pub open spec fn scan(src: Seq<char>) -> (Seq<TokenView>, Seq<Error>) {
    scan_from(src, 0, 1)
}

} // verus!

verus! {

/// Whether `ts` is a well-formed token sequence: non-empty, closed by `Eof`
/// and by no earlier token, and with lines that never decrease.
pub open spec fn well_formed(ts: Seq<TokenView>) -> bool {
    &&& ts.len() > 0
    &&& ts.last().kind == TokenType::Eof
    &&& forall|i: int| 0 <= i < ts.len() - 1 ==> ts[i].kind != TokenType::Eof
    &&& forall|i: int, j: int| 0 <= i <= j < ts.len() ==> #[trigger] ts[i].line <= #[trigger] ts[j].line
}

proof fn lemma_step_token(src: Seq<char>, pos: int, line: nat)
    requires
        0 <= pos < src.len(),
    ensures
        ({
            let step = scan_step(src, pos, line);
            step.token matches Some(t) ==> t.kind != TokenType::Eof && line <= t.line <= step.line
        }),
        scan_step(src, pos, line).line >= line,
{
    lemma_step_advances(src, pos, line);
}

/// Every scan from any point is well formed, and its lines start at `line`.
pub proof fn lemma_scan_from_well_formed(src: Seq<char>, pos: int, line: nat)
    ensures
        well_formed(scan_from(src, pos, line).0),
        forall|i: int| 0 <= i < scan_from(src, pos, line).0.len() ==> #[trigger] scan_from(src, pos, line).0[i].line >= line,
    decreases src.len() - pos,
{
    if 0 <= pos < src.len() {
        let step = scan_step(src, pos, line);
        lemma_step_advances(src, pos, line);
        lemma_step_token(src, pos, line);
        lemma_scan_from_well_formed(src, step.next, step.line);
        let rest = scan_from(src, step.next, step.line).0;
        let ts = scan_from(src, pos, line).0;
        if let Some(t) = step.token {
            assert(ts == seq![t] + rest);
            assert forall|i: int, j: int| 0 <= i <= j < ts.len() implies #[trigger] ts[i].line <= #[trigger] ts[j].line by {
                if i > 0 {
                    assert(ts[i] == rest[i - 1] && ts[j] == rest[j - 1]);
                } else {
                    assert(ts[j].line >= step.line || j == 0) by {
                        if j > 0 {
                            assert(ts[j] == rest[j - 1]);
                        }
                    }
                }
            }
            assert forall|i: int| 0 <= i < ts.len() implies #[trigger] ts[i].line >= line by {
                if i > 0 {
                    assert(ts[i] == rest[i - 1]);
                }
            }
            assert forall|i: int| 0 <= i < ts.len() - 1 implies ts[i].kind != TokenType::Eof by {
                if i > 0 {
                    assert(ts[i] == rest[i - 1]);
                }
            }
        }
    }
}

/// Scanning any source gives a well-formed token sequence: it ends with
/// `Eof`, holds no other `Eof`, and its lines never decrease.
pub proof fn lemma_scan_well_formed(src: Seq<char>)
    ensures
        well_formed(scan(src).0),
{
    lemma_scan_from_well_formed(src, 0, 1);
}

} // verus!
