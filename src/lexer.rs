//! The lexer: scans source text into tokens, proved to follow the lexical
//! grammar of `lexical`.
use crate::error::{Error, ErrorKind};
use crate::input_stream::{lemma_newlines_bound, lemma_newlines_split, newlines, InputStream};
use crate::lexical::{
    is_digit, is_word_char, is_word_start, keyword_of, lemma_run_end, lemma_step_advances,
    number_end, punctuation, well_formed, lemma_scan_well_formed, run_end, scan, scan_from, scan_step, in_run, Run,
};
use crate::token::{parsable, views, Literal, Token, TokenType};
use vstd::prelude::*;

verus! {

/// Relies on `String: FromIterator<&char>`: the string holds the given
/// characters in order.
#[verifier::external_body]
fn string_from(chars: &[char]) -> (r: String)
    ensures
        r@ == chars@,
{
    chars.iter().collect()
}

pub fn is_digit_char(c: char) -> (r: bool)
    ensures
        r == is_digit(c),
{
    '0' <= c && c <= '9'
}

/// Whether `c` can start an identifier: an ASCII letter or `_`.
pub fn is_alpha(c: char) -> (r: bool)
    ensures
        r == is_word_start(c),
{
    ('a' <= c && c <= 'z') || ('A' <= c && c <= 'Z') || c == '_'
}

/// Whether `c` can continue an identifier: an ASCII letter, digit or `_`.
pub fn is_alphanumeric(c: char) -> (r: bool)
    ensures
        r == is_word_char(c),
{
    is_alpha(c) || is_digit_char(c)
}

fn belongs(c: char, run: Run) -> (r: bool)
    ensures
        r == in_run(c, run),
{
    match run {
        Run::Digits => is_digit_char(c),
        Run::Word => is_alphanumeric(c),
        Run::ToNewline => c != '\n',
        Run::ToQuote => c != '"',
    }
}

fn single_char_token(c: char) -> (r: Option<TokenType>)
    ensures
        r == punctuation(c),
{
    match c {
        '(' => Some(TokenType::LeftParen),
        ')' => Some(TokenType::RightParen),
        '{' => Some(TokenType::LeftBrace),
        '}' => Some(TokenType::RightBrace),
        ',' => Some(TokenType::Comma),
        '.' => Some(TokenType::Dot),
        '-' => Some(TokenType::Minus),
        '+' => Some(TokenType::Plus),
        ';' => Some(TokenType::Semicolon),
        '*' => Some(TokenType::Star),
        _ => None,
    }
}

/// Whether `src[start..end]` spells `word`.
fn spells(src: &Vec<char>, start: usize, end: usize, word: &str) -> (r: bool)
    requires
        start <= end <= src@.len(),
    ensures
        r == (src@.subrange(start as int, end as int) == word@),
{
    let n = word.unicode_len();
    if end - start != n {
        return false;
    }
    let mut i: usize = 0;
    while i < n
        invariant
            start + n == end <= src@.len(),
            n == word@.len(),
            i <= n,
            forall|k: int| 0 <= k < i ==> src@[start + k] == word@[k],
        decreases n - i,
    {
        if src[start + i] != word.get_char(i) {
            assert(src@.subrange(start as int, end as int)[i as int] != word@[i as int]);
            return false;
        }
        i = i + 1;
    }
    assert(src@.subrange(start as int, end as int) =~= word@);
    true
}

/// The keyword spelled by `src[start..end]`, if any.
pub fn keyword(src: &Vec<char>, start: usize, end: usize) -> (r: Option<TokenType>)
    requires
        start <= end <= src@.len(),
    ensures
        r == keyword_of(src@.subrange(start as int, end as int)),
{
    if spells(src, start, end, "and") {
        Some(TokenType::And)
    } else if spells(src, start, end, "else") {
        Some(TokenType::Else)
    } else if spells(src, start, end, "false") {
        Some(TokenType::False)
    } else if spells(src, start, end, "for") {
        Some(TokenType::For)
    } else if spells(src, start, end, "fn") {
        Some(TokenType::Fn)
    } else if spells(src, start, end, "if") {
        Some(TokenType::If)
    } else if spells(src, start, end, "or") {
        Some(TokenType::Or)
    } else if spells(src, start, end, "return") {
        Some(TokenType::Return)
    } else if spells(src, start, end, "true") {
        Some(TokenType::True)
    } else if spells(src, start, end, "let") {
        Some(TokenType::Let)
    } else if spells(src, start, end, "while") {
        Some(TokenType::While)
    } else {
        None
    }
}

pub open spec fn option_seq<A>(o: Option<A>) -> Seq<A> {
    match o {
        Some(a) => seq![a],
        None => Seq::empty(),
    }
}

/// Scans a source text into tokens, collecting lexical diagnostics.
pub struct Lexer {
    stream: InputStream,
    start: usize,
    errors: Vec<Error>,
}

impl Lexer {
    /// The source text being scanned.
    pub closed spec fn source(&self) -> Seq<char> {
        self.stream.source@
    }

    /// The lexical diagnostics of the last scan.
    pub closed spec fn diagnostics(&self) -> Seq<Error> {
        self.errors@
    }

    pub closed spec fn wf(&self) -> bool {
        &&& self.stream.wf()
        &&& self.stream.pos <= self.stream.source@.len()
        &&& self.stream.source@.len() < usize::MAX
        &&& self.start <= self.stream.pos
    }

    /// The 1-based line of the next character.
    spec fn line(&self) -> nat {
        self.stream.line as nat + 1
    }

    pub fn new(source: &str) -> (r: Self)
        requires
            source@.len() < usize::MAX,
        ensures
            r.wf(),
            r.source() == source@,
            r.diagnostics() == Seq::<Error>::empty(),
    {
        Lexer { stream: InputStream::new(source), start: 0, errors: Vec::new() }
    }

    /// The diagnostics of the last scan, in the order they were found.
    pub fn errors(&self) -> (r: &Vec<Error>)
        ensures
            r@ == self.diagnostics(),
    {
        &self.errors
    }

    /// Scans the whole source: the tokens in order, closed by `Eof`. The
    /// diagnostics of the scan replace those of any earlier one.
    pub fn scan_tokens(&mut self) -> (r: Vec<Token>)
        requires
            old(self).wf(),
        ensures
            final(self).wf(),
            final(self).source() == old(self).source(),
            views(r@) == scan(old(self).source()).0,
            final(self).diagnostics() == scan(old(self).source()).1,
            well_formed(views(r@)),
            parsable(r@),
    {
        self.stream.pos = 0;
        self.stream.line = 0;
        self.stream.col = 0;
        self.start = 0;
        self.errors = Vec::new();
        let mut tokens: Vec<Token> = Vec::new();
        let ghost src = self.stream.source@;
        let ghost full = scan(src);
        while !self.stream.eof()
            invariant
                self.wf(),
                self.stream.source@ == src,
                full == scan(src),
                views(tokens@) + scan_from(src, self.stream.pos as int, self.line()).0 == full.0,
                self.errors@ + scan_from(src, self.stream.pos as int, self.line()).1 == full.1,
            decreases src.len() - self.stream.pos,
        {
            let ghost before = views(tokens@);
            let ghost errs = self.errors@;
            let ghost step = scan_step(src, self.stream.pos as int, self.line());
            let ghost pos = self.stream.pos as int;
            let ghost line = self.line();
            self.scan_token(&mut tokens);
            proof {
                lemma_step_advances(src, pos, line);
                let rest = scan_from(src, step.next, step.line);
                assert(scan_from(src, pos, line).0 == option_seq(step.token) + rest.0);
                assert(scan_from(src, pos, line).1 == option_seq(step.error) + rest.1);
                assert(before + (option_seq(step.token) + rest.0) == (before + option_seq(step.token)) + rest.0);
                assert(errs + (option_seq(step.error) + rest.1) == (errs + option_seq(step.error)) + rest.1);
            }
        }
        proof {
            lemma_newlines_bound(src, 0, src.len() as int);
            reveal_strlit("");
        }
        let end = Token::new(TokenType::Eof, "", None, self.stream.line + 1);
        proof {
            assert(end.lexeme@ =~= Seq::<char>::empty());
        }
        let ghost before = tokens@;
        tokens.push(end);
        proof {
            assert(views(tokens@) == views(before).push(end@));
            assert(self.errors@ =~= full.1);
            assert(tokens@.last() == end);
            assert(views(tokens@) =~= full.0);
            lemma_scan_well_formed(src);
        }
        tokens
    }

    /// Reads one step of the grammar from the next character on.
    fn scan_token(&mut self, tokens: &mut Vec<Token>)
        requires
            old(self).wf(),
            old(self).stream.pos < old(self).source().len(),
        ensures
            final(self).wf(),
            final(self).stream.source@ == old(self).stream.source@,
            ({
                let step = scan_step(old(self).source(), old(self).stream.pos as int, old(self).line());
                &&& final(self).stream.pos == step.next
                &&& final(self).line() == step.line
                &&& views(final(tokens)@) == views(old(tokens)@) + option_seq(step.token)
                &&& final(self).errors@ == old(self).errors@ + option_seq(step.error)
            }),
    {
        let ghost src = self.stream.source@;
        let ghost pos = self.stream.pos as int;
        let ghost line = self.line();
        self.start = self.stream.pos;
        let c = self.advance();
        if let Some(kind) = single_char_token(c) {
            self.add_token(tokens, kind);
        } else if c == '!' {
            let kind = if self.matches('=') { TokenType::BangEqual } else { TokenType::Bang };
            self.add_token(tokens, kind);
        } else if c == '=' {
            let kind = if self.matches('=') { TokenType::EqualEqual } else { TokenType::Equal };
            self.add_token(tokens, kind);
        } else if c == '<' {
            let kind = if self.matches('=') { TokenType::LessEqual } else { TokenType::Less };
            self.add_token(tokens, kind);
        } else if c == '>' {
            let kind = if self.matches('=') { TokenType::GreaterEqual } else { TokenType::Greater };
            self.add_token(tokens, kind);
        } else if c == '/' {
            if self.matches('/') {
                self.skip_run(Run::ToNewline);
                proof {
                    lemma_run_end(src, pos + 2, Run::ToNewline);
                    lemma_newlines_split(src, 0, pos, self.stream.pos as int);
                    lemma_no_newlines(src, pos, self.stream.pos as int);
                }
            } else {
                self.add_token(tokens, TokenType::Slash);
            }
        } else if c == ' ' || c == '\r' || c == '\t' || c == '\n' {
        } else if c == '"' {
            self.string(tokens);
        } else if is_digit_char(c) {
            self.number(tokens);
        } else if is_alpha(c) {
            self.identifier(tokens);
        } else {
            self.errors.push(Error::new(ErrorKind::UnexpectedCharacter(c), self.current_line()));
        }
    }

    /// The 1-based line of the next character.
    fn current_line(&self) -> (r: usize)
        requires
            self.wf(),
        ensures
            r == self.line(),
    {
        proof {
            lemma_newlines_bound(self.stream.source@, 0, self.stream.pos as int);
        }
        self.stream.line + 1
    }

    /// Reads the next character, which exists.
    fn advance(&mut self) -> (c: char)
        requires
            old(self).wf(),
            old(self).stream.pos < old(self).source().len(),
        ensures
            final(self).wf(),
            final(self).stream.source@ == old(self).stream.source@,
            final(self).start == old(self).start,
            final(self).errors@ == old(self).errors@,
            c == old(self).source()[old(self).stream.pos as int],
            final(self).stream.pos == old(self).stream.pos + 1,
    {
        self.stream.next().unwrap()
    }

    /// Reads the next character where it is `expected`.
    fn matches(&mut self, expected: char) -> (r: bool)
        requires
            old(self).wf(),
        ensures
            final(self).wf(),
            final(self).stream.source@ == old(self).stream.source@,
            final(self).start == old(self).start,
            final(self).errors@ == old(self).errors@,
            r == (old(self).stream.pos < old(self).source().len() && old(self).source()[old(
                self,
            ).stream.pos as int] == expected),
            final(self).stream.pos == old(self).stream.pos + if r { 1int } else { 0int },
    {
        match self.stream.peek() {
            Some(c) => {
                if c == expected {
                    self.stream.next();
                    true
                } else {
                    false
                }
            },
            None => false,
        }
    }

    /// Reads every character of `run` from the next one on.
    fn skip_run(&mut self, run: Run)
        requires
            old(self).wf(),
        ensures
            final(self).wf(),
            final(self).stream.source@ == old(self).stream.source@,
            final(self).start == old(self).start,
            final(self).errors@ == old(self).errors@,
            final(self).stream.pos == run_end(old(self).source(), old(self).stream.pos as int, run),
    {
        let ghost src = self.stream.source@;
        let ghost end = run_end(src, self.stream.pos as int, run);
        loop
            invariant
                self.wf(),
                self.stream.source@ == src,
                self.start == old(self).start,
                self.errors@ == old(self).errors@,
                run_end(src, self.stream.pos as int, run) == end,
            ensures
                self.wf(),
                self.stream.source@ == src,
                self.start == old(self).start,
                self.errors@ == old(self).errors@,
                self.stream.pos == end,
            decreases src.len() - self.stream.pos,
        {
            match self.stream.peek() {
                Some(c) => {
                    if belongs(c, run) {
                        self.stream.next();
                    } else {
                        break;
                    }
                },
                None => {
                    break;
                },
            }
        }
    }

    /// Appends the token of `kind` spelled by the characters read since
    /// `start`, with the literal payload that the kind carries.
    fn add_token(&mut self, tokens: &mut Vec<Token>, kind: TokenType)
        requires
            old(self).wf(),
            kind == TokenType::String ==> old(self).start + 2 <= old(self).stream.pos,
        ensures
            *final(self) == *old(self),
            views(final(tokens)@) == views(old(tokens)@).push(
                crate::lexical::token_at(
                    old(self).source(),
                    kind,
                    old(self).start as int,
                    old(self).stream.pos as int,
                    old(self).line(),
                ),
            ),
    {
        let src = self.stream.source.as_slice();
        let lexeme = string_from(vstd::slice::slice_subrange(src, self.start, self.stream.pos));
        let literal = match kind {
            TokenType::String => Some(
                Literal::String(
                    string_from(
                        vstd::slice::slice_subrange(src, self.start + 1, self.stream.pos - 1),
                    ),
                ),
            ),
            TokenType::Number => Some(Literal::Number(lexeme.clone())),
            TokenType::Identifier => Some(Literal::String(lexeme.clone())),
            _ => None,
        };
        proof {
            lemma_newlines_bound(self.stream.source@, 0, self.stream.pos as int);
            let lx = self.stream.source@.subrange(self.start as int, self.stream.pos as int);
            if kind == TokenType::String {
                assert(lx.subrange(1, lx.len() - 1) =~= self.stream.source@.subrange(
                    self.start + 1,
                    self.stream.pos - 1,
                ));
            }
        }
        let token = Token::new(kind, lexeme.as_str(), literal, self.stream.line + 1);
        let ghost before = tokens@;
        tokens.push(token);
        proof {
            assert(views(tokens@) =~= views(before).push(token@));
        }
    }

    fn string(&mut self, tokens: &mut Vec<Token>)
        requires
            old(self).wf(),
            old(self).stream.pos == old(self).start + 1,
            old(self).source()[old(self).start as int] == '"',
        ensures
            ({
                let step = scan_step(old(self).source(), old(self).start as int, (old(self).line()));
                &&& final(self).wf()
                &&& final(self).stream.source@ == old(self).stream.source@
                &&& final(self).stream.pos == step.next
                &&& final(self).line() == step.line
                &&& views(final(tokens)@) == views(old(tokens)@) + option_seq(step.token)
                &&& final(self).errors@ == old(self).errors@ + option_seq(step.error)
            }),
    {
        let ghost src = self.stream.source@;
        let ghost start = self.start as int;
        self.skip_run(Run::ToQuote);
        proof {
            lemma_run_end(src, start + 1, Run::ToQuote);
            lemma_newlines_split(src, 0, start, start + 1);
            lemma_newlines_split(src, 0, start + 1, self.stream.pos as int);
        }
        if self.stream.eof() {
            self.errors.push(Error::new(ErrorKind::UnterminatedString, self.current_line()));
        } else {
            self.advance();
            let ghost before = views(tokens@);
            self.add_token(tokens, TokenType::String);
            proof {
                assert(views(tokens@) =~= before + option_seq(
                    scan_step(src, start, old(self).line()).token,
                ));
            }
        }
    }
}

impl Lexer {
    fn number(&mut self, tokens: &mut Vec<Token>)
        requires
            old(self).wf(),
            old(self).stream.pos == old(self).start + 1,
            is_digit(old(self).source()[old(self).start as int]),
        ensures
            final(self).wf(),
            final(self).stream.source@ == old(self).stream.source@,
            final(self).errors@ == old(self).errors@,
            final(self).stream.pos == number_end(old(self).source(), old(self).start as int),
            final(self).line() == old(self).line(),
            views(final(tokens)@) == views(old(tokens)@).push(
                crate::lexical::token_at(
                    old(self).source(),
                    TokenType::Number,
                    old(self).start as int,
                    number_end(old(self).source(), old(self).start as int),
                    old(self).line(),
                ),
            ),
    {
        let ghost src = self.stream.source@;
        let ghost start = self.start as int;
        self.skip_run(Run::Digits);
        proof {
            lemma_run_end(src, start + 1, Run::Digits);
        }
        let p = self.stream.pos;
        if p + 1 < self.stream.source.len() && self.stream.source[p] == '.' && is_digit_char(
            self.stream.source[p + 1],
        ) {
            self.advance();
            self.skip_run(Run::Digits);
            proof {
                lemma_run_end(src, p + 1, Run::Digits);
            }
        }
        proof {
            lemma_newlines_split(src, 0, start, self.stream.pos as int);
            lemma_no_newlines(src, start, self.stream.pos as int);
        }
        self.add_token(tokens, TokenType::Number);
    }

    fn identifier(&mut self, tokens: &mut Vec<Token>)
        requires
            old(self).wf(),
            old(self).stream.pos == old(self).start + 1,
            is_word_start(old(self).source()[old(self).start as int]),
        ensures
            ({
                let src = old(self).source();
                let start = old(self).start as int;
                let end = run_end(src, start + 1, Run::Word);
                let kind = match keyword_of(src.subrange(start, end)) {
                    Some(k) => k,
                    None => TokenType::Identifier,
                };
                &&& final(self).wf()
                &&& final(self).stream.source@ == old(self).stream.source@
                &&& final(self).errors@ == old(self).errors@
                &&& final(self).stream.pos == end
                &&& final(self).line() == old(self).line()
                &&& views(final(tokens)@) == views(old(tokens)@).push(
                    crate::lexical::token_at(src, kind, start, end, old(self).line()),
                )
            }),
    {
        let ghost src = self.stream.source@;
        let ghost start = self.start as int;
        self.skip_run(Run::Word);
        proof {
            lemma_run_end(src, start + 1, Run::Word);
            lemma_newlines_split(src, 0, start, self.stream.pos as int);
            lemma_no_newlines(src, start, self.stream.pos as int);
        }
        let kind = match keyword(&self.stream.source, self.start, self.stream.pos) {
            Some(k) => k,
            None => TokenType::Identifier,
        };
        self.add_token(tokens, kind);
    }
}

/// A range with no newline adds no lines.
proof fn lemma_no_newlines(src: Seq<char>, a: int, b: int)
    requires
        a <= b,
        forall|k: int| a <= k < b ==> src[k] != '\n',
    ensures
        newlines(src, a, b) == 0,
    decreases b - a,
{
    if b > a {
        lemma_no_newlines(src, a, b - 1);
    }
}

} // verus!
