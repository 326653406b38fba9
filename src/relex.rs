//! Re-lexing: the kinds of a scan are kept when its lexemes are written out
//! again, each followed by a space, and scanned anew.
use crate::input_stream::newlines;
use crate::lexical::{
    end_token, in_run, is_digit, lemma_run_end, lemma_step_advances, number_end, run_end,
    scan, scan_from, scan_step, Run,
};
use crate::token::{TokenType, TokenView};
use vstd::prelude::*;

verus! {

/// The kinds of a token sequence.
pub open spec fn kinds(ts: Seq<TokenView>) -> Seq<TokenType> {
    ts.map_values(|t: TokenView| t.kind)
}

/// The lexemes of `ts` in order, each followed by a space.
pub open spec fn spaced(ts: Seq<TokenView>) -> Seq<char>
    decreases ts.len(),
{
    if ts.len() == 0 {
        Seq::empty()
    } else {
        ts[0].lexeme + seq![' '] + spaced(ts.drop_first())
    }
}

/// A run ends at `e` when every character before it belongs and the one at
/// it does not.
proof fn lemma_run_end_is(s: Seq<char>, i: int, e: int, run: Run)
    requires
        0 <= i <= e <= s.len(),
        forall|k: int| i <= k < e ==> in_run(#[trigger] s[k], run),
        e == s.len() || !in_run(s[e], run),
    ensures
        run_end(s, i, run) == e,
    decreases e - i,
{
    if i < e {
        lemma_run_end_is(s, i + 1, e, run);
    }
}

proof fn lemma_run_end_shift(a: Seq<char>, b: Seq<char>, j: int, run: Run)
    requires
        0 <= j <= b.len(),
    ensures
        run_end(a + b, a.len() + j, run) == a.len() + run_end(b, j, run),
    decreases b.len() - j,
{
    if j < b.len() {
        assert((a + b)[a.len() + j] == b[j]);
        if in_run(b[j], run) {
            lemma_run_end_shift(a, b, j + 1, run);
        }
    }
}

proof fn lemma_newlines_shift(a: Seq<char>, b: Seq<char>, x: int, y: int)
    requires
        0 <= x <= y <= b.len(),
    ensures
        newlines(a + b, a.len() + x, a.len() + y) == newlines(b, x, y),
    decreases y - x,
{
    if y > x {
        lemma_newlines_shift(a, b, x, y - 1);
        assert((a + b)[a.len() + y - 1] == b[y - 1]);
    }
}

/// A step of the scan does not depend on what precedes its position.
proof fn lemma_step_shift(a: Seq<char>, b: Seq<char>, i: int, line: nat)
    requires
        0 <= i < b.len(),
    ensures
        ({
            let s1 = scan_step(a + b, a.len() + i, line);
            let s2 = scan_step(b, i, line);
            &&& s1.next == a.len() + s2.next
            &&& s1.line == s2.line
            &&& s1.token == s2.token
            &&& s1.error == s2.error
        }),
{
    let s = a + b;
    let n = a.len();
    let p = n + i;
    assert(s[p] == b[i]);
    if i + 1 < b.len() {
        assert(s[p + 1] == b[i + 1]);
    }
    assert(s.subrange(p, p + 1) =~= b.subrange(i, i + 1));
    if i + 2 <= b.len() {
        assert(s.subrange(p, p + 2) =~= b.subrange(i, i + 2));
        lemma_run_end_shift(a, b, i + 2, Run::ToNewline);
    }
    lemma_run_end_shift(a, b, i + 1, Run::ToQuote);
    lemma_run_end(b, i + 1, Run::ToQuote);
    let close = run_end(b, i + 1, Run::ToQuote);
    lemma_newlines_shift(a, b, i + 1, close);
    if close < b.len() {
        assert(s.subrange(p, n + close + 1) =~= b.subrange(i, close + 1));
    }
    lemma_run_end_shift(a, b, i + 1, Run::Word);
    lemma_run_end(b, i + 1, Run::Word);
    let w = run_end(b, i + 1, Run::Word);
    assert(s.subrange(p, n + w) =~= b.subrange(i, w));
    lemma_run_end_shift(a, b, i, Run::Digits);
    lemma_run_end(b, i, Run::Digits);
    let e = run_end(b, i, Run::Digits);
    if e + 1 < b.len() {
        assert(s[n + e] == b[e]);
        assert(s[n + e + 1] == b[e + 1]);
        lemma_run_end_shift(a, b, e + 1, Run::Digits);
        lemma_run_end(b, e + 1, Run::Digits);
    }
    assert(number_end(s, p) == n + number_end(b, i));
    assert(s.subrange(p, n + number_end(b, i)) =~= b.subrange(i, number_end(b, i)));
}

/// Scanning the end of a text does not depend on what precedes it.
pub proof fn lemma_scan_shift(a: Seq<char>, b: Seq<char>, i: int, line: nat)
    requires
        0 <= i <= b.len(),
    ensures
        scan_from(a + b, a.len() + i, line) == scan_from(b, i, line),
    decreases b.len() - i,
{
    if i < b.len() {
        lemma_step_shift(a, b, i, line);
        lemma_step_advances(b, i, line);
        let st = scan_step(b, i, line);
        lemma_scan_shift(a, b, st.next, st.line);
    }
}

/// A token that a step gives is given again, whole, by a step over its
/// lexeme followed by a space.
proof fn lemma_relex_token(src: Seq<char>, pos: int, line: nat, rest: Seq<char>, l2: nat)
    requires
        0 <= pos < src.len(),
        scan_step(src, pos, line).token is Some,
    ensures
        ({
            let t = scan_step(src, pos, line).token->0;
            let s = t.lexeme + seq![' '] + rest;
            let r = scan_step(s, 0, l2);
            &&& t.lexeme.len() >= 1
            &&& r.token is Some
            &&& r.token->0.kind == t.kind
            &&& r.next == t.lexeme.len()
        }),
{
    let step = scan_step(src, pos, line);
    let t = step.token->0;
    let l = t.lexeme;
    let s = l + seq![' '] + rest;
    lemma_step_advances(src, pos, line);
    let end = step.next;
    assert(l == src.subrange(pos, end));
    assert(forall|k: int| 0 <= k < l.len() ==> #[trigger] s[k] == src[pos + k]);
    assert(s[l.len() as int] == ' ');
    let c = src[pos];
    assert(s[0] == c);
    if c == '"' {
        let close = run_end(src, pos + 1, Run::ToQuote);
        lemma_run_end(src, pos + 1, Run::ToQuote);
        assert(forall|k: int| 1 <= k < l.len() - 1 ==> in_run(#[trigger] s[k], Run::ToQuote)) by {
            assert forall|k: int| 1 <= k < l.len() - 1 implies in_run(#[trigger] s[k], Run::ToQuote) by {
                assert(s[k] == src[pos + k]);
            }
        }
        assert(s[l.len() - 1] == src[close]);
        lemma_run_end_is(s, 1, l.len() - 1, Run::ToQuote);
    } else if is_digit(c) && crate::lexical::punctuation(c) is None {
        let e = run_end(src, pos, Run::Digits);
        lemma_run_end(src, pos, Run::Digits);
        let de = e - pos;
        if e + 1 < src.len() && src[e] == '.' && is_digit(src[e + 1]) {
            let f = run_end(src, e + 1, Run::Digits);
            lemma_run_end(src, e + 1, Run::Digits);
            assert forall|k: int| 0 <= k < de implies in_run(#[trigger] s[k], Run::Digits) by {
                assert(s[k] == src[pos + k]);
            }
            assert(s[de] == src[e]);
            lemma_run_end_is(s, 0, de, Run::Digits);
            assert(s[de + 1] == src[e + 1]);
            assert forall|k: int| de + 1 <= k < l.len() implies in_run(#[trigger] s[k], Run::Digits) by {
                assert(s[k] == src[pos + k]);
            }
            lemma_run_end_is(s, de + 1, l.len() as int, Run::Digits);
        } else {
            assert forall|k: int| 0 <= k < de implies in_run(#[trigger] s[k], Run::Digits) by {
                assert(s[k] == src[pos + k]);
            }
            lemma_run_end_is(s, 0, de, Run::Digits);
        }
    } else if crate::lexical::is_word_start(c) {
        lemma_run_end(src, pos + 1, Run::Word);
        assert forall|k: int| 1 <= k < l.len() implies in_run(#[trigger] s[k], Run::Word) by {
            assert(s[k] == src[pos + k]);
        }
        lemma_run_end_is(s, 1, l.len() as int, Run::Word);
        assert(s.subrange(0, l.len() as int) =~= l);
    } else {
        if l.len() >= 2 {
            assert(s[1] == src[pos + 1]);
        }
    }
}

proof fn lemma_spaced_cons(t: TokenView, rest: Seq<TokenView>)
    ensures
        spaced(seq![t] + rest) == t.lexeme + seq![' '] + spaced(rest),
{
    let ts = seq![t] + rest;
    assert(ts[0] == t);
    assert(ts.drop_first() =~= rest);
}

/// Re-lexing the spaced lexemes of a scan from any point gives its kinds.
pub proof fn lemma_relex_from(src: Seq<char>, pos: int, line: nat, l2: nat)
    ensures
        kinds(scan_from(spaced(scan_from(src, pos, line).0), 0, l2).0) == kinds(
            scan_from(src, pos, line).0,
        ),
    decreases src.len() - pos,
{
    let ts = scan_from(src, pos, line).0;
    if pos < 0 || pos >= src.len() {
        lemma_spaced_cons(end_token(line), Seq::empty());
        assert(seq![end_token(line)] + Seq::<TokenView>::empty() =~= ts);
        let s = spaced(ts);
        assert(s =~= seq![' ']);
        assert(scan_step(s, 0, l2).next == 1);
        assert(scan_step(s, 0, l2).token is None);
        assert(scan_step(s, 0, l2).line == l2);
        assert(scan_from(s, 1, l2).0 == seq![end_token(l2)]);
        assert(scan_from(s, 0, l2).0 == scan_from(s, 1, l2).0);
        assert(kinds(scan_from(s, 0, l2).0) =~= seq![TokenType::Eof]);
        assert(kinds(ts) =~= seq![TokenType::Eof]);
    } else {
        let step = scan_step(src, pos, line);
        lemma_step_advances(src, pos, line);
        let rest = scan_from(src, step.next, step.line).0;
        match step.token {
            None => {
                lemma_relex_from(src, step.next, step.line, l2);
            },
            Some(t) => {
                assert(ts == seq![t] + rest);
                lemma_spaced_cons(t, rest);
                let b = spaced(rest);
                let a = t.lexeme + seq![' '];
                let s = spaced(ts);
                assert(s == a + b);
                lemma_relex_token(src, pos, line, b, l2);
                let r = scan_step(s, 0, l2);
                let l3 = r.line;
                assert(s[t.lexeme.len() as int] == ' ');
                let r2 = scan_step(s, t.lexeme.len() as int, l3);
                assert(r2.next == a.len() && r2.line == l3 && r2.token is None);
                lemma_step_advances(s, 0, l2);
                lemma_scan_shift(a, b, 0, l3);
                lemma_relex_from(src, step.next, step.line, l3);
                let again = scan_from(s, 0, l2).0;
                assert(again == seq![r.token->0] + scan_from(s, t.lexeme.len() as int, l3).0);
                assert(scan_from(s, t.lexeme.len() as int, l3) == scan_from(s, a.len() as int, l3));
                assert(kinds(again) =~= seq![t.kind] + kinds(scan_from(b, 0, l3).0));
                assert(kinds(ts) =~= seq![t.kind] + kinds(rest));
            },
        }
    }
}

/// Writing out the lexemes of a scan, each followed by a space, and scanning
/// that text again gives the same kinds of tokens in the same order.
pub proof fn lemma_relex_spaced(src: Seq<char>)
    ensures
        kinds(scan(spaced(scan(src).0)).0) == kinds(scan(src).0),
{
    lemma_relex_from(src, 0, 1, 1);
}

} // verus!
