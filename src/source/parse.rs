//! A parser for `cfail` annotations.
//!
//! Annotations take these forms:
//!
//! ```text
//! 0.foo();  //~ <kind> <message>     the message is about this line
//! //~^ <kind> <message>              about the line `n` lines up, for `n` carets
//! //~| <kind> <message>              about the same line as the annotation before
//! //~| <continuation of message>     more text for the annotation before
//! ```

use vstd::prelude::*;

use crate::source::lexer::{lexed_view, token_at, tokens_from, Lexed, Lexer, Spanned, Token};
use crate::line_map::annotations_map_of;
use crate::text::{
    byte_len, byte_pos, chars_of, contains, decimal, decimal_chars, find_in, lemma_byte_len_le, lemma_byte_len_push,
    lemma_line_end_bounds, lemma_range_at, line_end, line_ranges, lines_from, occurs_at, push_chars, push_str, ranges_of,
    sat, split_lines, string_of, utf8_len,
};
use crate::{Annotations, Kind, Line, Span};

verus! {

/// Parse errors.
#[derive(Debug)]
pub enum Error {
    /// Expected one of these tokens
    Expected(Vec<Token>),
    /// Used `//~^^^` with too many carets, and the adjusted line doesn't exist
    LineDoesntExist,
    /// Used `//~|`, but there is no annotation in the previous line
    NoPrecedingAnnotation,
    /// Unknown compiler message `kind`
    UnknownKind(String),
    /// No token starts with this character
    UnknownStartOfToken(char),
}

/// What a parse error says, with texts as sequences of characters.
pub enum ErrorView {
    /// Expected one of these tokens
    Expected(Seq<Token>),
    /// The adjusted line doesn't exist
    LineDoesntExist,
    /// No annotation to share the line of
    NoPrecedingAnnotation,
    /// Unknown kind
    UnknownKind(Seq<char>),
    /// No token starts with this character
    UnknownStartOfToken(char),
}

/// What the parse error `e` says.
pub open spec fn error_view(e: Error) -> ErrorView {
    match e {
        Error::Expected(v) => ErrorView::Expected(v@),
        Error::LineDoesntExist => ErrorView::LineDoesntExist,
        Error::NoPrecedingAnnotation => ErrorView::NoPrecedingAnnotation,
        Error::UnknownKind(s) => ErrorView::UnknownKind(s@),
        Error::UnknownStartOfToken(c) => ErrorView::UnknownStartOfToken(c),
    }
}


/// The annotation marker.
pub open spec fn marker() -> Seq<char> {
    "//~"@
}

/// The marker of a continuation or shared annotation.
pub open spec fn cont_marker() -> Seq<char> {
    "//~|"@
}

/// `p` is the first position at which `n` occurs in `s`.
pub open spec fn is_first(s: Seq<char>, n: Seq<char>, p: int) -> bool {
    occurs_at(s, n, p) && forall|q: int| 0 <= q < p ==> !occurs_at(s, n, q)
}

/// The first position at which `n` occurs in `s`, where it does.
pub open spec fn first_at(s: Seq<char>, n: Seq<char>) -> int {
    choose|p: int| is_first(s, n, p)
}

/// `^` or ` `
pub open spec fn caret_ws() -> Seq<Token> {
    seq![Token::Caret, Token::Whitespace]
}

/// `^`, `|` or ` `
pub open spec fn caret_or_ws() -> Seq<Token> {
    seq![Token::Caret, Token::Or, Token::Whitespace]
}

/// `:` or ` `
pub open spec fn colon_ws() -> Seq<Token> {
    seq![Token::Colon, Token::Whitespace]
}

/// A kind
pub open spec fn kind_tok() -> Seq<Token> {
    seq![Token::Kind(Kind::Error)]
}

/// What one source line holds.
pub enum LineParse {
    /// No marker
    NoMarker,
    /// A malformed annotation: the span, as positions in the line, and the error
    Fail(int, int, ErrorView),
    /// An annotation: the line it is about, its kind and its message
    Found(u32, Kind, Seq<char>),
}

/// After a run of carets from token `j` on, counted in `adj`: the token after
/// the whitespace that ends the run and the number of carets, or the error.
pub open spec fn after_carets(toks: Seq<Spanned>, j: int, adj: nat, end: int) -> Result<(int, nat), (int, int, ErrorView)>
    decreases toks.len() - j,
{
    if j < 0 || j >= toks.len() {
        Err((end, end, ErrorView::Expected(caret_ws())))
    } else {
        match toks[j].2 {
            Ok(Token::Caret) => after_carets(toks, j + 1, adj + 1, end),
            Ok(Token::Whitespace) => Ok((j + 1, adj)),
            Err(e) => Err((toks[j].0, toks[j].1, e)),
            Ok(_) => Err((toks[j].0, toks[j].1, ErrorView::Expected(caret_ws()))),
        }
    }
}

/// The first token at or after `j` that is not whitespace.
pub open spec fn skip_ws(toks: Seq<Spanned>, j: int) -> int
    decreases toks.len() - j,
{
    if 0 <= j < toks.len() && toks[j].2 == Ok::<Token, ErrorView>(Token::Whitespace) {
        skip_ws(toks, j + 1)
    } else {
        j
    }
}

/// The rest of an annotation about line `ln`, from token `j` on: the kind, an
/// optional colon, and the message.
pub open spec fn after_target(line: Seq<char>, toks: Seq<Spanned>, j: int, ln: u32) -> LineParse {
    let j1 = skip_ws(toks, j);
    if j1 < 0 || j1 >= toks.len() {
        LineParse::Fail(line.len() as int, line.len() as int, ErrorView::Expected(kind_tok()))
    } else {
        match toks[j1].2 {
            Ok(Token::Kind(k)) => {
                let j2 = j1 + 1;
                if j2 < toks.len() && toks[j2].2 != Ok::<Token, ErrorView>(Token::Colon) && toks[j2].2 != Ok::<
                    Token,
                    ErrorView,
                >(Token::Whitespace) {
                    LineParse::Fail(toks[j2].0, toks[j2].1, ErrorView::Expected(colon_ws()))
                } else {
                    let j3 = if j2 < toks.len() && toks[j2].2 == Ok::<Token, ErrorView>(Token::Colon) {
                        j2 + 1
                    } else {
                        j2
                    };
                    let j4 = skip_ws(toks, j3);
                    let start = if 0 <= j4 < toks.len() {
                        toks[j4].0
                    } else {
                        line.len() as int
                    };
                    LineParse::Found(ln, k, line.subrange(start, line.len() as int))
                }
            },
            _ => LineParse::Fail(toks[j1].0, toks[j1].1, ErrorView::Expected(kind_tok())),
        }
    }
}

/// What source line number `lnum` holds, where `last` is the line of the
/// annotation on the line before, if that line had one.
pub open spec fn line_parse(line: Seq<char>, lnum: u32, last: Option<u32>) -> LineParse {
    if !(exists|p: int| is_first(line, marker(), p)) {
        LineParse::NoMarker
    } else {
        let start = first_at(line, marker()) + 3;
        let toks = tokens_from(line, start);
        if toks.len() == 0 {
            LineParse::Fail(start, start, ErrorView::Expected(caret_or_ws()))
        } else {
            match toks[0].2 {
                Err(e) => LineParse::Fail(toks[0].0, toks[0].1, e),
                Ok(Token::Caret) => match after_carets(toks, 1, 1, line.len() as int) {
                    Err((a, b, e)) => LineParse::Fail(a, b, e),
                    Ok((j, adj)) => if adj >= lnum {
                        LineParse::Fail(toks[0].0, toks[0].1, ErrorView::LineDoesntExist)
                    } else {
                        after_target(line, toks, j, (lnum - adj) as u32)
                    },
                },
                Ok(Token::Or) => match last {
                    None => LineParse::Fail(toks[0].0, toks[0].1, ErrorView::NoPrecedingAnnotation),
                    Some(l) => after_target(line, toks, 1, l),
                },
                Ok(Token::Whitespace) => after_target(line, toks, 1, lnum),
                Ok(_) => LineParse::Fail(toks[0].0, toks[0].1, ErrorView::Expected(caret_or_ws())),
            }
        }
    }
}

/// A parsed line: no marker; an error with its span in the line; or an
/// annotation with the line it is about, its kind and where its message starts.
pub enum LineResult {
    /// No marker
    NoMarker,
    /// A malformed annotation: its span in the line and the error
    Fail(usize, usize, Error),
    /// An annotation: the line it is about, its kind and where its message starts
    Found(Line, Kind, usize),
}

/// What a parsed line says.
pub open spec fn line_result_view(line: Seq<char>, r: LineResult) -> LineParse {
    match r {
        LineResult::NoMarker => LineParse::NoMarker,
        LineResult::Fail(a, b, e) => LineParse::Fail(a as int, b as int, error_view(e)),
        LineResult::Found(l, k, start) => LineParse::Found(l.0, k, line.subrange(start as int, line.len() as int)),
    }
}

/// The tokens of `line` from position `start` on.
fn lex_line(line: &Vec<char>, start: usize) -> (r: Vec<Lexed>)
    requires
        start <= line@.len(),
    ensures
        r@.map_values(|l: Lexed| lexed_view(l)) == tokens_from(line@, start as int),
        forall|q: int| 0 <= q < r@.len() ==> (#[trigger] r@[q]).start <= r@[q].end <= line@.len(),
{
    let mut lexer = Lexer::starting_at(line.clone(), start);
    let mut r: Vec<Lexed> = Vec::new();
    let ghost s = line@;
    loop
        invariant
            lexer.wf(),
            lexer.chars() == s,
            lexer.offset() == 0,
            s == line@,
            start <= s.len(),
            !lexer.halted() ==> r@.map_values(|l: Lexed| lexed_view(l)) + tokens_from(s, lexer.pos()) == tokens_from(s, start as int),
            lexer.halted() ==> r@.map_values(|l: Lexed| lexed_view(l)) == tokens_from(s, start as int),
            forall|q: int| 0 <= q < r@.len() ==> (#[trigger] r@[q]).start <= r@[q].end <= s.len(),
            0 <= lexer.pos() <= s.len(),
        ensures
            r@.map_values(|l: Lexed| lexed_view(l)) == tokens_from(s, start as int),
            forall|q: int| 0 <= q < r@.len() ==> (#[trigger] r@[q]).start <= r@[q].end <= s.len(),
        decreases s.len() - lexer.pos(), if lexer.halted() { 0int } else { 1int },
    {
        let ghost pos = lexer.pos();
        let ghost was_halted = lexer.halted();
        let ghost before = r@.map_values(|l: Lexed| lexed_view(l));
        match lexer.next() {
            None => {
                proof {
                    if !was_halted {
                        assert(tokens_from(s, pos) =~= Seq::<Spanned>::empty());
                        assert(before + Seq::<Spanned>::empty() =~= before);
                    }
                }
                break;
            },
            Some(l) => {
                proof {
                    crate::source::lexer::lemma_token_end(s, pos);
                }
                r.push(l);
                proof {
                    assert(r@.map_values(|l: Lexed| lexed_view(l)) =~= before.push(lexed_view(l)));
                    let tf = tokens_from(s, pos);
                    match token_at(s, pos) {
                        Some((e, Ok(t))) => {
                            assert(tf == seq![(pos, e, Ok::<Token, ErrorView>(t))] + tokens_from(s, e));
                            assert(before + tf =~= before.push(lexed_view(l)) + tokens_from(s, e));
                        },
                        Some((e, Err(x))) => {
                            assert(tf == seq![(pos, e, Err::<Token, ErrorView>(x))]);
                            assert(before + tf =~= before.push(lexed_view(l)));
                        },
                        None => {},
                    }
                }
            },
        }
    }
    r
}

/// The spans and tokens of a list of lexed tokens.
pub open spec fn toks_view(t: Seq<Lexed>) -> Seq<Spanned> {
    t.map_values(|l: Lexed| lexed_view(l))
}

/// The error of token `j`, with its span; `j` must hold an error.
fn token_error(toks: Vec<Lexed>, j: usize) -> (r: LineResult)
    requires
        j < toks@.len(),
        toks@[j as int].token is Err,
    ensures
        r matches LineResult::Fail(a, b, e) && a == toks@[j as int].start && b == toks@[j as int].end
            && Err::<Token, ErrorView>(error_view(e)) == lexed_view(toks@[j as int]).2,
{
    let mut toks = toks;
    let t = toks.remove(j);
    match t.token {
        Err(e) => LineResult::Fail(t.start, t.end, e),
        Ok(_) => LineResult::NoMarker,
    }
}

/// The first token at or after `j` that is not whitespace.
fn skip_whitespace(toks: &Vec<Lexed>, j: usize) -> (r: usize)
    requires
        j <= toks@.len(),
    ensures
        r == skip_ws(toks_view(toks@), j as int),
        j <= r <= toks@.len(),
{
    let mut i = j;
    while i < toks.len() && matches!(toks[i].token, Ok(Token::Whitespace))
        invariant
            j <= i <= toks@.len(),
            skip_ws(toks_view(toks@), j as int) == skip_ws(toks_view(toks@), i as int),
        decreases toks@.len() - i,
    {
        i = i + 1;
    }
    proof {
        if i < toks@.len() {
            assert(toks_view(toks@)[i as int] == lexed_view(toks@[i as int]));
        }
    }
    i
}

/// The rest of an annotation about line `ln`, from token `j` on.
fn finish(line: &Vec<char>, toks: Vec<Lexed>, j: usize, ln: u32) -> (r: LineResult)
    requires
        j <= toks@.len(),
        forall|q: int| 0 <= q < toks@.len() ==> (#[trigger] toks@[q]).start <= toks@[q].end <= line@.len(),
    ensures
        line_result_view(line@, r) == after_target(line@, toks_view(toks@), j as int, ln),
        r matches LineResult::Found(_, _, st) ==> st <= line@.len(),
        r matches LineResult::Fail(a, b, _) ==> a <= b <= line@.len(),
{
    let ghost tv = toks_view(toks@);
    let j1 = skip_whitespace(&toks, j);
    if j1 >= toks.len() {
        let v = vec![Token::Kind(Kind::Error)];
        proof {
            assert(v@ =~= kind_tok());
        }
        let e = Error::Expected(v);
        return LineResult::Fail(line.len(), line.len(), e);
    }
    proof {
        assert(tv[j1 as int] == lexed_view(toks@[j1 as int]));
    }
    let kind = match &toks[j1].token {
        Ok(Token::Kind(k)) => *k,
        _ => {
            let v = vec![Token::Kind(Kind::Error)];
            proof {
                assert(v@ =~= kind_tok());
            }
            let e = Error::Expected(v);
            return LineResult::Fail(toks[j1].start, toks[j1].end, e);
        },
    };
    let j2 = j1 + 1;
    let mut j3 = j2;
    if j2 < toks.len() {
        proof {
            assert(tv[j2 as int] == lexed_view(toks@[j2 as int]));
        }
        match &toks[j2].token {
            Ok(Token::Colon) => {
                j3 = j2 + 1;
            },
            Ok(Token::Whitespace) => {},
            _ => {
                let v = vec![Token::Colon, Token::Whitespace];
                proof {
                    assert(v@ =~= colon_ws());
                }
                let e = Error::Expected(v);
                return LineResult::Fail(toks[j2].start, toks[j2].end, e);
            },
        }
    }
    let j4 = skip_whitespace(&toks, j3);
    let start = if j4 < toks.len() {
        proof {
            assert(tv[j4 as int] == lexed_view(toks@[j4 as int]));
        }
        toks[j4].start
    } else {
        line.len()
    };
    LineResult::Found(Line(ln), kind, start)
}

/// Parses one source line, number `lnum`; `last` is the line of the
/// annotation on the line before, if that line had one.
pub fn parse_line(line: &Vec<char>, lnum: u32, last: Option<u32>) -> (r: LineResult)
    ensures
        line_result_view(line@, r) == line_parse(line@, lnum, last),
        r matches LineResult::Found(_, _, st) ==> st <= line@.len(),
        r matches LineResult::Fail(a, b, _) ==> a <= b <= line@.len(),
{
    let m = chars_of("//~");
    let found = find_in(line, 0, line.len(), &m, 0, m.len());
    proof {
        assert(line@.subrange(0, line@.len() as int) =~= line@);
        assert(m@.subrange(0, m@.len() as int) =~= m@);
        reveal_strlit("//~");
    }
    let pos = match found {
        None => {
            proof {
                assert forall|p: int| !is_first(line@, marker(), p) by {
                    if is_first(line@, marker(), p) {
                        assert(line@.subrange(p, p + marker().len()) == marker());
                    }
                }
            }
            return LineResult::NoMarker;
        },
        Some(p) => p,
    };
    proof {
        assert(is_first(line@, marker(), pos as int));
        let f = first_at(line@, marker());
        assert(is_first(line@, marker(), f));
        if f < pos {
            assert(!occurs_at(line@, marker(), f));
        } else if f > pos {
            assert(!occurs_at(line@, marker(), pos as int));
        }
    }
    let start = pos + 3;
    let toks = lex_line(line, start);
    let ghost tv = toks_view(toks@);
    if toks.len() == 0 {
        let v = vec![Token::Caret, Token::Or, Token::Whitespace];
        proof {
            assert(v@ =~= caret_or_ws());
        }
        let e = Error::Expected(v);
        return LineResult::Fail(start, start, e);
    }
    proof {
        assert(tv[0] == lexed_view(toks@[0]));
    }
    proof {
        assert(is_first(line@, marker(), pos as int));
    }
    let first = match &toks[0].token {
        Ok(t) => *t,
        Err(_) => {
            return token_error(toks, 0);
        },
    };
    match first {
        Token::Caret => {
            let mut j: usize = 1;
            let mut adj: usize = 1;
            loop
                invariant_except_break
                    after_carets(tv, 1, 1, line@.len() as int) == after_carets(tv, j as int, adj as nat, line@.len() as int),
                invariant
                    1 <= j <= toks@.len(),
                    1 <= adj <= j,
                    tv == toks_view(toks@),
                    tv == tokens_from(line@, start as int),
                    tv[0].2 == Ok::<Token, ErrorView>(Token::Caret),
                    start == first_at(line@, marker()) + 3,
                    exists|p: int| is_first(line@, marker(), p),
                    forall|q: int| 0 <= q < toks@.len() ==> (#[trigger] toks@[q]).start <= toks@[q].end <= line@.len(),
                ensures
                    1 <= j <= toks@.len(),
                    1 <= adj,
                    after_carets(tv, 1, 1, line@.len() as int) == Ok::<(int, nat), (int, int, ErrorView)>((j as int, adj as nat)),
                decreases toks@.len() - j,
            {
                if j >= toks.len() {
                    let v = vec![Token::Caret, Token::Whitespace];
                    proof {
                        assert(v@ =~= caret_ws());
                    }
                    let e = Error::Expected(v);
                    proof {
                        assert(after_carets(tv, j as int, adj as nat, line@.len() as int) == Err::<(int, nat), (int, int, ErrorView)>(
                            (line@.len() as int, line@.len() as int, ErrorView::Expected(caret_ws()))));
                    }
                    return LineResult::Fail(line.len(), line.len(), e);
                }
                proof {
                    assert(tv[j as int] == lexed_view(toks@[j as int]));
                }
                match &toks[j].token {
                    Ok(Token::Caret) => {
                        adj = adj + 1;
                        j = j + 1;
                    },
                    Ok(Token::Whitespace) => {
                        j = j + 1;
                        break;
                    },
                    Ok(_) => {
                        let v = vec![Token::Caret, Token::Whitespace];
                        proof {
                            assert(v@ =~= caret_ws());
                        }
                        let e = Error::Expected(v);
                        proof {
                            assert(after_carets(tv, j as int, adj as nat, line@.len() as int) == Err::<(int, nat), (int, int, ErrorView)>(
                                (tv[j as int].0, tv[j as int].1, ErrorView::Expected(caret_ws()))));
                        }
                        return LineResult::Fail(toks[j].start, toks[j].end, e);
                    },
                    Err(_) => {
                        let r = token_error(toks, j);
                        proof {
                            let x = tv[j as int].2->Err_0;
                            assert(after_carets(tv, j as int, adj as nat, line@.len() as int) == Err::<(int, nat), (int, int, ErrorView)>(
                                (tv[j as int].0, tv[j as int].1, x)));
                        }
                        return r;
                    },
                }
            }
            if adj >= lnum as usize {
                return LineResult::Fail(toks[0].start, toks[0].end, Error::LineDoesntExist);
            }
            finish(line, toks, j, lnum - adj as u32)
        },
        Token::Or => {
            match last {
                None => LineResult::Fail(toks[0].start, toks[0].end, Error::NoPrecedingAnnotation),
                Some(l) => finish(line, toks, 1, l),
            }
        },
        Token::Whitespace => finish(line, toks, 1, lnum),
        _ => {
            let v = vec![Token::Caret, Token::Or, Token::Whitespace];
            proof {
                assert(v@ =~= caret_or_ws());
            }
            let e = Error::Expected(v);
            LineResult::Fail(toks[0].start, toks[0].end, e)
        },
    }
}

/// A character of the Unicode property White_Space.
pub open spec fn is_white_space(c: char) -> bool {
    let n = c as u32;
    (0x9 <= n && n <= 0xD) || n == 0x20 || n == 0x85 || n == 0xA0 || n == 0x1680 || (0x2000 <= n && n <= 0x200A)
        || n == 0x2028 || n == 0x2029 || n == 0x202F || n == 0x205F || n == 0x3000
}

/// The end of the run of white space that starts at `i`.
pub open spec fn white_space_from(s: Seq<char>, i: int) -> int
    decreases s.len() - i,
{
    if 0 <= i < s.len() && is_white_space(s[i]) {
        white_space_from(s, i + 1)
    } else {
        i
    }
}

/// The start of the run of white space that ends at `j`.
pub open spec fn white_space_until(s: Seq<char>, j: int) -> int
    decreases j,
{
    if 0 < j <= s.len() && is_white_space(s[j - 1]) {
        white_space_until(s, j - 1)
    } else {
        j
    }
}

/// The text without its leading and trailing white space.
pub open spec fn trim_of(s: Seq<char>) -> Seq<char> {
    let a = white_space_from(s, 0);
    if a >= s.len() {
        seq![]
    } else {
        s.subrange(a, white_space_until(s, s.len() as int))
    }
}

/// Relies on `str::trim`: the text without its leading and trailing
/// characters of the Unicode property White_Space.
#[verifier::external_body]
fn trimmed(s: &str) -> (r: String)
    ensures
        r@ == trim_of(s@),
{
    s.trim().to_string()
}

/// Whether the first token of `t` is a kind.
pub fn starts_with_kind(t: &str) -> (r: bool)
    ensures
        r == (token_at(t@, 0) matches Some((_, Ok(Token::Kind(_))))),
{
    let mut lexer = Lexer::starting_at(chars_of(t), 0);
    match lexer.next() {
        Some(l) => match l.token {
            Ok(Token::Kind(_)) => true,
            _ => false,
        },
        None => false,
    }
}

/// The text after the continuation marker of `line`, trimmed.
pub open spec fn cont_rest(line: Seq<char>) -> Seq<char> {
    trim_of(line.subrange(first_at(line, cont_marker()) + 4, line.len() as int))
}

/// `line` continues the message of the annotation before it: it holds the
/// continuation marker, and what follows it does not start with a kind.
pub open spec fn continues(line: Seq<char>) -> bool {
    &&& exists|p: int| is_first(line, cont_marker(), p)
    &&& !(token_at(cont_rest(line), 0) matches Some((_, Ok(Token::Kind(_)))))
}

/// The first line at or after `k` that does not continue a message.
pub open spec fn cont_end(lines: Seq<Seq<char>>, k: int) -> int
    decreases lines.len() - k,
{
    if 0 <= k < lines.len() && continues(lines[k]) {
        cont_end(lines, k + 1)
    } else {
        k
    }
}

/// The message `m` with the continuations of `lines[from..to]`, each after a newline.
pub open spec fn join_conts(m: Seq<char>, lines: Seq<Seq<char>>, from: int, to: int) -> Seq<char>
    decreases to - from,
{
    if to <= from {
        m
    } else {
        join_conts(m, lines, from, to - 1) + seq!['\n'] + cont_rest(lines[to - 1])
    }
}

/// The position of the start of line `k` in the text.
pub open spec fn line_start(lines: Seq<Seq<char>>, k: int) -> int
    decreases k,
{
    if k <= 0 {
        0
    } else {
        line_start(lines, k - 1) + lines[k - 1].len() + 1
    }
}

/// One step of the parser.
pub enum Step {
    /// No more annotations
    End,
    /// A malformed annotation: its span, as positions in the text, and the error
    Fail(int, int, ErrorView),
    /// An annotation: the line it is about, its kind and its message
    Item(u32, Kind, Seq<char>),
}

/// The next annotation from line index `k` on, where `last` is the line of
/// the annotation on the line before; with the next line index and `last`.
pub open spec fn ann_next(lines: Seq<Seq<char>>, k: int, last: Option<u32>) -> (Step, int, Option<u32>)
    decreases lines.len() - k,
{
    if k < 0 || k >= lines.len() || k >= u32::MAX {
        (Step::End, k, last)
    } else {
        match line_parse(lines[k], (k + 1) as u32, last) {
            LineParse::NoMarker => ann_next(lines, k + 1, None),
            LineParse::Fail(a, b, e) => (Step::Fail(line_start(lines, k) + a, line_start(lines, k) + b, e), k + 1, last),
            LineParse::Found(ln, kind, m) => {
                let e = cont_end(lines, k + 1);
                (Step::Item(ln, kind, join_conts(m, lines, k + 1, e)), e, Some(ln))
            },
        }
    }
}

/// An annotation: line, kind and message.
pub type Item = (u32, Kind, Seq<char>);

/// All annotations from line index `k` on, or the first error.
pub open spec fn ann_items_from(lines: Seq<Seq<char>>, k: int, last: Option<u32>) -> Result<Seq<Item>, (int, int, ErrorView)>
    decreases lines.len() - k,
{
    let (st, nk, nl) = ann_next(lines, k, last);
    match st {
        Step::End => Ok(seq![]),
        Step::Fail(a, b, e) => Err((a, b, e)),
        Step::Item(ln, kind, t) => if nk <= k || k < 0 || nk > lines.len() {
            Ok(seq![])
        } else {
            match ann_items_from(lines, nk, nl) {
                Ok(rest) => Ok(seq![(ln, kind, t)] + rest),
                Err(x) => Err(x),
            }
        },
    }
}

/// The annotations of a source text, in order, or the first error.
pub open spec fn annotation_items(src: Seq<char>) -> Result<Seq<Item>, (int, int, ErrorView)> {
    ann_items_from(split_lines(src), 0, None)
}

/// The span, in bytes, of the characters `a..b` of `src`.
pub open spec fn byte_span(src: Seq<char>, a: int, b: int) -> Span {
    Span(sat(byte_len(src.subrange(0, a))), sat(byte_len(src.subrange(0, b))))
}

proof fn lemma_cont_end(lines: Seq<Seq<char>>, k: int)
    requires
        0 <= k <= lines.len(),
    ensures
        k <= cont_end(lines, k) <= lines.len(),
    decreases lines.len() - k,
{
    if k < lines.len() && continues(lines[k]) {
        lemma_cont_end(lines, k + 1);
    }
}

pub proof fn lemma_ann_next_advances(lines: Seq<Seq<char>>, k: int, last: Option<u32>)
    requires
        0 <= k <= lines.len(),
    ensures
        ann_next(lines, k, last).0 is Item ==> k < ann_next(lines, k, last).1 <= lines.len(),
    decreases lines.len() - k,
{
    if k < lines.len() && k < u32::MAX {
        lemma_ann_next_advances(lines, k + 1, None);
        lemma_cont_end(lines, k + 1);
    }
}

proof fn lemma_line_start(s: Seq<char>, r: Seq<(usize, usize)>, k: int)
    requires
        ranges_of(s, r),
        0 <= k < r.len(),
    ensures
        r[k].0 == line_start(split_lines(s), k),
    decreases k,
{
    lemma_range_at(s, r, k);
    if k > 0 {
        lemma_range_at(s, r, k - 1);
        lemma_line_start(s, r, k - 1);
    }
}

/// A parser for the annotations of a source text.
pub struct Parser {
    input: Vec<char>,
    lines: Vec<(usize, usize)>,
    next_line: usize,
    last_match: Option<u32>,
    halted: bool,
}

impl Parser {
    /// The source text.
    pub closed spec fn input(&self) -> Seq<char> {
        self.input@
    }

    /// The index of the next line to read.
    pub closed spec fn line_index(&self) -> int {
        self.next_line as int
    }

    /// The line of the annotation on the line before, if that line had one.
    pub closed spec fn last_match(&self) -> Option<u32> {
        self.last_match
    }

    /// Whether the parser stopped on an error.
    pub closed spec fn halted(&self) -> bool {
        self.halted
    }

    /// The parser's fields agree.
    pub closed spec fn wf(&self) -> bool {
        &&& ranges_of(self.input@, self.lines@)
        &&& self.next_line <= self.lines@.len()
    }

    /// Creates a parser for this source text.
    pub fn new(source: &str) -> (r: Parser)
        ensures
            r.wf(),
            r.input() == source@,
            r.line_index() == 0,
            r.last_match() is None,
            !r.halted(),
    {
        let input = chars_of(source);
        let lines = line_ranges(&input);
        proof {
            reveal(ranges_of);
        }
        Parser { input, lines, next_line: 0, last_match: None, halted: false }
    }

    /// The characters of line `k`.
    fn line_chars(&self, k: usize) -> (r: Vec<char>)
        requires
            self.wf(),
            k < self.lines@.len(),
        ensures
            r@ == split_lines(self.input@)[k as int],
    {
        proof {
            lemma_range_at(self.input@, self.lines@, k as int);
        }
        let (a, b) = self.lines[k];
        let mut r: Vec<char> = Vec::new();
        let mut i: usize = a;
        while i < b
            invariant
                a <= i <= b <= self.input@.len(),
                r@ == self.input@.subrange(a as int, i as int),
            decreases b - i,
        {
            r.push(self.input[i]);
            i = i + 1;
        }
        r
    }

    /// Whether line `q` continues a message, and its continuation text.
    fn continuation(&self, q: usize) -> (r: (bool, Vec<char>))
        requires
            self.wf(),
            q < self.lines@.len(),
        ensures
            r.0 == continues(split_lines(self.input@)[q as int]),
            r.0 ==> r.1@ == cont_rest(split_lines(self.input@)[q as int]),
    {
        let line = self.line_chars(q);
        let m = chars_of("//~|");
        let found = find_in(&line, 0, line.len(), &m, 0, m.len());
        proof {
            assert(line@.subrange(0, line@.len() as int) =~= line@);
            assert(m@.subrange(0, m@.len() as int) =~= m@);
            reveal_strlit("//~|");
        }
        let p = match found {
            None => {
                proof {
                    assert forall|p: int| !is_first(line@, cont_marker(), p) by {
                        if is_first(line@, cont_marker(), p) {
                            assert(line@.subrange(p, p + cont_marker().len()) == cont_marker());
                        }
                    }
                }
                return (false, Vec::new());
            },
            Some(p) => p,
        };
        proof {
            assert(is_first(line@, cont_marker(), p as int));
            let f = first_at(line@, cont_marker());
            assert(is_first(line@, cont_marker(), f));
            if f < p {
                assert(!occurs_at(line@, cont_marker(), f));
            } else if f > p {
                assert(!occurs_at(line@, cont_marker(), p as int));
            }
        }
        let mut rest: Vec<char> = Vec::new();
        let mut i: usize = p + 4;
        while i < line.len()
            invariant
                p + 4 <= i <= line@.len(),
                rest@ == line@.subrange(p + 4, i as int),
            decreases line@.len() - i,
        {
            rest.push(line[i]);
            i = i + 1;
        }
        let rest_str = string_of(rest.as_slice());
        let t = trimmed(rest_str.as_str());
        let is_kind = starts_with_kind(t.as_str());
        (!is_kind, chars_of(t.as_str()))
    }

    /// The next annotation, or the first error, with its span in bytes.
    pub fn next(&mut self) -> (r: Option<Result<(Line, Kind, String), (Span, Error)>>)
        requires
            old(self).wf(),
        ensures
            final(self).wf(),
            final(self).input() == old(self).input(),
            0 <= old(self).line_index() <= split_lines(old(self).input()).len(),
            0 <= final(self).line_index() <= split_lines(final(self).input()).len(),
            old(self).halted() ==> r is None,
            !old(self).halted() ==> ({
                let (st, nk, nl) = ann_next(split_lines(old(self).input()), old(self).line_index(), old(self).last_match());
                &&& final(self).line_index() == nk
                &&& final(self).last_match() == nl
                &&& match st {
                    Step::End => r is None,
                    Step::Fail(a, b, e) => r matches Some(Err((span, err))) && span == byte_span(old(self).input(), a, b)
                        && error_view(err) == e && final(self).halted(),
                    Step::Item(ln, kind, t) => r matches Some(Ok((line, k, s))) && line.0 == ln && k == kind && s@ == t
                        && !final(self).halted(),
                }
            }),
    {
        proof {
            reveal(ranges_of);
        }
        if self.halted {
            return None;
        }
        let ghost lines = split_lines(self.input@);
        let ghost k0 = self.next_line as int;
        let ghost l0 = self.last_match;
        while self.next_line < self.lines.len() && self.next_line < u32::MAX as usize
            invariant
                self.wf(),
                !self.halted,
                !old(self).halted(),
                lines == split_lines(self.input@),
                self.input@ == old(self).input(),
                k0 == old(self).line_index(),
                l0 == old(self).last_match(),
                ann_next(lines, k0, l0) == ann_next(lines, self.next_line as int, self.last_match),
            decreases self.lines@.len() - self.next_line,
        {
            let k = self.next_line;
            let line = self.line_chars(k);
            proof {
                lemma_range_at(self.input@, self.lines@, k as int);
                lemma_line_start(self.input@, self.lines@, k as int);
            }
            match parse_line(&line, (k + 1) as u32, self.last_match) {
                LineResult::NoMarker => {
                    self.last_match = None;
                    self.next_line = k + 1;
                },
                LineResult::Fail(a, b, e) => {
                    self.halted = true;
                    self.next_line = k + 1;
                    let ls = self.lines[k].0;
                    let span = Span(byte_pos(&self.input, ls + a), byte_pos(&self.input, ls + b));
                    return Some(Err((span, e)));
                },
                LineResult::Found(l, kind, st) => {
                    let mut msg: Vec<char> = Vec::new();
                    let mut i: usize = st;
                    while i < line.len()
                        invariant
                            st <= i <= line@.len(),
                            msg@ == line@.subrange(st as int, i as int),
                        decreases line@.len() - i,
                    {
                        msg.push(line[i]);
                        i = i + 1;
                    }
                    let ghost m0 = msg@;
                    let mut q: usize = k + 1;
                    loop
                        invariant_except_break
                            cont_end(lines, k + 1) == cont_end(lines, q as int),
                        invariant
                            self.wf(),
                            lines == split_lines(self.input@),
                            k < q <= self.lines@.len(),
                            msg@ == join_conts(m0, lines, k + 1, q as int),
                        ensures
                            cont_end(lines, k + 1) == q,
                        decreases self.lines@.len() - q,
                    {
                        proof {
                            reveal(ranges_of);
                        }
                        if q >= self.lines.len() {
                            break;
                        }
                        let (more, rest) = self.continuation(q);
                        if !more {
                            break;
                        }
                        msg.push('\n');
                        crate::text::push_chars(&mut msg, &rest);
                        q = q + 1;
                    }
                    self.next_line = q;
                    self.last_match = Some(l.0);
                    return Some(Ok((l, kind, string_of(msg.as_slice()))));
                },
            }
        }
        None
    }
}

/// How a token is shown in error messages.
pub open spec fn token_text(t: Token) -> Seq<char> {
    match t {
        Token::Caret => "^"@,
        Token::Colon => ":"@,
        Token::Kind(_) => "<kind>"@,
        Token::Or => "|"@,
        Token::Whitespace => " "@,
    }
}

/// "`a`, `b`, `c`" for the tokens from index `i` on, each after a comma.
pub open spec fn more_tokens(toks: Seq<Token>, n: int) -> Seq<char>
    decreases n,
{
    if n <= 1 {
        seq![]
    } else {
        more_tokens(toks, n - 1) + ", `"@ + token_text(toks[n - 1]) + "`"@
    }
}

/// The message of a parse error.
pub open spec fn error_message(e: ErrorView) -> Seq<char> {
    match e {
        ErrorView::Expected(toks) => if toks.len() == 1 {
            "expected token `"@ + token_text(toks[0]) + "`"@
        } else if toks.len() == 0 {
            "expected one of "@
        } else {
            "expected one of "@ + "`"@ + token_text(toks[0]) + "`"@ + more_tokens(toks, toks.len() as int)
        },
        ErrorView::LineDoesntExist => "adjusted line doesn't exist"@,
        ErrorView::NoPrecedingAnnotation => "no annotation in previous line"@,
        ErrorView::UnknownKind(k) => "unknown kind `"@ + k + "`"@,
        ErrorView::UnknownStartOfToken(c) => "unknown start of token `"@ + seq![c] + "`"@,
    }
}

impl Error {
    /// The message of this error.
    pub fn message(&self) -> (r: String)
        ensures
            r@ == error_message(error_view(*self)),
    {
        let mut buf: Vec<char> = Vec::new();
        match self {
            Error::Expected(toks) => {
                if toks.len() == 1 {
                    push_str(&mut buf, "expected token `");
                    push_str(&mut buf, toks[0].text());
                    push_str(&mut buf, "`");
                } else {
                    push_str(&mut buf, "expected one of ");
                    if toks.len() > 0 {
                        push_str(&mut buf, "`");
                        push_str(&mut buf, toks[0].text());
                        push_str(&mut buf, "`");
                        let mut i: usize = 1;
                        proof {
                            assert(buf@ =~= "expected one of "@ + "`"@ + token_text(toks@[0]) + "`"@ + more_tokens(toks@, 1));
                        }
                        while i < toks.len()
                            invariant
                                1 <= i <= toks@.len(),
                                buf@ == "expected one of "@ + "`"@ + token_text(toks@[0]) + "`"@ + more_tokens(toks@, i as int),
                            decreases toks@.len() - i,
                        {
                            push_str(&mut buf, ", `");
                            push_str(&mut buf, toks[i].text());
                            push_str(&mut buf, "`");
                            proof {
                                assert(buf@ =~= "expected one of "@ + "`"@ + token_text(toks@[0]) + "`"@ + more_tokens(toks@, i + 1));
                            }
                            i = i + 1;
                        }
                    }
                }
            },
            Error::LineDoesntExist => push_str(&mut buf, "adjusted line doesn't exist"),
            Error::NoPrecedingAnnotation => push_str(&mut buf, "no annotation in previous line"),
            Error::UnknownKind(k) => {
                push_str(&mut buf, "unknown kind `");
                push_str(&mut buf, k.as_str());
                push_str(&mut buf, "`");
            },
            Error::UnknownStartOfToken(c) => {
                push_str(&mut buf, "unknown start of token `");
                buf.push(*c);
                push_str(&mut buf, "`");
            },
        }
        proof {
            assert(buf@ =~= error_message(error_view(*self)));
        }
        string_of(buf.as_slice())
    }
}

/// The displayed width of a text in columns, as `unicode_width` measures it.
pub uninterp spec fn width_of(s: Seq<char>) -> usize;

/// Relies on `unicode_width::UnicodeWidthStr::width`: the displayed width of
/// the text in columns.
#[verifier::external_body]
fn text_width(s: &str) -> (r: usize)
    ensures
        r == width_of(s@),
{
    unicode_width::UnicodeWidthStr::width(s)
}

/// The line holding byte `start`, searching from line `k`, which starts at
/// byte `sol`: its index and the byte at which it starts.
pub open spec fn line_of_byte(lines: Seq<Seq<char>>, start: nat, k: int, sol: nat) -> Option<(int, nat)>
    decreases lines.len() - k,
{
    if k < 0 || k >= lines.len() {
        None
    } else if sol <= start && start <= sol + byte_len(lines[k]) {
        Some((k, sol))
    } else {
        line_of_byte(lines, start, k + 1, sol + byte_len(lines[k]) + 1)
    }
}

/// The first character index of `line` at or after `c` whose byte position
/// is at least `n`, or the length of `line`.
pub open spec fn char_at_byte_from(line: Seq<char>, n: nat, c: int) -> int
    decreases line.len() - c,
{
    if c < 0 || c >= line.len() || byte_len(line.subrange(0, c)) >= n {
        c
    } else {
        char_at_byte_from(line, n, c + 1)
    }
}

/// `a - b`, or zero.
pub open spec fn sub_sat(a: nat, b: nat) -> nat {
    if a >= b {
        (a - b) as nat
    } else {
        0
    }
}

/// `n` copies of `c`.
pub open spec fn repeat(c: char, n: nat) -> Seq<char> {
    Seq::new(n, |i: int| c)
}

/// The sum of `w`.
pub open spec fn sum(w: Seq<usize>) -> nat
    decreases w.len(),
{
    if w.len() == 0 {
        0
    } else {
        sum(w.drop_last()) + w.last() as nat
    }
}

/// The mark under a span: a space for each column before it, a caret, and a
/// tilde for each further column of the span.
pub open spec fn mark(before: Seq<usize>, span_width: usize) -> Seq<char> {
    repeat(' ', sat(sum(before)) as nat) + "^"@ + repeat('~', sub_sat(span_width as nat, 1))
}

/// The mark under a span, given the widths of what precedes it on the shown
/// line and the width of the span.
pub fn underline(before: &Vec<usize>, span_width: usize) -> (r: Vec<char>)
    ensures
        r@ == mark(before@, span_width),
{
    let mut total: u128 = 0;
    let mut i: usize = 0;
    while i < before.len()
        invariant
            i <= before@.len(),
            total == sum(before@.subrange(0, i as int)),
            total <= i * (usize::MAX as nat),
        decreases before@.len() - i,
    {
        proof {
            assert(before@.subrange(0, i + 1).drop_last() =~= before@.subrange(0, i as int));
            assert((i + 1) * (usize::MAX as nat) == i * (usize::MAX as nat) + usize::MAX) by (nonlinear_arith);
        }
        total = total + before[i] as u128;
        i = i + 1;
    }
    proof {
        assert(before@.subrange(0, before@.len() as int) =~= before@);
    }
    let ws: usize = if total > usize::MAX as u128 { usize::MAX } else { total as usize };
    let mut buf: Vec<char> = Vec::new();
    push_repeat(&mut buf, ' ', ws);
    push_str(&mut buf, "^");
    let tl: usize = if span_width >= 1 { span_width - 1 } else { 0 };
    push_repeat(&mut buf, '~', tl);
    buf
}

/// A parse error, shown as the compiler shows its errors: the location, the
/// message, the source line, and a mark under the span.
pub open spec fn render_error(path: Seq<char>, src: Seq<char>, span: Span, e: ErrorView) -> Seq<char> {
    let lines = split_lines(src);
    match line_of_byte(lines, span.0 as nat, 0, 0) {
        None => path + ": error: "@ + error_message(e),
        Some((k, sol)) => {
            let line = lines[k];
            let s = sub_sat(span.0 as nat, sol);
            let e2 = sub_sat(span.1 as nat, sol);
            let cs = char_at_byte_from(line, s, 0);
            let ce0 = char_at_byte_from(line, e2, 0);
            let ce = if ce0 < cs {
                cs
            } else {
                ce0
            };
            let ln = decimal((k + 1) as nat);
            let widths = seq![width_of(path), width_of(":"@), width_of(ln), width_of(" "@), width_of(line.subrange(0, cs))];
            path + ":"@ + ln + ":"@ + decimal(s) + ": "@ + ln + ":"@ + decimal(e2) + " error: "@ + error_message(e) + "\n"@
                + path + ":"@ + ln + " "@ + line + "\n"@ + mark(widths, width_of(line.subrange(cs, ce)))
        },
    }
}

/// Number of bytes of `v[from..to]` in UTF-8.
fn byte_count(v: &Vec<char>, from: usize, to: usize) -> (r: u128)
    requires
        from <= to <= v@.len(),
    ensures
        r == byte_len(v@.subrange(from as int, to as int)),
{
    let mut n: u128 = 0;
    let mut i: usize = from;
    while i < to
        invariant
            from <= i <= to <= v@.len(),
            n == byte_len(v@.subrange(from as int, i as int)),
            n <= 4 * (i - from),
        decreases to - i,
    {
        proof {
            assert(v@.subrange(from as int, i + 1) =~= v@.subrange(from as int, i as int).push(v@[i as int]));
            lemma_byte_len_push(v@.subrange(from as int, i as int), v@[i as int]);
        }
        n = n + utf8_len(v[i]) as u128;
        i = i + 1;
    }
    n
}

/// The first character index of `line` whose byte position is at least `n`,
/// or the length of `line`.
fn char_at_byte(line: &Vec<char>, n: u128) -> (r: usize)
    ensures
        r == char_at_byte_from(line@, n as nat, 0),
        r <= line@.len(),
{
    let mut c: usize = 0;
    let mut b: u128 = 0;
    while c < line.len() && b < n
        invariant
            c <= line@.len(),
            b == byte_len(line@.subrange(0, c as int)),
            b <= 4 * c,
            char_at_byte_from(line@, n as nat, 0) == char_at_byte_from(line@, n as nat, c as int),
        decreases line@.len() - c,
    {
        proof {
            assert(line@.subrange(0, c + 1) =~= line@.subrange(0, c as int).push(line@[c as int]));
            lemma_byte_len_push(line@.subrange(0, c as int), line@[c as int]);
        }
        b = b + utf8_len(line[c]) as u128;
        c = c + 1;
    }
    c
}

/// Appends `n` copies of `c`.
fn push_repeat(buf: &mut Vec<char>, c: char, n: usize)
    ensures
        final(buf)@ == old(buf)@ + repeat(c, n as nat),
{
    let mut i: usize = 0;
    while i < n
        invariant
            i <= n,
            buf@ == old(buf)@ + repeat(c, i as nat),
        decreases n - i,
    {
        buf.push(c);
        proof {
            assert(buf@ =~= old(buf)@ + repeat(c, (i + 1) as nat));
        }
        i = i + 1;
    }
}

/// Formats a parse error into a human readable message.
pub fn format_error(path: &str, source: &str, span: Span, e: &Error) -> (r: String)
    ensures
        r@ == render_error(path@, source@, span, error_view(*e)),
{
    let src = chars_of(source);
    let lines = line_ranges(&src);
    let ghost ls = split_lines(source@);
    proof {
        reveal(ranges_of);
    }
    let start = span.0 as u128;
    let n = src.len();
    assert(n == src@.len());
    let mut k: usize = 0;
    proof {
        if lines@.len() > 0 {
            lemma_range_at(src@, lines@, 0);
        }
    }
    let mut sol: u128 = 0;
    while k < lines.len()
        invariant
            src@ == source@,
            ls == split_lines(src@),
            ranges_of(src@, lines@),
            k <= lines@.len(),
            src@.len() <= usize::MAX,
            start == span.0 as u128,
            sol <= 5 * (if k < lines@.len() { lines@[k as int].0 as int } else { src@.len() + 1int }),
            line_of_byte(ls, start as nat, 0, 0) == line_of_byte(ls, start as nat, k as int, sol as nat),
        decreases lines@.len() - k,
    {
        proof {
            lemma_range_at(src@, lines@, k as int);
        }
        let (a, b) = lines[k];
        let len = byte_count(&src, a, b);
        proof {
            lemma_byte_len_le(src@.subrange(a as int, b as int));
        }
        if sol <= start && start <= sol + len {
            let line = {
                let mut v: Vec<char> = Vec::new();
                let mut i: usize = a;
                while i < b
                    invariant
                        a <= i <= b <= src@.len(),
                        v@ == src@.subrange(a as int, i as int),
                    decreases b - i,
                {
                    v.push(src[i]);
                    i = i + 1;
                }
                v
            };
            let s: usize = span.0 - (sol as usize);
            let e2: usize = if span.1 as u128 >= sol { span.1 - (sol as usize) } else { 0 };
            let cs = char_at_byte(&line, s as u128);
            let ce0 = char_at_byte(&line, e2 as u128);
            let ce = if ce0 < cs { cs } else { ce0 };
            let ln = decimal_chars(k + 1);
            let ln_str = string_of(ln.as_slice());
            let before = crate::text::string_of_range(&line, 0, cs);
            let under = crate::text::string_of_range(&line, cs, ce);
            let widths = vec![
                text_width(path),
                text_width(":"),
                text_width(ln_str.as_str()),
                text_width(" "),
                text_width(before.as_str()),
            ];
            let marks = underline(&widths, text_width(under.as_str()));
            let mut buf: Vec<char> = Vec::new();
            push_str(&mut buf, path);
            push_str(&mut buf, ":");
            push_chars(&mut buf, &ln);
            push_str(&mut buf, ":");
            push_chars(&mut buf, &decimal_chars(s));
            push_str(&mut buf, ": ");
            push_chars(&mut buf, &ln);
            push_str(&mut buf, ":");
            push_chars(&mut buf, &decimal_chars(e2));
            push_str(&mut buf, " error: ");
            let m = e.message();
            push_str(&mut buf, m.as_str());
            push_str(&mut buf, "\n");
            push_str(&mut buf, path);
            push_str(&mut buf, ":");
            push_chars(&mut buf, &ln);
            push_str(&mut buf, " ");
            push_chars(&mut buf, &line);
            push_str(&mut buf, "\n");
            push_chars(&mut buf, &marks);
            proof {
                assert(line@ == ls[k as int]);
                assert(line_of_byte(ls, start as nat, k as int, sol as nat) == Some((k as int, sol as nat)));
                assert(buf@ =~= render_error(path@, source@, span, error_view(*e)));
            }
            return string_of(buf.as_slice());
        }
        proof {
            lemma_byte_len_le(src@.subrange(a as int, b as int));
            if k + 1 < lines@.len() {
                lemma_range_at(src@, lines@, k + 1);
            }
        }
        sol = sol + len + 1;
        k = k + 1;
    }
    let mut buf: Vec<char> = Vec::new();
    push_str(&mut buf, path);
    push_str(&mut buf, ": error: ");
    let m = e.message();
    push_str(&mut buf, m.as_str());
    proof {
        assert(buf@ =~= render_error(path@, source@, span, error_view(*e)));
    }
    string_of(buf.as_slice())
}

proof fn lemma_lines_are_pieces(s: Seq<char>, i: int)
    requires
        0 <= i,
    ensures
        forall|k: int| 0 <= k < lines_from(s, i).len() ==> exists|a: int, b: int| 0 <= a <= b <= s.len()
            && #[trigger] lines_from(s, i)[k] == s.subrange(a, b),
    decreases s.len() - i,
{
    if i < s.len() {
        lemma_line_end_bounds(s, i);
        let e = line_end(s, i);
        if e < s.len() {
            lemma_lines_are_pieces(s, e + 1);
        }
        assert forall|k: int| 0 <= k < lines_from(s, i).len() implies exists|a: int, b: int| 0 <= a <= b <= s.len()
            && #[trigger] lines_from(s, i)[k] == s.subrange(a, b) by {
            if k == 0 {
                assert(lines_from(s, i)[0] == s.subrange(i, e));
            } else {
                assert(lines_from(s, i)[k] == lines_from(s, e + 1)[k - 1]);
            }
        }
    }
}

proof fn lemma_piece_has_no_marker(s: Seq<char>, a: int, b: int)
    requires
        0 <= a <= b <= s.len(),
        !contains(s, marker()),
    ensures
        !(exists|p: int| is_first(s.subrange(a, b), marker(), p)),
{
    let line = s.subrange(a, b);
    if exists|p: int| is_first(line, marker(), p) {
        let p = choose|p: int| is_first(line, marker(), p);
        assert(s.subrange(a + p, a + p + marker().len()) =~= line.subrange(p, p + marker().len()));
    }
}

proof fn lemma_no_marker_end(lines: Seq<Seq<char>>, k: int, last: Option<u32>)
    requires
        0 <= k,
        forall|q: int| k <= q < lines.len() ==> !(exists|p: int| is_first(#[trigger] lines[q], marker(), p)),
    ensures
        ann_next(lines, k, last).0 is End,
        ann_items_from(lines, k, last) == Ok::<Seq<Item>, (int, int, ErrorView)>(seq![]),
    decreases lines.len() - k,
{
    if k < lines.len() && k < u32::MAX {
        assert(!(exists|p: int| is_first(lines[k], marker(), p)));
        lemma_no_marker_end(lines, k + 1, None);
    }
}

/// A source text in which the marker `//~` never occurs has no annotations:
/// its annotation map is empty.
pub proof fn law_no_marker_no_annotations(src: Seq<char>, m: Seq<(Line, Annotations)>)
    requires
        !contains(src, marker()),
        annotations_map_of(m, seq![]),
    ensures
        annotation_items(src) == Ok::<Seq<Item>, (int, int, ErrorView)>(seq![]),
        m.len() == 0,
{
    let lines = split_lines(src);
    lemma_lines_are_pieces(src, 0);
    assert forall|q: int| 0 <= q < lines.len() implies !(exists|p: int| is_first(#[trigger] lines[q], marker(), p)) by {
        let (a, b) = choose|a: int, b: int| 0 <= a <= b <= src.len() && lines_from(src, 0)[q] == src.subrange(a, b);
        lemma_piece_has_no_marker(src, a, b);
    }
    lemma_no_marker_end(lines, 0, None);
    if m.len() > 0 {
        assert(crate::line_map::has_line(seq![], m[0].0.0));
    }
}

} // verus!
