//! A parser for compiler stderr.
//!
//! Every compiler message has the form
//!
//! ```text
//! <path>:<line>:<col> <line>:<col> <kind>: <message>
//! ```
//!
//! where `<message>` may span several lines. Lines of the form
//! `<path>:<line> <source>` show a span of the source and are skipped. The
//! output ends with a line `error: aborting due to <n> previous errors`.

use vstd::prelude::*;

use crate::rustc::lexer::{eats, token_at, Lexer, Token};
use crate::text::{chars_of, lemma_range_at, line_ranges, matches_at, ranges_of, split_lines, starts_with, string_of_range};
use crate::{Error, Kind, Line};

verus! {

/// What the part of a line after the path is.
pub enum Header {
    /// A message of this line and kind, whose text starts at this position
    Message(u32, Kind, int),
    /// A span display
    SpanDisplay,
    /// Neither
    Malformed,
}

/// The position after a run of tokens of the variants of `toks`, from `i` on.
pub open spec fn eats_all(s: Seq<char>, i: int, toks: Seq<Token>) -> Option<int>
    decreases toks.len(),
{
    if toks.len() == 0 {
        Some(i)
    } else {
        match eats(s, i, toks[0]) {
            Some(p) => eats_all(s, p, toks.drop_first()),
            None => None,
        }
    }
}

/// `<col> <line>:<col> `
pub open spec fn span_tokens() -> Seq<Token> {
    seq![
        Token::Number(0),
        Token::Whitespace,
        Token::Number(0),
        Token::Colon,
        Token::Number(0),
        Token::Whitespace,
    ]
}

/// `: `
pub open spec fn colon_ws() -> Seq<Token> {
    seq![Token::Colon, Token::Whitespace]
}

/// The header grammar, on the part of a line after the path.
pub open spec fn header_spec(s: Seq<char>) -> Header {
    match eats(s, 0, Token::Colon) {
        None => Header::Malformed,
        Some(p1) => match token_at(s, p1) {
            Some(Ok((Token::Number(n), p2))) => match token_at(s, p2) {
                Some(Ok((Token::Whitespace, _))) => Header::SpanDisplay,
                Some(Ok((Token::Colon, p3))) => match eats_all(s, p3, span_tokens()) {
                    Some(p10) => match token_at(s, p10) {
                        Some(Ok((Token::Kind(k), p11))) => match eats_all(s, p11, colon_ws()) {
                            Some(p13) => Header::Message(n, k, p13),
                            None => Header::Malformed,
                        },
                        _ => Header::Malformed,
                    },
                    None => Header::Malformed,
                },
                _ => Header::Malformed,
            },
            _ => Header::Malformed,
        },
    }
}

/// The line that ends every compiler run that failed.
pub open spec fn summary_prefix() -> Seq<char> {
    "error: aborting due to "@
}

/// A line that ends a message body: another header or span display, or the
/// summary line.
pub open spec fn ends_body(line: Seq<char>, path: Seq<char>) -> bool {
    starts_with(line, path) || starts_with(line, summary_prefix())
}

/// The first line at or after `k` that ends a message body, or the number of lines.
pub open spec fn body_end(lines: Seq<Seq<char>>, path: Seq<char>, k: int) -> int
    decreases lines.len() - k,
{
    if k < 0 || k >= lines.len() || ends_body(lines[k], path) {
        k
    } else {
        body_end(lines, path, k + 1)
    }
}

/// `first`, then each of `lines[from..to]` after a newline.
pub open spec fn join_lines(first: Seq<char>, lines: Seq<Seq<char>>, from: int, to: int) -> Seq<char>
    decreases to - from,
{
    if to <= from {
        first
    } else {
        join_lines(first, lines, from, to - 1) + seq!['\n'] + lines[to - 1]
    }
}

/// A message: line, kind and text.
pub type Item = (u32, Kind, Seq<char>);

/// The next message from line `k` on, or the first malformed header line, and
/// the line after it.
pub open spec fn next_item(lines: Seq<Seq<char>>, path: Seq<char>, k: int) -> (Option<Result<Item, Seq<char>>>, int)
    decreases lines.len() - k,
{
    if k < 0 || k >= lines.len() {
        (None, k)
    } else if !starts_with(lines[k], path) {
        next_item(lines, path, k + 1)
    } else {
        match header_spec(lines[k].subrange(path.len() as int, lines[k].len() as int)) {
            Header::Malformed => (Some(Err(lines[k])), k + 1),
            Header::SpanDisplay => next_item(lines, path, k + 1),
            Header::Message(n, kind, off) => {
                let e = body_end(lines, path, k + 1);
                let first = lines[k].subrange(path.len() + off, lines[k].len() as int);
                (Some(Ok((n, kind, join_lines(first, lines, k + 1, e)))), e)
            },
        }
    }
}

/// All messages from line `k` on, or the first malformed header line.
pub open spec fn items_from(lines: Seq<Seq<char>>, path: Seq<char>, k: int) -> Result<Seq<Item>, Seq<char>>
    decreases lines.len() - k,
{
    let (item, nk) = next_item(lines, path, k);
    match item {
        None => Ok(seq![]),
        Some(Err(l)) => Err(l),
        Some(Ok(x)) => if nk <= k || k < 0 || nk > lines.len() {
            Ok(seq![])
        } else {
            match items_from(lines, path, nk) {
                Ok(rest) => Ok(seq![x] + rest),
                Err(l) => Err(l),
            }
        },
    }
}

/// The messages of compiler stderr `stderr` about the file `path`.
pub open spec fn stderr_items(stderr: Seq<char>, path: Seq<char>) -> Result<Seq<Item>, Seq<char>> {
    items_from(split_lines(stderr), path, 0)
}

proof fn lemma_body_end(lines: Seq<Seq<char>>, path: Seq<char>, k: int)
    requires
        0 <= k <= lines.len(),
    ensures
        k <= body_end(lines, path, k) <= lines.len(),
        forall|q: int| k <= q < body_end(lines, path, k) ==> !ends_body(#[trigger] lines[q], path),
        body_end(lines, path, k) < lines.len() ==> ends_body(lines[body_end(lines, path, k)], path),
    decreases lines.len() - k,
{
    if k < lines.len() && !ends_body(lines[k], path) {
        lemma_body_end(lines, path, k + 1);
    }
}

pub proof fn lemma_next_item_advances(lines: Seq<Seq<char>>, path: Seq<char>, k: int)
    requires
        0 <= k <= lines.len(),
    ensures
        next_item(lines, path, k).0 is Some ==> k < next_item(lines, path, k).1 <= lines.len(),
    decreases lines.len() - k,
{
    if k < lines.len() {
        lemma_next_item_advances(lines, path, k + 1);
        lemma_body_end(lines, path, k + 1);
    }
}

/// Parses the header of a line, from just after the path.
pub fn parse_header(rest: Vec<char>) -> (r: (Option<(Line, Kind)>, bool, usize))
    ensures
        r.2 <= rest@.len(),
        match header_spec(rest@) {
            Header::Message(n, k, p) => r.0 == Some((Line(n), k)) && r.2 == p,
            Header::SpanDisplay => r.0 is None && r.1,
            Header::Malformed => r.0 is None && !r.1,
        },
{
    let ghost s = rest@;
    let mut lexer = Lexer::from_chars(rest);
    if lexer.eat(Token::Colon).is_err() {
        return (None, false, 0);
    }
    let n = match lexer.next() {
        Some(Ok(Token::Number(n))) => n,
        _ => {
            return (None, false, 0);
        },
    };
    match lexer.next() {
        Some(Ok(Token::Colon)) => {},
        Some(Ok(Token::Whitespace)) => {
            return (None, true, 0);
        },
        _ => {
            return (None, false, 0);
        },
    }
    let ghost p3 = lexer.pos();
    let span = vec![
        Token::Number(0),
        Token::Whitespace,
        Token::Number(0),
        Token::Colon,
        Token::Number(0),
        Token::Whitespace,
    ];
    proof {
        assert(span@ == span_tokens());
    }
    if eat_all(&mut lexer, &span).is_err() {
        return (None, false, 0);
    }
    let kind = match lexer.next() {
        Some(Ok(Token::Kind(kind))) => kind,
        _ => {
            return (None, false, 0);
        },
    };
    let tail = vec![Token::Colon, Token::Whitespace];
    proof {
        assert(tail@ == colon_ws());
    }
    if eat_all(&mut lexer, &tail).is_err() {
        return (None, false, 0);
    }
    (Some((Line(n), kind)), false, lexer.char_pos())
}

/// Eats a run of tokens of the variants of `toks`.
fn eat_all(lexer: &mut Lexer, toks: &Vec<Token>) -> (r: Result<(), ()>)
    requires
        old(lexer).wf(),
        !old(lexer).halted(),
    ensures
        final(lexer).wf(),
        final(lexer).chars() == old(lexer).chars(),
        r is Ok <==> eats_all(old(lexer).chars(), old(lexer).pos(), toks@) is Some,
        r is Ok ==> !final(lexer).halted() && final(lexer).pos() == eats_all(old(lexer).chars(), old(lexer).pos(), toks@)->0,
{
    let ghost s = lexer.chars();
    let ghost start = lexer.pos();
    let mut k: usize = 0;
    proof {
        assert(toks@.subrange(0, toks@.len() as int) =~= toks@);
    }
    while k < toks.len()
        invariant
            lexer.wf(),
            !lexer.halted(),
            lexer.chars() == s,
            s == old(lexer).chars(),
            start == old(lexer).pos(),
            k <= toks@.len(),
            eats_all(s, start, toks@) == eats_all(s, lexer.pos(), toks@.subrange(k as int, toks@.len() as int)),
        decreases toks@.len() - k,
    {
        let ghost pos = lexer.pos();
        let ghost rest = toks@.subrange(k as int, toks@.len() as int);
        proof {
            assert(rest[0] == toks@[k as int]);
            assert(rest.drop_first() =~= toks@.subrange(k + 1, toks@.len() as int));
        }
        if lexer.eat(toks[k]).is_err() {
            return Err(());
        }
        k = k + 1;
    }
    proof {
        assert(toks@.subrange(k as int, toks@.len() as int) =~= Seq::<Token>::empty());
    }
    Ok(())
}

/// Compiler stderr parser: yields the messages about one file, in order.
pub struct Parser {
    input: Vec<char>,
    lines: Vec<(usize, usize)>,
    path: Vec<char>,
    summary: Vec<char>,
    next_line: usize,
}

impl Parser {
    /// The stderr text.
    pub closed spec fn input(&self) -> Seq<char> {
        self.input@
    }

    /// The path of the file.
    pub closed spec fn path(&self) -> Seq<char> {
        self.path@
    }

    /// The index of the next line to read.
    pub closed spec fn line_index(&self) -> int {
        self.next_line as int
    }

    /// The parser's fields agree.
    pub closed spec fn wf(&self) -> bool {
        &&& ranges_of(self.input@, self.lines@)
        &&& self.summary@ == summary_prefix()
        &&& self.next_line <= self.lines@.len()
    }

    /// Creates a new parser for the compiler stderr.
    pub fn new(stderr: &str, path: &str) -> (r: Parser)
        ensures
            r.wf(),
            0 <= r.line_index() <= split_lines(r.input()).len(),
            r.input() == stderr@,
            r.path() == path@,
            r.line_index() == 0,
    {
        let input = chars_of(stderr);
        let lines = line_ranges(&input);
        proof {
            reveal(ranges_of);
        }
        Parser { input, lines, path: chars_of(path), summary: chars_of("error: aborting due to "), next_line: 0 }
    }

    /// Does line `q` end a message body?
    fn ends_body_at(&self, q: usize) -> (r: bool)
        requires
            self.wf(),
            q < self.lines@.len(),
        ensures
            r == ends_body(split_lines(self.input@)[q as int], self.path@),
    {
        let (a, b) = self.lines[q];
        let ghost line = split_lines(self.input@)[q as int];
        proof {
            lemma_range_at(self.input@, self.lines@, q as int);
        }
        let p = matches_at(&self.input, a, b, &self.path, 0, self.path.len());
        let s = matches_at(&self.input, a, b, &self.summary, 0, self.summary.len());
        proof {
            assert(self.path@.subrange(0, self.path@.len() as int) =~= self.path@);
            assert(self.summary@.subrange(0, self.summary@.len() as int) =~= self.summary@);
            if self.path@.len() <= line.len() {
                assert(line.subrange(0, self.path@.len() as int) =~= self.input@.subrange(a as int, a + self.path@.len()));
            }
            if self.summary@.len() <= line.len() {
                assert(line.subrange(0, self.summary@.len() as int) =~= self.input@.subrange(a as int, a + self.summary@.len()));
            }
        }
        p || s
    }

    /// The next message, or the first line whose header is malformed.
    pub fn next(&mut self) -> (r: Option<Result<(Line, Kind, String), Error>>)
        requires
            old(self).wf(),
        ensures
            final(self).wf(),
            final(self).input() == old(self).input(),
            final(self).path() == old(self).path(),
            old(self).line_index() <= split_lines(old(self).input()).len(),
            0 <= final(self).line_index() <= split_lines(final(self).input()).len(),
            final(self).line_index() == next_item(split_lines(old(self).input()), old(self).path(), old(self).line_index()).1,
            match next_item(split_lines(old(self).input()), old(self).path(), old(self).line_index()).0 {
                None => r is None,
                Some(Err(l)) => r matches Some(Err(Error::ParseStderr(s))) && s@ == l,
                Some(Ok((n, kind, t))) => r matches Some(Ok((line, k, s))) && line.0 == n && k == kind && s@ == t,
            },
    {
        let ghost lines = split_lines(self.input@);
        let ghost path = self.path@;
        let ghost k0 = self.next_line as int;
        proof {
            reveal(ranges_of);
        }
        while self.next_line < self.lines.len()
            invariant
                self.wf(),
                lines == split_lines(self.input@),
                path == self.path@,
                self.input@ == old(self).input(),
                self.path@ == old(self).path(),
                k0 == old(self).line_index(),
                next_item(lines, path, k0) == next_item(lines, path, self.next_line as int),
            decreases self.lines@.len() - self.next_line,
        {
            let k = self.next_line;
            let (a, b) = self.lines[k];
            let plen = self.path.len();
            let ghost line = lines[k as int];
            proof {
                lemma_range_at(self.input@, self.lines@, k as int);
            }
            let is_header = matches_at(&self.input, a, b, &self.path, 0, plen);
            proof {
                assert(self.path@.subrange(0, plen as int) =~= self.path@);
                if plen <= line.len() {
                    assert(line.subrange(0, plen as int) =~= self.input@.subrange(a as int, a + plen));
                }
            }
            if !is_header {
                self.next_line = k + 1;
                continue;
            }
            let mut rest: Vec<char> = Vec::new();
            let mut i: usize = a + plen;
            while i < b
                invariant
                    a + plen <= i <= b <= self.input@.len(),
                    rest@ == self.input@.subrange(a + plen, i as int),
                decreases b - i,
            {
                rest.push(self.input[i]);
                i = i + 1;
            }
            proof {
                assert(rest@ =~= line.subrange(plen as int, line.len() as int));
            }
            let (header, span, off) = parse_header(rest);
            match header {
                None => {
                    if span {
                        self.next_line = k + 1;
                        continue;
                    }
                    self.next_line = k + 1;
                    let text = string_of_range(&self.input, a, b);
                    return Some(Err(Error::ParseStderr(text)));
                },
                Some((ln, kind)) => {
                    let start = a + plen + off;
                    let mut q: usize = k + 1;
                    let mut end: usize = b;
                    proof {
                        assert(self.input@.subrange(start as int, end as int) =~= line.subrange(plen + off, line.len() as int));
                    }
                    while q < self.lines.len() && !self.ends_body_at(q)
                        invariant
                            self.wf(),
                            lines == split_lines(self.input@),
                            path == self.path@,
                            k < q <= self.lines@.len(),
                            start <= end <= self.input@.len(),
                            end == self.lines@[q - 1].1,
                            body_end(lines, path, k + 1) == body_end(lines, path, q as int),
                            self.input@.subrange(start as int, end as int) == join_lines(
                                line.subrange(plen + off, line.len() as int), lines, k + 1, q as int),
                        decreases self.lines@.len() - q,
                    {
                        let (qa, qb) = self.lines[q];
                        proof {
                            lemma_range_at(self.input@, self.lines@, q as int);
                            lemma_range_at(self.input@, self.lines@, q - 1);
                            assert(self.input@.subrange(start as int, qb as int) =~= self.input@.subrange(start as int, end as int)
                                + seq!['\n'] + self.input@.subrange(qa as int, qb as int));
                        }
                        end = qb;
                        q = q + 1;
                    }
                    self.next_line = q;
                    let text = string_of_range(&self.input, start, end);
                    return Some(Ok((ln, kind, text)));
                },
            }
        }
        proof {
            reveal(ranges_of);
        }
        None
    }
}

} // verus!
