//! A lexer for `cfail` annotations.

use vstd::prelude::*;

use crate::source::parse::{error_view, Error, ErrorView};
use crate::text::{byte_len, byte_pos, chars_of, sat};
use crate::{kind_word, Kind};

verus! {

/// Tokens found in `cfail` annotations.
#[derive(Clone, Copy, Debug, PartialEq, Eq, Structural)]
pub enum Token {
    /// `^`
    Caret,
    /// `:`
    Colon,
    /// `error`
    Kind(Kind),
    /// `|`
    Or,
    /// ` `
    Whitespace,
}

impl Token {
    /// How the token is shown in error messages.
    pub fn text(&self) -> (r: &'static str)
        ensures
            r@ == crate::source::parse::token_text(*self),
    {
        match *self {
            Token::Caret => "^",
            Token::Colon => ":",
            Token::Kind(_) => "<kind>",
            Token::Or => "|",
            Token::Whitespace => " ",
        }
    }
}

/// `a` is `b`, or its ASCII upper-case form.
pub open spec fn ci_eq(a: char, b: char) -> bool {
    a == b || ('A' <= a && a <= 'Z' && (a as u32) + 32 == (b as u32))
}

/// `s` starts with the keyword `w`, in either case.
pub open spec fn ci_starts_with(s: Seq<char>, w: Seq<char>) -> bool {
    w.len() <= s.len() && forall|q: int| 0 <= q < w.len() ==> ci_eq(#[trigger] s[q], w[q])
}

/// The kind whose keyword starts with `c`, in either case.
pub open spec fn kind_initial(c: char) -> Option<Kind> {
    if ci_eq(c, 'e') {
        Some(Kind::Error)
    } else if ci_eq(c, 'h') {
        Some(Kind::Help)
    } else if ci_eq(c, 'n') {
        Some(Kind::Note)
    } else if ci_eq(c, 'w') {
        Some(Kind::Warning)
    } else {
        None
    }
}

/// The first `' '` at or after `i`, or the length of `s`.
pub open spec fn space_end(s: Seq<char>, i: int) -> int
    decreases s.len() - i,
{
    if i < 0 || i >= s.len() || s[i] == ' ' {
        i
    } else {
        space_end(s, i + 1)
    }
}

/// The token that starts at `i` and the end of its span; `None` at the end.
///
/// ```text
/// caret = "^" ;  colon = ":" ;  or = "|" ;  whitespace = " " ;
/// kind  = "error" | "help" | "note" | "warning" ;   (in any letter case)
/// ```
pub open spec fn token_at(s: Seq<char>, i: int) -> Option<(int, Result<Token, ErrorView>)> {
    if i < 0 || i >= s.len() {
        None
    } else if s[i] == ' ' {
        Some((i + 1, Ok(Token::Whitespace)))
    } else if s[i] == ':' {
        Some((i + 1, Ok(Token::Colon)))
    } else if s[i] == '^' {
        Some((i + 1, Ok(Token::Caret)))
    } else if s[i] == '|' {
        Some((i + 1, Ok(Token::Or)))
    } else if kind_initial(s[i]) is Some {
        let k = kind_initial(s[i])->0;
        if ci_starts_with(s.subrange(i, s.len() as int), kind_word(k)) {
            Some((i + kind_word(k).len(), Ok(Token::Kind(k))))
        } else {
            let e = space_end(s, i);
            Some((e, Err(ErrorView::UnknownKind(s.subrange(i, e)))))
        }
    } else {
        Some((i + 1, Err(ErrorView::UnknownStartOfToken(s[i]))))
    }
}

/// A token with the span it covers: start, end, and the token or the error.
pub type Spanned = (int, int, Result<Token, ErrorView>);

/// The tokens from `i` on, up to the end or to the first error, which is the
/// last one.
pub open spec fn tokens_from(s: Seq<char>, i: int) -> Seq<Spanned>
    decreases s.len() - i,
{
    match token_at(s, i) {
        None => seq![],
        Some((e, Ok(t))) => if e <= i || e > s.len() {
            seq![]
        } else {
            seq![(i, e, Ok(t))] + tokens_from(s, e)
        },
        Some((e, Err(x))) => seq![(i, e, Err(x))],
    }
}

/// A token ends after it starts, within the input.
pub proof fn lemma_token_end(s: Seq<char>, i: int)
    ensures
        token_at(s, i) matches Some((e, _)) ==> i < e <= s.len(),
{
    if 0 <= i < s.len() {
        lemma_space_end(s, i);
        if kind_initial(s[i]) is Some {
            let k = kind_initial(s[i])->0;
            if ci_starts_with(s.subrange(i, s.len() as int), kind_word(k)) {
                assert(kind_word(k).len() > 0) by {
                    reveal_strlit("error");
                }
            } else {
                assert(s[i] != ' ');
                lemma_space_end(s, i + 1);
            }
        }
    }
}

proof fn lemma_space_end(s: Seq<char>, i: int)
    requires
        0 <= i <= s.len(),
    ensures
        i <= space_end(s, i) <= s.len(),
    decreases s.len() - i,
{
    if i < s.len() && s[i] != ' ' {
        lemma_space_end(s, i + 1);
    }
}

/// A lexed token: its span, as character positions plus the lexer's offset,
/// and the token or the error.
pub struct Lexed {
    pub start: usize,
    pub end: usize,
    pub token: Result<Token, Error>,
}

/// What a lexed token says.
pub open spec fn lexed_view(l: Lexed) -> Spanned {
    (
        l.start as int,
        l.end as int,
        match l.token {
            Ok(t) => Ok(t),
            Err(e) => Err(error_view(e)),
        },
    )
}

/// A lexer over the text of an annotation. Once it reports an error it
/// yields nothing more.
pub struct Lexer {
    input: Vec<char>,
    pos: usize,
    offset: usize,
    halted: bool,
}

/// `c`, or its ASCII lower-case form.
fn lower(c: char) -> (r: char)
    ensures
        forall|b: char| 'a' <= b && b <= 'z' ==> (ci_eq(c, b) <==> r == b),
{
    if 'A' <= c && c <= 'Z' {
        let n = (c as u32) + 32;
        if n == 'a' as u32 { 'a' } else if n == 'b' as u32 { 'b' } else if n == 'c' as u32 { 'c' }
        else if n == 'd' as u32 { 'd' } else if n == 'e' as u32 { 'e' } else if n == 'f' as u32 { 'f' }
        else if n == 'g' as u32 { 'g' } else if n == 'h' as u32 { 'h' } else if n == 'i' as u32 { 'i' }
        else if n == 'j' as u32 { 'j' } else if n == 'k' as u32 { 'k' } else if n == 'l' as u32 { 'l' }
        else if n == 'm' as u32 { 'm' } else if n == 'n' as u32 { 'n' } else if n == 'o' as u32 { 'o' }
        else if n == 'p' as u32 { 'p' } else if n == 'q' as u32 { 'q' } else if n == 'r' as u32 { 'r' }
        else if n == 's' as u32 { 's' } else if n == 't' as u32 { 't' } else if n == 'u' as u32 { 'u' }
        else if n == 'v' as u32 { 'v' } else if n == 'w' as u32 { 'w' } else if n == 'x' as u32 { 'x' }
        else if n == 'y' as u32 { 'y' } else { 'z' }
    } else {
        c
    }
}

impl Lexer {
    /// The input.
    pub closed spec fn chars(&self) -> Seq<char> {
        self.input@
    }

    /// The position of the next character.
    pub closed spec fn pos(&self) -> int {
        self.pos as int
    }

    /// What spans are moved by.
    pub closed spec fn offset(&self) -> int {
        self.offset as int
    }

    /// Whether the lexer stopped on an error.
    pub closed spec fn halted(&self) -> bool {
        self.halted
    }

    /// The position is within the input, and spans fit a `usize`.
    pub closed spec fn wf(&self) -> bool {
        self.pos <= self.input@.len() && self.offset + self.input@.len() <= usize::MAX
    }

    /// Creates a new lexer whose spans are moved by `offset` characters.
    pub fn new(input: &str, offset: usize) -> (r: Lexer)
        requires
            offset + input@.len() <= usize::MAX,
        ensures
            r.chars() == input@,
            r.pos() == 0,
            r.offset() == offset,
            !r.halted(),
            r.wf(),
    {
        Lexer { input: chars_of(input), pos: 0, offset, halted: false }
    }

    /// Creates a new lexer over these characters.
    pub fn from_chars(input: Vec<char>, offset: usize) -> (r: Lexer)
        requires
            offset + input@.len() <= usize::MAX,
        ensures
            r.chars() == input@,
            r.pos() == 0,
            r.offset() == offset,
            !r.halted(),
            r.wf(),
    {
        Lexer { input, pos: 0, offset, halted: false }
    }

    /// Creates a lexer over `input` that starts at position `pos`, with spans
    /// given as positions in `input`.
    pub fn starting_at(input: Vec<char>, pos: usize) -> (r: Lexer)
        requires
            pos <= input@.len(),
        ensures
            r.chars() == input@,
            r.pos() == pos,
            r.offset() == 0,
            !r.halted(),
            r.wf(),
    {
        let n = input.len();
        assert(n == input@.len());
        Lexer { input, pos, offset: 0, halted: false }
    }

    /// Returns the byte position of the next character in the input.
    pub fn next_byte_pos(&self) -> (r: usize)
        requires
            self.wf(),
        ensures
            r == sat(byte_len(self.chars().subrange(0, self.pos()))),
    {
        byte_pos(&self.input, self.pos)
    }

    /// Raises a fatal error that terminates the lexing.
    fn fatal(&mut self, start: usize, end: usize, e: Error) -> (r: Lexed)
        ensures
            r == (Lexed { start, end, token: Err(e) }),
            final(self).halted(),
            final(self).chars() == old(self).chars(),
            final(self).pos() == old(self).pos(),
            final(self).offset() == old(self).offset(),
    {
        self.halted = true;
        Lexed { start, end, token: Err(e) }
    }

    /// Does the keyword of `k` start at `i`, in either case?
    fn keyword_at(&self, i: usize, k: Kind) -> (r: bool)
        requires
            i <= self.input@.len(),
        ensures
            r == ci_starts_with(self.input@.subrange(i as int, self.input@.len() as int), kind_word(k)),
    {
        let w = k.needle();
        if w.len() > self.input.len() - i {
            return false;
        }
        let ghost s = self.input@.subrange(i as int, self.input@.len() as int);
        let mut q: usize = 0;
        while q < w.len()
            invariant
                w@ == kind_word(k),
                i + w@.len() <= self.input@.len(),
                self.input@.len() <= usize::MAX,
                s == self.input@.subrange(i as int, self.input@.len() as int),
                q <= w@.len(),
                forall|p: int| 0 <= p < q ==> ci_eq(#[trigger] s[p], w@[p]),
            decreases w@.len() - q,
        {
            let c = self.input[i + q];
            proof {
                assert(s[q as int] == c);
                assert('a' <= w@[q as int] && w@[q as int] <= 'z') by {
                    reveal_strlit("error");
                    match k {
                        Kind::Error => {},
                        Kind::Help => {},
                        Kind::Note => {},
                        Kind::Warning => {},
                    }
                }
            }
            if lower(c) != w[q] {
                return false;
            }
            q = q + 1;
        }
        true
    }

    /// The next token, with its span.
    pub fn next(&mut self) -> (r: Option<Lexed>)
        requires
            old(self).wf(),
        ensures
            final(self).wf(),
            0 <= final(self).pos() <= final(self).chars().len(),
            final(self).chars() == old(self).chars(),
            final(self).offset() == old(self).offset(),
            old(self).halted() ==> r is None && final(self).halted(),
            !old(self).halted() ==> match token_at(old(self).chars(), old(self).pos()) {
                None => r is None && !final(self).halted() && final(self).pos() == old(self).pos(),
                Some((e, Ok(t))) => r matches Some(l) && lexed_view(l) == (old(self).pos() + old(self).offset(), e
                    + old(self).offset(), Ok::<Token, ErrorView>(t)) && !final(self).halted() && final(self).pos() == e,
                Some((e, Err(x))) => r matches Some(l) && lexed_view(l) == (old(self).pos() + old(self).offset(), e
                    + old(self).offset(), Err::<Token, ErrorView>(x)) && final(self).halted() && final(self).pos() == old(self).pos(),
            },
    {
        if self.halted || self.pos >= self.input.len() {
            return None;
        }
        let i = self.pos;
        let c = self.input[i];
        let ghost s = self.input@;
        let tok: Token;
        if c == ' ' {
            tok = Token::Whitespace;
        } else if c == ':' {
            tok = Token::Colon;
        } else if c == '^' {
            tok = Token::Caret;
        } else if c == '|' {
            tok = Token::Or;
        } else {
            let l = lower(c);
            let kind: Kind;
            if l == 'e' {
                kind = Kind::Error;
            } else if l == 'h' {
                kind = Kind::Help;
            } else if l == 'n' {
                kind = Kind::Note;
            } else if l == 'w' {
                kind = Kind::Warning;
            } else {
                return Some(self.fatal(i + self.offset, i + 1 + self.offset, Error::UnknownStartOfToken(c)));
            }
            if self.keyword_at(i, kind) {
                let n = kind.needle().len();
                self.pos = i + n;
                return Some(Lexed { start: i + self.offset, end: i + n + self.offset, token: Ok(Token::Kind(kind)) });
            }
            let mut e: usize = i;
            proof {
                lemma_space_end(s, i as int);
            }
            while e < self.input.len() && self.input[e] != ' '
                invariant
                    s == self.input@,
                    i <= e <= s.len(),
                    space_end(s, i as int) == space_end(s, e as int),
                decreases s.len() - e,
            {
                e = e + 1;
            }
            let mut word: Vec<char> = Vec::new();
            let mut q: usize = i;
            while q < e
                invariant
                    s == self.input@,
                    i <= q <= e <= s.len(),
                    word@ == s.subrange(i as int, q as int),
                decreases e - q,
            {
                word.push(self.input[q]);
                q = q + 1;
            }
            let text = crate::text::string_of(word.as_slice());
            return Some(self.fatal(i + self.offset, e + self.offset, Error::UnknownKind(text)));
        }
        self.pos = i + 1;
        Some(Lexed { start: i + self.offset, end: i + 1 + self.offset, token: Ok(tok) })
    }
}

} // verus!
