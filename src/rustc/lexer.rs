//! A lexer for the headers of compiler messages.

use vstd::prelude::*;

use crate::text::{byte_len, byte_pos, chars_of, matches_at, sat, starts_with};
use crate::{kind_word, BytePos, Kind};

verus! {

/// Tokens found in compiler stderr.
#[derive(Clone, Copy, Debug, PartialEq, Eq, Structural)]
pub enum Token {
    /// `:`
    Colon,
    /// `error`
    Kind(Kind),
    /// `123`
    Number(u32),
    /// ` `
    Whitespace,
}

/// Both tokens are of the same variant, whatever they carry.
pub open spec fn same_variant(a: Token, b: Token) -> bool {
    match (a, b) {
        (Token::Colon, Token::Colon) => true,
        (Token::Kind(_), Token::Kind(_)) => true,
        (Token::Number(_), Token::Number(_)) => true,
        (Token::Whitespace, Token::Whitespace) => true,
        _ => false,
    }
}

/// An ASCII decimal digit.
pub open spec fn is_digit(c: char) -> bool {
    '0' <= c && c <= '9'
}

/// The kind whose keyword starts with `c`, in lower case.
pub open spec fn kind_initial(c: char) -> Option<Kind> {
    if c == 'e' {
        Some(Kind::Error)
    } else if c == 'h' {
        Some(Kind::Help)
    } else if c == 'n' {
        Some(Kind::Note)
    } else if c == 'w' {
        Some(Kind::Warning)
    } else {
        None
    }
}

/// The end of the run of digits that starts at `i`.
pub open spec fn digits_end(s: Seq<char>, i: int) -> int
    decreases s.len() - i,
{
    if 0 <= i < s.len() && is_digit(s[i]) {
        digits_end(s, i + 1)
    } else {
        i
    }
}

/// The value of the decimal digits `s[i..e]`.
pub open spec fn number_value(s: Seq<char>, i: int, e: int) -> nat
    decreases e - i,
{
    if e <= i {
        0
    } else {
        number_value(s, i, e - 1) * 10 + ((s[e - 1] as u32) - ('0' as u32)) as nat
    }
}

/// The token at position `i` of `s` and the position after it; `Err` where
/// no token starts there; `None` at the end of the input.
///
/// ```text
/// colon  = ":" ;
/// kind   = "error" | "help" | "note" | "warning" ;
/// number = digit excluding zero , { digit } ;   (at most u32::MAX)
/// whitespace = " " ;
/// ```
pub open spec fn token_at(s: Seq<char>, i: int) -> Option<Result<(Token, int), ()>> {
    if i < 0 || i >= s.len() {
        None
    } else if s[i] == ' ' {
        Some(Ok((Token::Whitespace, i + 1)))
    } else if s[i] == ':' {
        Some(Ok((Token::Colon, i + 1)))
    } else if kind_initial(s[i]) is Some {
        let k = kind_initial(s[i])->0;
        if starts_with(s.subrange(i, s.len() as int), kind_word(k)) {
            Some(Ok((Token::Kind(k), i + kind_word(k).len())))
        } else {
            Some(Err(()))
        }
    } else if is_digit(s[i]) && s[i] != '0' {
        let e = digits_end(s, i);
        let v = number_value(s, i, e);
        if v <= u32::MAX {
            Some(Ok((Token::Number(v as u32), e)))
        } else {
            Some(Err(()))
        }
    } else {
        Some(Err(()))
    }
}

/// The position after the token at `i`, if it is of the same variant as `tok`.
pub open spec fn eats(s: Seq<char>, i: int, tok: Token) -> Option<int> {
    match token_at(s, i) {
        Some(Ok((t, p))) => if same_variant(t, tok) {
            Some(p)
        } else {
            None
        },
        _ => None,
    }
}

proof fn lemma_digits_end(s: Seq<char>, i: int)
    requires
        0 <= i <= s.len(),
    ensures
        i <= digits_end(s, i) <= s.len(),
        forall|k: int| i <= k < digits_end(s, i) ==> is_digit(#[trigger] s[k]),
        digits_end(s, i) < s.len() ==> !is_digit(s[digits_end(s, i)]),
    decreases s.len() - i,
{
    if i < s.len() && is_digit(s[i]) {
        lemma_digits_end(s, i + 1);
    }
}

proof fn lemma_number_grows(s: Seq<char>, i: int, e1: int, e2: int)
    requires
        i <= e1 <= e2 <= s.len(),
        forall|k: int| i <= k < e2 ==> is_digit(#[trigger] s[k]),
    ensures
        number_value(s, i, e1) <= number_value(s, i, e2),
    decreases e2 - e1,
{
    if e1 < e2 {
        lemma_number_grows(s, i, e1, e2 - 1);
        assert(is_digit(s[e2 - 1]));
    }
}

/// A lexer over one line of compiler stderr, from just after the path. Once
/// it reports an error it yields nothing more.
pub struct Lexer {
    input: Vec<char>,
    pos: usize,
    halted: bool,
}

impl Lexer {
    /// The input.
    pub closed spec fn chars(&self) -> Seq<char> {
        self.input@
    }

    /// The position of the next character.
    pub closed spec fn pos(&self) -> int {
        self.pos as int
    }

    /// Whether the lexer stopped on an error.
    pub closed spec fn halted(&self) -> bool {
        self.halted
    }

    /// The position is within the input.
    pub closed spec fn wf(&self) -> bool {
        self.pos <= self.input@.len()
    }

    /// Creates a new lexer.
    pub fn new(input: &str) -> (r: Lexer)
        ensures
            r.chars() == input@,
            r.pos() == 0,
            !r.halted(),
            r.wf(),
    {
        Lexer { input: chars_of(input), pos: 0, halted: false }
    }

    /// Creates a new lexer over these characters.
    pub fn from_chars(input: Vec<char>) -> (r: Lexer)
        ensures
            r.chars() == input@,
            r.pos() == 0,
            !r.halted(),
            r.wf(),
    {
        Lexer { input, pos: 0, halted: false }
    }

    /// The position of the next character, in characters.
    pub fn char_pos(&self) -> (r: usize)
        ensures
            r == self.pos(),
            self.wf() ==> r <= self.chars().len(),
    {
        self.pos
    }

    /// Returns the byte position of the next character.
    pub fn next_byte_pos(&self) -> (r: BytePos)
        requires
            self.wf(),
        ensures
            r == sat(byte_len(self.chars().subrange(0, self.pos()))),
    {
        byte_pos(&self.input, self.pos)
    }

    fn error(&mut self) -> (r: Result<Token, ()>)
        ensures
            r == Err::<Token, ()>(()),
            final(self).halted(),
            final(self).chars() == old(self).chars(),
            final(self).pos() == old(self).pos(),
    {
        self.halted = true;
        Err(())
    }

    /// The next token.
    pub fn next(&mut self) -> (r: Option<Result<Token, ()>>)
        requires
            old(self).wf(),
        ensures
            final(self).wf(),
            final(self).chars() == old(self).chars(),
            old(self).halted() ==> r is None && final(self).halted(),
            !old(self).halted() ==> match token_at(old(self).chars(), old(self).pos()) {
                None => r is None && !final(self).halted() && final(self).pos() == old(self).pos(),
                Some(Ok((t, p))) => r == Some(Ok::<Token, ()>(t)) && !final(self).halted() && final(self).pos() == p,
                Some(Err(_)) => r == Some(Err::<Token, ()>(())) && final(self).halted(),
            },
    {
        if self.halted || self.pos >= self.input.len() {
            return None;
        }
        let i = self.pos;
        let c = self.input[i];
        let ghost s = self.input@;
        if c == ' ' {
            self.pos = i + 1;
            return Some(Ok(Token::Whitespace));
        }
        if c == ':' {
            self.pos = i + 1;
            return Some(Ok(Token::Colon));
        }
        let kind: Kind;
        if c == 'e' {
            kind = Kind::Error;
        } else if c == 'h' {
            kind = Kind::Help;
        } else if c == 'n' {
            kind = Kind::Note;
        } else if c == 'w' {
            kind = Kind::Warning;
        } else if '1' <= c && c <= '9' {
            return Some(self.number());
        } else {
            return Some(self.error());
        }
        let needle = kind.needle();
        let len = self.input.len();
        if matches_at(&self.input, i, len, &needle, 0, needle.len()) {
            proof {
                assert(needle@.subrange(0, needle@.len() as int) =~= needle@);
                assert(s.subrange(i as int, len as int).subrange(0, needle@.len() as int) =~= s.subrange(i as int, i + needle@.len()));
            }
            self.pos = i + needle.len();
            Some(Ok(Token::Kind(kind)))
        } else {
            proof {
                assert(needle@.subrange(0, needle@.len() as int) =~= needle@);
                if needle@.len() <= len - i {
                    assert(s.subrange(i as int, len as int).subrange(0, needle@.len() as int) =~= s.subrange(i as int, i + needle@.len()));
                }
            }
            Some(self.error())
        }
    }

    /// Lexes a number that starts at a nonzero digit.
    fn number(&mut self) -> (r: Result<Token, ()>)
        requires
            old(self).wf(),
            !old(self).halted(),
            old(self).pos() < old(self).chars().len(),
            is_digit(old(self).chars()[old(self).pos()]),
            old(self).chars()[old(self).pos()] != '0',
        ensures
            final(self).wf(),
            final(self).chars() == old(self).chars(),
            match token_at(old(self).chars(), old(self).pos()) {
                Some(Ok((t, p))) => r == Ok::<Token, ()>(t) && !final(self).halted() && final(self).pos() == p,
                _ => r == Err::<Token, ()>(()) && final(self).halted(),
            },
    {
        let ghost s = self.input@;
        let start = self.pos;
        let mut value: u64 = 0;
        let mut j: usize = start;
        proof {
            lemma_digits_end(s, start as int);
        }
        while j < self.input.len() && '0' <= self.input[j] && self.input[j] <= '9'
            invariant
                s == self.input@,
                s == old(self).chars(),
                start == old(self).pos(),
                self.pos == start,
                !self.halted,
                start <= j <= s.len(),
                j <= digits_end(s, start as int),
                digits_end(s, start as int) <= s.len(),
                forall|k: int| start <= k < digits_end(s, start as int) ==> is_digit(#[trigger] s[k]),
                digits_end(s, start as int) < s.len() ==> !is_digit(s[digits_end(s, start as int)]),
                value == number_value(s, start as int, j as int),
                value <= u32::MAX,
            decreases s.len() - j,
        {
            let d = (self.input[j] as u32 - '0' as u32) as u64;
            value = value * 10 + d;
            j = j + 1;
            if value > u32::MAX as u64 {
                proof {
                    lemma_number_grows(s, start as int, j as int, digits_end(s, start as int));
                }
                return self.error();
            }
        }
        proof {
            if j < digits_end(s, start as int) {
                assert(is_digit(s[j as int]));
            }
            assert(j == digits_end(s, start as int));
        }
        self.pos = j;
        Ok(Token::Number(value as u32))
    }

    /// Tries to eat a token of the same variant as `tok`.
    pub fn eat(&mut self, tok: Token) -> (r: Result<(), ()>)
        requires
            old(self).wf(),
        ensures
            final(self).wf(),
            final(self).chars() == old(self).chars(),
            r is Ok <==> (!old(self).halted() && eats(old(self).chars(), old(self).pos(), tok) is Some),
            r is Ok ==> !final(self).halted() && final(self).pos() == eats(old(self).chars(), old(self).pos(), tok)->0,
            old(self).halted() ==> r is Err && final(self).halted(),
            !old(self).halted() ==> match token_at(old(self).chars(), old(self).pos()) {
                None => r is Err && !final(self).halted() && final(self).pos() == old(self).pos(),
                Some(Ok((t, p))) => (r is Ok <==> same_variant(t, tok)) && !final(self).halted() && final(self).pos() == p,
                Some(Err(_)) => r is Err && final(self).halted(),
            },
    {
        match self.next() {
            None => Err(()),
            Some(Err(_)) => Err(()),
            Some(Ok(t)) => {
                let same = match (t, tok) {
                    (Token::Colon, Token::Colon) => true,
                    (Token::Kind(_), Token::Kind(_)) => true,
                    (Token::Number(_), Token::Number(_)) => true,
                    (Token::Whitespace, Token::Whitespace) => true,
                    _ => false,
                };
                if same {
                    Ok(())
                } else {
                    Err(())
                }
            },
        }
    }
}

} // verus!
