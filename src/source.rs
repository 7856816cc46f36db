//! Source files and their annotations.

use vstd::prelude::*;

pub mod lexer;
pub mod parse;

use crate::line_map::{annotations_map_of, insert_annotation};
use crate::source::parse::{error_view, Error};
use crate::source::parse::{ann_items_from, annotation_items, byte_span, lemma_ann_next_advances, Item, Parser};
use crate::text::{chars_of, contains, find_in, split_lines};
use crate::{Annotations, LineMap, Span};

verus! {

/// `done`, then what `r` holds, or the error of `r`.
pub open spec fn prepend(done: Seq<Item>, r: Result<Seq<Item>, (int, int, parse::ErrorView)>) -> Result<
    Seq<Item>,
    (int, int, parse::ErrorView),
> {
    match r {
        Ok(rest) => Ok(done + rest),
        Err(x) => Err(x),
    }
}

/// The contents of a source file.
pub struct Source {
    text: String,
}

impl Source {
    /// The text of the file.
    pub closed spec fn view(&self) -> Seq<char> {
        self.text@
    }

    /// A source file with this text.
    pub fn new(text: String) -> (r: Source)
        ensures
            r@ == text@,
    {
        Source { text }
    }

    /// The text of the file.
    pub fn text(&self) -> (r: &str)
        ensures
            r@ == self@,
    {
        self.text.as_str()
    }

    /// Whether the text holds `needle`.
    pub fn contains(&self, needle: &str) -> (r: bool)
        ensures
            r == contains(self@, needle@),
    {
        let h = chars_of(self.text.as_str());
        let n = chars_of(needle);
        let found = find_in(&h, 0, h.len(), &n, 0, n.len());
        proof {
            assert(h@.subrange(0, h@.len() as int) =~= h@);
            assert(n@.subrange(0, n@.len() as int) =~= n@);
            if let Some(p) = found {
                assert(h@.subrange(p as int, p + n@.len()) == n@);
            }
        }
        found.is_some()
    }

    /// Parses the source file's annotations into a map by line, or returns
    /// the first malformed annotation with its span in bytes.
    pub fn parse(&self) -> (r: Result<LineMap<Annotations>, (Span, Error)>)
        ensures
            match annotation_items(self@) {
                Ok(items) => r matches Ok(m) && annotations_map_of(m@, items),
                Err((a, b, e)) => r matches Err((span, err)) && span == byte_span(self@, a, b) && error_view(err) == e,
            },
    {
        let mut parser = Parser::new(self.text.as_str());
        let mut map: LineMap<Annotations> = Vec::new();
        let ghost lines = split_lines(self.text@);
        let ghost mut done: Seq<Item> = seq![];
        proof {
            assert(prepend(done, ann_items_from(lines, 0, None)) =~= ann_items_from(lines, 0, None)) by {
                match ann_items_from(lines, 0, None) {
                    Ok(rest) => {
                        assert(done + rest =~= rest);
                    },
                    Err(_) => {},
                }
            }
        }
        loop
            invariant
                parser.wf(),
                !parser.halted(),
                parser.input() == self.text@,
                lines == split_lines(self.text@),
                0 <= parser.line_index() <= lines.len(),
                annotations_map_of(map@, done),
                ann_items_from(lines, 0, None) == prepend(done, ann_items_from(lines, parser.line_index(), parser.last_match())),
            decreases lines.len() - parser.line_index(),
        {
            let ghost k = parser.line_index();
            let ghost last = parser.last_match();
            proof {
                lemma_ann_next_advances(lines, k, last);
            }
            match parser.next() {
                None => {
                    proof {
                        assert(done + Seq::<Item>::empty() =~= done);
                    }
                    return Ok(map);
                },
                Some(Err(e)) => {
                    return Err(e);
                },
                Some(Ok((ln, kind, msg))) => {
                    let ghost x = (ln.0, kind, msg@);
                    insert_annotation(&mut map, ln, kind, msg, Ghost(done));
                    proof {
                        let nk = parser.line_index();
                        let nl = parser.last_match();
                        assert(ann_items_from(lines, k, last) == prepend(seq![x], ann_items_from(lines, nk, nl)));
                        match ann_items_from(lines, nk, nl) {
                            Ok(rest) => {
                                assert(done + (seq![x] + rest) =~= done.push(x) + rest);
                            },
                            Err(_) => {},
                        }
                        done = done.push(x);
                    }
                },
            }
        }
    }
}

} // verus!
