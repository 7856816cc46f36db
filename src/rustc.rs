//! The compiler's output.

use vstd::prelude::*;

pub mod lexer;
pub mod parse;

use crate::line_map::{insert_message, messages_map_of};
use crate::rustc::parse::{items_from, lemma_next_item_advances, next_item, stderr_items, Item, Parser};
use crate::text::split_lines;
use crate::{Error, LineMap, Messages};

verus! {

/// `done`, then what `r` holds, or the error of `r`.
pub open spec fn prepend(done: Seq<Item>, r: Result<Seq<Item>, Seq<char>>) -> Result<Seq<Item>, Seq<char>> {
    match r {
        Ok(rest) => Ok(done + rest),
        Err(l) => Err(l),
    }
}

/// Compiler stderr, with the path of the file that was compiled.
pub struct Stderr {
    source: String,
    stderr: String,
}

impl Stderr {
    /// The path of the compiled file, as the compiler prints it.
    pub closed spec fn path(&self) -> Seq<char> {
        self.source@
    }

    /// The text of stderr.
    pub closed spec fn text(&self) -> Seq<char> {
        self.stderr@
    }

    /// The stderr of compiling the file at `source`.
    pub fn new(source: String, stderr: String) -> (r: Stderr)
        ensures
            r.path() == source@,
            r.text() == stderr@,
    {
        Stderr { source, stderr }
    }

    /// Parses the compiler stderr and returns the compiler messages by line.
    pub fn parse(&self) -> (r: Result<LineMap<Messages>, Error>)
        ensures
            match stderr_items(self.text(), self.path()) {
                Ok(items) => r matches Ok(m) && messages_map_of(m@, items),
                Err(l) => r matches Err(Error::ParseStderr(s)) && s@ == l,
            },
    {
        let mut parser = Parser::new(self.stderr.as_str(), self.source.as_str());
        let mut map: LineMap<Messages> = Vec::new();
        let ghost lines = split_lines(self.stderr@);
        let ghost path = self.source@;
        let ghost mut done: Seq<Item> = seq![];
        proof {
            assert(done + Seq::<Item>::empty() =~= Seq::<Item>::empty());
            assert(prepend(done, items_from(lines, path, 0)) =~= items_from(lines, path, 0)) by {
                match items_from(lines, path, 0) {
                    Ok(rest) => { assert(done + rest =~= rest); },
                    Err(_) => {},
                }
            }
        }
        loop
            invariant
                parser.wf(),
                parser.input() == self.stderr@,
                parser.path() == path,
                lines == split_lines(self.stderr@),
                path == self.source@,
                0 <= parser.line_index() <= lines.len(),
                messages_map_of(map@, done),
                items_from(lines, path, 0) == prepend(done, items_from(lines, path, parser.line_index())),
            decreases lines.len() - parser.line_index(),
        {
            let ghost k = parser.line_index();
            proof {
                lemma_next_item_advances(lines, path, k);
            }
            match parser.next() {
                None => {
                    proof {
                        assert(done + Seq::<Item>::empty() =~= done);
                    }
                    return Ok(map);
                },
                Some(Err(e)) => {
                    return Err(e);
                },
                Some(Ok((ln, kind, msg))) => {
                    let ghost x = (ln.0, kind, msg@);
                    insert_message(&mut map, ln, kind, msg, Ghost(done));
                    proof {
                        let nk = parser.line_index();
                        assert(items_from(lines, path, k) == prepend(seq![x], items_from(lines, path, nk)));
                        match items_from(lines, path, nk) {
                            Ok(rest) => {
                                assert(done + (seq![x] + rest) =~= done.push(x) + rest);
                            },
                            Err(_) => {},
                        }
                        done = done.push(x);
                    }
                },
            }
        }
    }
}

} // verus!
