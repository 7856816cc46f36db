//! Compile-fail testing: the diagnostics a source file's annotations expect,
//! held against the diagnostics that the compiler printed.

use vstd::prelude::*;

use crate::line_map::{annotations_map_of, messages_map_of};
use crate::match_::{match_, match_spec, render_from, Mismatches};
use crate::rustc::parse::stderr_items;
use crate::rustc::Stderr;
use crate::source::parse::{annotation_items, byte_span, format_error, render_error};
use crate::source::Source;
use crate::text::{contains, push_str, string_of};

pub mod line_map;
pub mod match_;
pub mod rustc;
pub mod source;
pub mod text;

verus! {

/// Source file line number (1-based).
#[derive(Clone, Copy, Debug, PartialEq, Eq, PartialOrd, Ord, Structural)]
pub struct Line(pub u32);

impl Line {
    /// The line `rhs` lines below this one.
    pub fn add(self, rhs: u32) -> (r: Line)
        requires
            self.0 + rhs <= u32::MAX,
        ensures
            r.0 == self.0 + rhs,
    {
        Line(self.0 + rhs)
    }

    /// The line `rhs` lines above this one, if that is still a line (1 or more).
    pub fn sub(self, rhs: u32) -> (r: Option<Line>)
        ensures
            self.0 > rhs ==> r == Some(Line((self.0 - rhs) as u32)),
            self.0 <= rhs ==> r is None,
    {
        if self.0 > rhs {
            Some(Line(self.0 - rhs))
        } else {
            None
        }
    }
}

/// Byte position.
pub type BytePos = usize;

/// Source file span: a half-open range of byte positions.
#[derive(Clone, Copy, Debug, PartialEq, Eq, Structural)]
pub struct Span(pub BytePos, pub BytePos);

impl Span {
    /// The span moved `offset` bytes further on.
    pub fn add(self, offset: BytePos) -> (r: Span)
        requires
            self.0 + offset <= usize::MAX,
            self.1 + offset <= usize::MAX,
        ensures
            r == Span((self.0 + offset) as usize, (self.1 + offset) as usize),
    {
        Span(self.0 + offset, self.1 + offset)
    }

    /// The span moved `offset` bytes back, if neither end would go below zero.
    pub fn sub(self, offset: BytePos) -> (r: Option<Span>)
        ensures
            (self.0 >= offset && self.1 >= offset) ==> r == Some(
                Span((self.0 - offset) as usize, (self.1 - offset) as usize),
            ),
            !(self.0 >= offset && self.1 >= offset) ==> r is None,
    {
        if self.0 >= offset && self.1 >= offset {
            Some(Span(self.0 - offset, self.1 - offset))
        } else {
            None
        }
    }
}

/// Errors.
#[derive(Debug)]
pub enum Error {
    /// I/O error, with its description
    Io(String),
    /// Error parsing the source file
    ParseSource(String),
    /// Error parsing the compiler stderr: the offending line
    ParseStderr(String),
    /// Source file successfully compiled
    SuccessfulCompilation,
    /// Unsupported feature
    Unsupported(Feature),
}

/// Unsupported `cfail` features.
#[derive(Clone, Copy, Debug, PartialEq, Eq, Structural)]
pub enum Feature {
    /// Auxiliar build
    AuxBuild,
    /// Error pattern
    ErrorPattern,
}

/// "Kind" of compiler messages.
#[derive(Clone, Copy, Debug, PartialEq, Eq, Structural)]
pub enum Kind {
    /// `error`
    Error,
    /// `help`
    Help,
    /// `note`
    Note,
    /// `warning`
    Warning,
}

/// The lowercase keyword of a kind.
pub open spec fn kind_word(k: Kind) -> Seq<char> {
    match k {
        Kind::Error => seq!['e', 'r', 'r', 'o', 'r'],
        Kind::Help => seq!['h', 'e', 'l', 'p'],
        Kind::Note => seq!['n', 'o', 't', 'e'],
        Kind::Warning => seq!['w', 'a', 'r', 'n', 'i', 'n', 'g'],
    }
}

/// The order in which kinds are reported: error, warning, help, note.
pub open spec fn report_kind(i: int) -> Kind {
    if i == 0 {
        Kind::Error
    } else if i == 1 {
        Kind::Warning
    } else if i == 2 {
        Kind::Help
    } else {
        Kind::Note
    }
}

/// Number of kinds.
pub const NKINDS: usize = 4;

/// The `i`-th kind in report order.
pub fn report_kind_at(i: usize) -> (k: Kind)
    requires
        i < NKINDS,
    ensures
        k == report_kind(i as int),
{
    if i == 0 {
        Kind::Error
    } else if i == 1 {
        Kind::Warning
    } else if i == 2 {
        Kind::Help
    } else {
        Kind::Note
    }
}

impl Kind {
    /// The keyword of this kind.
    pub fn needle(&self) -> (r: Vec<char>)
        ensures
            r@ == kind_word(*self),
    {
        match *self {
            Kind::Error => vec!['e', 'r', 'r', 'o', 'r'],
            Kind::Help => vec!['h', 'e', 'l', 'p'],
            Kind::Note => vec!['n', 'o', 't', 'e'],
            Kind::Warning => vec!['w', 'a', 'r', 'n', 'i', 'n', 'g'],
        }
    }

    /// The keyword of this kind, as shown in reports.
    pub fn name(&self) -> (r: String)
        ensures
            r@ == kind_word(*self),
    {
        let v = self.needle();
        text::string_of(v.as_slice())
    }
}

/// The texts of a list of strings.
pub open spec fn texts_of(v: Seq<String>) -> Seq<Seq<char>> {
    v.map_values(|s: String| s@)
}

/// The texts of an optional list of strings.
pub open spec fn opt_texts(o: Option<Vec<String>>) -> Option<Seq<Seq<char>>> {
    match o {
        Some(v) => Some(texts_of(v@)),
        None => None,
    }
}

/// `cfail` annotations of one line: the expected messages of each kind.
#[derive(Debug)]
pub struct Annotations {
    error: Option<Vec<String>>,
    help: Option<Vec<String>>,
    note: Option<Vec<String>>,
    warning: Option<Vec<String>>,
}

impl Annotations {
    /// The expected messages of kind `k`, if any.
    pub closed spec fn texts(&self, k: Kind) -> Option<Seq<Seq<char>>> {
        match k {
            Kind::Error => opt_texts(self.error),
            Kind::Help => opt_texts(self.help),
            Kind::Note => opt_texts(self.note),
            Kind::Warning => opt_texts(self.warning),
        }
    }

    /// A kind is present only with at least one message.
    pub open spec fn wf(&self) -> bool {
        forall|k: Kind| #[trigger] self.texts(k) is Some ==> self.texts(k)->0.len() > 0
    }

    /// No annotations.
    pub fn new() -> (r: Annotations)
        ensures
            forall|k: Kind| #[trigger] r.texts(k) is None,
            r.wf(),
    {
        Annotations { error: None, help: None, note: None, warning: None }
    }

    /// Adds an expected message of kind `kind`, after those already there.
    pub fn insert(&mut self, kind: Kind, annotation: String)
        ensures
            final(self).texts(kind) == Some(
                match old(self).texts(kind) {
                    Some(t) => t,
                    None => Seq::<Seq<char>>::empty(),
                }.push(annotation@),
            ),
            forall|k: Kind| k != kind ==> #[trigger] final(self).texts(k) == old(self).texts(k),
            old(self).wf() ==> final(self).wf(),
    {
        let slot = match kind {
            Kind::Error => &mut self.error,
            Kind::Help => &mut self.help,
            Kind::Note => &mut self.note,
            Kind::Warning => &mut self.warning,
        };
        push_text(slot, annotation);
        proof {
            if old(self).wf() {
                assert forall|k: Kind| #[trigger] self.texts(k) is Some implies self.texts(k)->0.len() > 0 by {
                    if k != kind {
                        assert(old(self).texts(k) == self.texts(k));
                    }
                }
            }
        }
    }

    /// The expected messages of kind `kind`, if any.
    pub fn get(&self, kind: Kind) -> (r: Option<&Vec<String>>)
        ensures
            match r {
                Some(v) => self.texts(kind) == Some(texts_of(v@)),
                None => self.texts(kind) is None,
            },
    {
        match kind {
            Kind::Error => self.error.as_ref(),
            Kind::Help => self.help.as_ref(),
            Kind::Note => self.note.as_ref(),
            Kind::Warning => self.warning.as_ref(),
        }
    }

    /// Takes the expected messages of kind `kind` out.
    pub fn take(&mut self, kind: Kind) -> (r: Option<Vec<String>>)
        ensures
            opt_texts(r) == old(self).texts(kind),
            final(self).texts(kind) is None,
            forall|k: Kind| k != kind ==> #[trigger] final(self).texts(k) == old(self).texts(k),
    {
        match kind {
            Kind::Error => self.error.take(),
            Kind::Help => self.help.take(),
            Kind::Note => self.note.take(),
            Kind::Warning => self.warning.take(),
        }
    }
}

/// Compiler messages of one line: the actual messages of each kind.
#[derive(Debug)]
pub struct Messages {
    error: Option<Vec<String>>,
    help: Option<Vec<String>>,
    note: Option<Vec<String>>,
    warning: Option<Vec<String>>,
}

impl Messages {
    /// The messages of kind `k`, if any.
    pub closed spec fn texts(&self, k: Kind) -> Option<Seq<Seq<char>>> {
        match k {
            Kind::Error => opt_texts(self.error),
            Kind::Help => opt_texts(self.help),
            Kind::Note => opt_texts(self.note),
            Kind::Warning => opt_texts(self.warning),
        }
    }

    /// A kind is present only with at least one message.
    pub open spec fn wf(&self) -> bool {
        forall|k: Kind| #[trigger] self.texts(k) is Some ==> self.texts(k)->0.len() > 0
    }

    /// No messages.
    pub fn new() -> (r: Messages)
        ensures
            forall|k: Kind| #[trigger] r.texts(k) is None,
            r.wf(),
    {
        Messages { error: None, help: None, note: None, warning: None }
    }

    /// Adds a message of kind `kind`, after those already there.
    pub fn insert(&mut self, kind: Kind, message: String)
        ensures
            final(self).texts(kind) == Some(
                match old(self).texts(kind) {
                    Some(t) => t,
                    None => Seq::<Seq<char>>::empty(),
                }.push(message@),
            ),
            forall|k: Kind| k != kind ==> #[trigger] final(self).texts(k) == old(self).texts(k),
            old(self).wf() ==> final(self).wf(),
    {
        let slot = match kind {
            Kind::Error => &mut self.error,
            Kind::Help => &mut self.help,
            Kind::Note => &mut self.note,
            Kind::Warning => &mut self.warning,
        };
        push_text(slot, message);
        proof {
            if old(self).wf() {
                assert forall|k: Kind| #[trigger] self.texts(k) is Some implies self.texts(k)->0.len() > 0 by {
                    if k != kind {
                        assert(old(self).texts(k) == self.texts(k));
                    }
                }
            }
        }
    }

    /// The messages of kind `kind`, if any.
    pub fn get(&self, kind: Kind) -> (r: Option<&Vec<String>>)
        ensures
            match r {
                Some(v) => self.texts(kind) == Some(texts_of(v@)),
                None => self.texts(kind) is None,
            },
    {
        match kind {
            Kind::Error => self.error.as_ref(),
            Kind::Help => self.help.as_ref(),
            Kind::Note => self.note.as_ref(),
            Kind::Warning => self.warning.as_ref(),
        }
    }

    /// Takes the messages of kind `kind` out.
    pub fn take(&mut self, kind: Kind) -> (r: Option<Vec<String>>)
        ensures
            opt_texts(r) == old(self).texts(kind),
            final(self).texts(kind) is None,
            forall|k: Kind| k != kind ==> #[trigger] final(self).texts(k) == old(self).texts(k),
    {
        match kind {
            Kind::Error => self.error.take(),
            Kind::Help => self.help.take(),
            Kind::Note => self.note.take(),
            Kind::Warning => self.warning.take(),
        }
    }
}

/// Appends `s` to the list in `slot`, starting the list if there is none.
fn push_text(slot: &mut Option<Vec<String>>, s: String)
    ensures
        opt_texts(*final(slot)) == Some(
            match opt_texts(*old(slot)) {
                Some(t) => t,
                None => Seq::<Seq<char>>::empty(),
            }.push(s@),
        ),
{
    match slot {
        Some(v) => {
            v.push(s);
        },
        None => {
            *slot = Some(vec![s]);
        },
    }
    proof {
        assert(texts_of(final(slot)->0@) =~= match opt_texts(*old(slot)) {
            Some(t) => t,
            None => Seq::<Seq<char>>::empty(),
        }.push(s@));
    }
}

/// Map from source line to the annotations or messages of that line, in
/// ascending line order, each line at most once.
pub type LineMap<T> = Vec<(Line, T)>;

/// The lines of a line map are strictly ascending.
pub open spec fn lines_ascending<T>(m: Seq<(Line, T)>) -> bool {
    forall|i: int, j: int| 0 <= i < j < m.len() ==> (#[trigger] m[i]).0.0 < (#[trigger] m[j]).0.0
}

/// The outcome of the `cfail` test.
pub enum Outcome {
    /// The test failed, with the formatted mismatches
    Failed(String),
    /// The test was ignored
    Ignored,
    /// The test passed
    Passed,
}

impl Feature {
    /// How the feature is named in messages.
    pub fn name(&self) -> (r: &'static str)
        ensures
            r@ == feature_name(*self),
    {
        match *self {
            Feature::AuxBuild => "auxiliar builds",
            Feature::ErrorPattern => "error patterns",
        }
    }
}

/// How a feature is named in messages.
pub open spec fn feature_name(f: Feature) -> Seq<char> {
    match f {
        Feature::AuxBuild => "auxiliar builds"@,
        Feature::ErrorPattern => "error patterns"@,
    }
}

/// The message of an error.
pub open spec fn error_text(e: Error) -> Seq<char> {
    match e {
        Error::Io(s) => s@,
        Error::ParseSource(s) => s@,
        Error::ParseStderr(l) => "couldn't parse stderr: "@ + l@,
        Error::SuccessfulCompilation => "compilation succeeded"@,
        Error::Unsupported(f) => feature_name(f) + " are not currently supported"@,
    }
}

impl Error {
    /// The message of this error.
    pub fn message(&self) -> (r: String)
        ensures
            r@ == error_text(*self),
    {
        let mut buf: Vec<char> = Vec::new();
        match self {
            Error::Io(s) => push_str(&mut buf, s.as_str()),
            Error::ParseSource(s) => push_str(&mut buf, s.as_str()),
            Error::ParseStderr(l) => {
                push_str(&mut buf, "couldn't parse stderr: ");
                push_str(&mut buf, l.as_str());
            },
            Error::SuccessfulCompilation => push_str(&mut buf, "compilation succeeded"),
            Error::Unsupported(f) => {
                push_str(&mut buf, f.name());
                push_str(&mut buf, " are not currently supported");
            },
        }
        proof {
            assert(buf@ =~= error_text(*self));
        }
        string_of(buf.as_slice())
    }
}

/// The source asks to be skipped.
pub open spec fn ignored(src: Seq<char>) -> bool {
    contains(src, "// ignore-test"@)
}

/// Reads what a source file asks for before it is compiled: `Ok(None)` when
/// it is to be ignored; an error for an unsupported feature or a malformed
/// annotation; otherwise its annotations, by line.
pub fn annotations_of(path: &str, source: &Source) -> (r: Result<Option<LineMap<Annotations>>, Error>)
    ensures
        ignored(source@) ==> r matches Ok(None),
        !ignored(source@) && contains(source@, "// aux-build"@) ==> r matches Err(Error::Unsupported(Feature::AuxBuild)),
        !ignored(source@) && !contains(source@, "// aux-build"@) && contains(source@, "// error-pattern"@) ==> r matches Err(
            Error::Unsupported(Feature::ErrorPattern),
        ),
        !ignored(source@) && !contains(source@, "// aux-build"@) && !contains(source@, "// error-pattern"@) ==> match annotation_items(source@) {
            Ok(items) => r matches Ok(Some(m)) && annotations_map_of(m@, items),
            Err((a, b, e)) => r matches Err(Error::ParseSource(s)) && s@ == render_error(path@, source@, byte_span(source@, a, b), e),
        },
{
    if source.contains("// ignore-test") {
        return Ok(None);
    }
    if source.contains("// aux-build") {
        return Err(Error::Unsupported(Feature::AuxBuild));
    }
    if source.contains("// error-pattern") {
        return Err(Error::Unsupported(Feature::ErrorPattern));
    }
    match source.parse() {
        Ok(m) => Ok(Some(m)),
        Err((span, e)) => Err(Error::ParseSource(format_error(path, source.text(), span, &e))),
    }
}

/// The outcome for the mismatches: passed when there are no error or warning
/// mismatches, failed with the report otherwise.
pub open spec fn outcome_of(ms: Mismatches, r: Outcome) -> bool {
    if ms.list(Kind::Error).len() == 0 && ms.list(Kind::Warning).len() == 0 {
        r is Passed
    } else {
        r matches Outcome::Failed(t) && t@ == render_from(ms, 0)
    }
}

/// Decides a test once the compiler has run: `stderr` is `None` when the
/// compilation succeeded, which is a failure of its own.
pub fn outcome(annotations: LineMap<Annotations>, stderr: Option<Stderr>) -> (r: Result<Outcome, Error>)
    ensures
        stderr is None ==> r matches Err(Error::SuccessfulCompilation),
        stderr matches Some(s) ==> match stderr_items(s.text(), s.path()) {
            Err(l) => r matches Err(Error::ParseStderr(x)) && x@ == l,
            Ok(items) => exists|m: Seq<(Line, Messages)>, ms: Mismatches|
                #![trigger messages_map_of(m, items), ms.list(Kind::Error)]
                messages_map_of(m, items) && (forall|k: Kind| #[trigger] ms.list(k) == match_spec(annotations@, m, k)) && (
                r matches Ok(o) && outcome_of(ms, o)),
        },
{
    let stderr = match stderr {
        None => {
            return Err(Error::SuccessfulCompilation);
        },
        Some(s) => s,
    };
    let messages = match stderr.parse() {
        Ok(m) => m,
        Err(e) => {
            return Err(e);
        },
    };
    let ghost mv = messages@;
    let mismatches = match_(annotations, messages);
    if mismatches.get(Kind::Error).is_none() && mismatches.get(Kind::Warning).is_none() {
        Ok(Outcome::Passed)
    } else {
        let ghost ms = mismatches;
        let t = crate::match_::format(mismatches);
        proof {
            assert(outcome_of(ms, Outcome::Failed(t)));
        }
        Ok(Outcome::Failed(t))
    }
}

} // verus!
