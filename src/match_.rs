//! Matching annotations and messages.

use vstd::prelude::*;

pub use crate::text::is_substring;
use crate::text::{
    decimal, decimal_chars, is_substring_spec, lemma_split_concat, lemma_split_one_line, push_chars, push_str, split_lines, string_of,
};
use crate::{kind_word, opt_texts, report_kind, report_kind_at, texts_of, Annotations, Kind, Line, LineMap, Messages, NKINDS};

verus! {

/// Texts of a list of messages.
pub type Texts = Seq<Seq<char>>;

/// What is left of one line and kind after matching: the unmatched expected
/// texts and the unmatched actual texts.
pub type MismatchView = (Texts, Texts);

/// Mismatches per line.
#[derive(Debug)]
pub struct Mismatch {
    /// Annotations that matched no message
    pub annotations: Vec<String>,
    /// Messages that matched no annotation
    pub messages: Vec<String>,
}

/// The texts of a mismatch.
pub open spec fn mismatch_view(m: Mismatch) -> MismatchView {
    (texts_of(m.annotations@), texts_of(m.messages@))
}

/// The texts of an optional mismatch.
pub open spec fn opt_mismatch_view(o: Option<Mismatch>) -> Option<MismatchView> {
    match o {
        Some(m) => Some(mismatch_view(m)),
        None => None,
    }
}

/// First-fit matching from the pair `(i, j)` on: pairs are visited in order,
/// expected index first, and a pair of entries that are both still free is
/// matched when the expected text is contained in the actual one.
pub open spec fn greedy_from(a: Texts, m: Texts, fa: Seq<bool>, fm: Seq<bool>, i: int, j: int) -> (Seq<bool>, Seq<bool>)
    decreases a.len() - i, m.len() - j,
{
    if i < 0 || i >= a.len() {
        (fa, fm)
    } else if j < 0 || j >= m.len() {
        greedy_from(a, m, fa, fm, i + 1, 0)
    } else if !fa[i] && !fm[j] && is_substring_spec(a[i], m[j]) {
        greedy_from(a, m, fa.update(i, true), fm.update(j, true), i, j + 1)
    } else {
        greedy_from(a, m, fa, fm, i, j + 1)
    }
}

/// `n` flags, all unset.
pub open spec fn unset(n: int) -> Seq<bool> {
    Seq::new(n as nat, |i: int| false)
}

/// The matched flags of the expected and of the actual texts.
pub open spec fn greedy(a: Texts, m: Texts) -> (Seq<bool>, Seq<bool>) {
    greedy_from(a, m, unset(a.len() as int), unset(m.len() as int), 0, 0)
}

/// The entries among the first `n` of `s` whose flag is unset, in order.
pub open spec fn kept(s: Texts, f: Seq<bool>, n: int) -> Texts
    decreases n,
{
    if n <= 0 {
        seq![]
    } else if f[n - 1] {
        kept(s, f, n - 1)
    } else {
        kept(s, f, n - 1).push(s[n - 1])
    }
}

/// Matching a list of expected texts against a list of actual texts: `None`
/// when every entry on both sides found its counterpart, otherwise the
/// unmatched entries of each side, in their order.
pub open spec fn compare_spec(a: Texts, m: Texts) -> Option<MismatchView> {
    let (fa, fm) = greedy(a, m);
    let ua = kept(a, fa, a.len() as int);
    let um = kept(m, fm, m.len() as int);
    if ua.len() == 0 && um.len() == 0 {
        None
    } else {
        Some((ua, um))
    }
}

/// Matching one line and kind, where either side may be absent.
pub open spec fn compare_opt_spec(a: Option<Texts>, m: Option<Texts>) -> Option<MismatchView> {
    match (a, m) {
        (None, None) => None,
        (Some(a), None) => Some((a, seq![])),
        (None, Some(m)) => Some((seq![], m)),
        (Some(a), Some(m)) => compare_spec(a, m),
    }
}

/// One column of a line map: each line with its texts of one kind.
pub type Column = Seq<(u32, Option<Texts>)>;

/// The column of kind `k` of an annotation map.
pub open spec fn ann_column(a: Seq<(Line, Annotations)>, k: Kind) -> Column {
    a.map_values(|e: (Line, Annotations)| (e.0.0, e.1.texts(k)))
}

/// The column of kind `k` of a message map.
pub open spec fn msg_column(m: Seq<(Line, Messages)>, k: Kind) -> Column {
    m.map_values(|e: (Line, Messages)| (e.0.0, e.1.texts(k)))
}

/// A mismatch on line `ln`, if there is one, as a list of zero or one entries.
pub open spec fn entry(ln: u32, o: Option<MismatchView>) -> Seq<(u32, MismatchView)> {
    match o {
        Some(x) => seq![(ln, x)],
        None => seq![],
    }
}

/// Merge-join of two columns from positions `i` and `j` on: the smaller line
/// goes first, and a line present on both sides is matched across them.
pub open spec fn merge_from(a: Column, m: Column, i: int, j: int) -> Seq<(u32, MismatchView)>
    decreases a.len() - i + m.len() - j,
{
    if i < 0 || j < 0 || i > a.len() || j > m.len() || (i == a.len() && j == m.len()) {
        seq![]
    } else if i >= a.len() || (j < m.len() && m[j].0 < a[i].0) {
        entry(m[j].0, compare_opt_spec(None, m[j].1)) + merge_from(a, m, i, j + 1)
    } else if j >= m.len() || a[i].0 < m[j].0 {
        entry(a[i].0, compare_opt_spec(a[i].1, None)) + merge_from(a, m, i + 1, j)
    } else {
        entry(a[i].0, compare_opt_spec(a[i].1, m[j].1)) + merge_from(a, m, i + 1, j + 1)
    }
}

/// The mismatches of kind `k` between two line maps, by ascending line.
pub open spec fn match_spec(a: Seq<(Line, Annotations)>, m: Seq<(Line, Messages)>, k: Kind) -> Seq<(u32, MismatchView)> {
    merge_from(ann_column(a, k), msg_column(m, k), 0, 0)
}

/// The line numbers and texts of a list of mismatches.
pub open spec fn entries_view(s: Seq<(Line, Mismatch)>) -> Seq<(u32, MismatchView)> {
    s.map_values(|e: (Line, Mismatch)| (e.0.0, mismatch_view(e.1)))
}

/// Mismatches for every compiler message kind.
#[derive(Debug)]
pub struct Mismatches {
    error: Vec<(Line, Mismatch)>,
    help: Vec<(Line, Mismatch)>,
    note: Vec<(Line, Mismatch)>,
    warning: Vec<(Line, Mismatch)>,
}

impl Mismatches {
    /// The mismatches of kind `k`, by line.
    pub closed spec fn list(&self, k: Kind) -> Seq<(u32, MismatchView)> {
        match k {
            Kind::Error => entries_view(self.error@),
            Kind::Help => entries_view(self.help@),
            Kind::Note => entries_view(self.note@),
            Kind::Warning => entries_view(self.warning@),
        }
    }

    fn new() -> (r: Mismatches)
        ensures
            forall|k: Kind| #[trigger] r.list(k) == Seq::<(u32, MismatchView)>::empty(),
    {
        let r = Mismatches { error: Vec::new(), help: Vec::new(), note: Vec::new(), warning: Vec::new() };
        proof {
            assert forall|k: Kind| #[trigger] r.list(k) == Seq::<(u32, MismatchView)>::empty() by {
                assert(entries_view(r.error@) =~= Seq::<(u32, MismatchView)>::empty());
                assert(entries_view(r.help@) =~= Seq::<(u32, MismatchView)>::empty());
                assert(entries_view(r.note@) =~= Seq::<(u32, MismatchView)>::empty());
                assert(entries_view(r.warning@) =~= Seq::<(u32, MismatchView)>::empty());
            }
        }
        r
    }

    /// Returns the mismatches for this kind of compiler message, if any.
    pub fn get(&self, kind: Kind) -> (r: Option<&[(Line, Mismatch)]>)
        ensures
            r is None <==> self.list(kind).len() == 0,
            r matches Some(s) ==> entries_view(s@) == self.list(kind),
    {
        let v = match kind {
            Kind::Error => &self.error,
            Kind::Help => &self.help,
            Kind::Note => &self.note,
            Kind::Warning => &self.warning,
        };
        if v.len() == 0 {
            None
        } else {
            Some(v.as_slice())
        }
    }

    fn insert(&mut self, kind: Kind, line: Line, mismatch: Mismatch)
        ensures
            final(self).list(kind) == old(self).list(kind).push((line.0, mismatch_view(mismatch))),
            forall|k: Kind| k != kind ==> #[trigger] final(self).list(k) == old(self).list(k),
    {
        let ghost mv = (line.0, mismatch_view(mismatch));
        match kind {
            Kind::Error => {
                self.error.push((line, mismatch));
                proof { assert(entries_view(self.error@) =~= entries_view(old(self).error@).push(mv)); }
            },
            Kind::Help => {
                self.help.push((line, mismatch));
                proof { assert(entries_view(self.help@) =~= entries_view(old(self).help@).push(mv)); }
            },
            Kind::Note => {
                self.note.push((line, mismatch));
                proof { assert(entries_view(self.note@) =~= entries_view(old(self).note@).push(mv)); }
            },
            Kind::Warning => {
                self.warning.push((line, mismatch));
                proof { assert(entries_view(self.warning@) =~= entries_view(old(self).warning@).push(mv)); }
            },
        }
    }

    /// Matches one line and kind and records what is left, if anything.
    fn push_pair(&mut self, line: Line, kind: Kind, anns: Option<Vec<String>>, msgs: Option<Vec<String>>)
        ensures
            final(self).list(kind) == old(self).list(kind) + entry(line.0, compare_opt_spec(opt_texts(anns), opt_texts(msgs))),
            forall|k: Kind| k != kind ==> #[trigger] final(self).list(k) == old(self).list(k),
    {
        let r = compare_opt(anns, msgs);
        match r {
            Some(mismatch) => {
                self.insert(kind, line, mismatch);
            },
            None => {},
        }
        proof {
            assert(final(self).list(kind) =~= old(self).list(kind) + entry(line.0, compare_opt_spec(opt_texts(anns), opt_texts(msgs))));
        }
    }

    /// Records the annotations of a line that has no messages.
    fn push_anns(&mut self, line: Line, anns: Annotations)
        ensures
            forall|k: Kind| #[trigger] final(self).list(k) == old(self).list(k) + entry(line.0, compare_opt_spec(anns.texts(k), None)),
    {
        let mut anns = anns;
        let ghost orig = anns;
        self.push_pair(line, Kind::Error, anns.take(Kind::Error), None);
        self.push_pair(line, Kind::Warning, anns.take(Kind::Warning), None);
        self.push_pair(line, Kind::Help, anns.take(Kind::Help), None);
        self.push_pair(line, Kind::Note, anns.take(Kind::Note), None);
        proof {
            assert forall|k: Kind| #[trigger] final(self).list(k) == old(self).list(k) + entry(line.0, compare_opt_spec(orig.texts(k), None)) by {
                match k {
                    Kind::Error => {},
                    Kind::Warning => {},
                    Kind::Help => {},
                    Kind::Note => {},
                }
            }
        }
    }

    /// Records the messages of a line that has no annotations.
    fn push_msgs(&mut self, line: Line, msgs: Messages)
        ensures
            forall|k: Kind| #[trigger] final(self).list(k) == old(self).list(k) + entry(line.0, compare_opt_spec(None, msgs.texts(k))),
    {
        let mut msgs = msgs;
        let ghost orig = msgs;
        self.push_pair(line, Kind::Error, None, msgs.take(Kind::Error));
        self.push_pair(line, Kind::Warning, None, msgs.take(Kind::Warning));
        self.push_pair(line, Kind::Help, None, msgs.take(Kind::Help));
        self.push_pair(line, Kind::Note, None, msgs.take(Kind::Note));
        proof {
            assert forall|k: Kind| #[trigger] final(self).list(k) == old(self).list(k) + entry(line.0, compare_opt_spec(None, orig.texts(k))) by {
                match k {
                    Kind::Error => {},
                    Kind::Warning => {},
                    Kind::Help => {},
                    Kind::Note => {},
                }
            }
        }
    }

    /// Matches the annotations and messages of one line, kind by kind.
    fn push_both(&mut self, line: Line, anns: Annotations, msgs: Messages)
        ensures
            forall|k: Kind| #[trigger] final(self).list(k) == old(self).list(k) + entry(line.0, compare_opt_spec(anns.texts(k), msgs.texts(k))),
    {
        let mut anns = anns;
        let mut msgs = msgs;
        let ghost oa = anns;
        let ghost om = msgs;
        self.push_pair(line, Kind::Error, anns.take(Kind::Error), msgs.take(Kind::Error));
        self.push_pair(line, Kind::Warning, anns.take(Kind::Warning), msgs.take(Kind::Warning));
        self.push_pair(line, Kind::Help, anns.take(Kind::Help), msgs.take(Kind::Help));
        self.push_pair(line, Kind::Note, anns.take(Kind::Note), msgs.take(Kind::Note));
        proof {
            assert forall|k: Kind| #[trigger] final(self).list(k) == old(self).list(k) + entry(line.0, compare_opt_spec(oa.texts(k), om.texts(k))) by {
                match k {
                    Kind::Error => {},
                    Kind::Warning => {},
                    Kind::Help => {},
                    Kind::Note => {},
                }
            }
        }
    }
}

/// Finds the mismatches between the `cfail` annotations and the compiler
/// messages: a merge-join of the two maps by line.
pub fn match_(anns: LineMap<Annotations>, msgs: LineMap<Messages>) -> (r: Mismatches)
    ensures
        forall|k: Kind| #[trigger] r.list(k) == match_spec(anns@, msgs@, k),
{
    let ghost a0 = anns@;
    let ghost m0 = msgs@;
    let mut anns = anns;
    let mut msgs = msgs;
    let mut mismatches = Mismatches::new();
    let ghost mut i: int = 0;
    let ghost mut j: int = 0;
    proof {
        assert forall|k: Kind| #[trigger] mismatches.list(k) + merge_from(ann_column(a0, k), msg_column(m0, k), i, j)
            == match_spec(a0, m0, k) by {
            assert(mismatches.list(k) + merge_from(ann_column(a0, k), msg_column(m0, k), i, j)
                =~= merge_from(ann_column(a0, k), msg_column(m0, k), i, j));
        }
    }
    while anns.len() > 0 || msgs.len() > 0
        invariant
            0 <= i <= a0.len(),
            0 <= j <= m0.len(),
            anns@ == a0.subrange(i, a0.len() as int),
            msgs@ == m0.subrange(j, m0.len() as int),
            forall|k: Kind| #[trigger] mismatches.list(k) + merge_from(ann_column(a0, k), msg_column(m0, k), i, j)
                == match_spec(a0, m0, k),
        decreases anns@.len() + msgs@.len(),
    {
        let ghost before = mismatches;
        let take_anns: bool;
        let take_msgs: bool;
        if anns.len() == 0 {
            take_anns = false;
            take_msgs = true;
        } else if msgs.len() == 0 {
            take_anns = true;
            take_msgs = false;
        } else if msgs[0].0.0 < anns[0].0.0 {
            take_anns = false;
            take_msgs = true;
        } else if anns[0].0.0 < msgs[0].0.0 {
            take_anns = true;
            take_msgs = false;
        } else {
            take_anns = true;
            take_msgs = true;
        }
        if take_anns && take_msgs {
            let (line, a) = anns.remove(0);
            let (_, m) = msgs.remove(0);
            mismatches.push_both(line, a, m);
        } else if take_anns {
            let (line, a) = anns.remove(0);
            mismatches.push_anns(line, a);
        } else {
            let (line, m) = msgs.remove(0);
            mismatches.push_msgs(line, m);
        }
        proof {
            assert forall|k: Kind| #[trigger] mismatches.list(k) + merge_from(ann_column(a0, k), msg_column(m0, k),
                if take_anns { i + 1 } else { i }, if take_msgs { j + 1 } else { j }) == match_spec(a0, m0, k) by {
                let ca = ann_column(a0, k);
                let cm = msg_column(m0, k);
                let ni = if take_anns { i + 1 } else { i };
                let nj = if take_msgs { j + 1 } else { j };
                assert(merge_from(ca, cm, i, j) == merge_from(ca, cm, i, j).subrange(0, 0) + merge_from(ca, cm, i, j));
                if take_anns && take_msgs {
                    assert(merge_from(ca, cm, i, j) == entry(ca[i].0, compare_opt_spec(ca[i].1, cm[j].1)) + merge_from(ca, cm, ni, nj));
                } else if take_anns {
                    assert(merge_from(ca, cm, i, j) == entry(ca[i].0, compare_opt_spec(ca[i].1, None)) + merge_from(ca, cm, ni, nj));
                } else {
                    assert(merge_from(ca, cm, i, j) == entry(cm[j].0, compare_opt_spec(None, cm[j].1)) + merge_from(ca, cm, ni, nj));
                }
                assert(mismatches.list(k) + merge_from(ca, cm, ni, nj) =~= before.list(k) + merge_from(ca, cm, i, j));
            }
            if take_anns {
                i = i + 1;
            }
            if take_msgs {
                j = j + 1;
            }
        }
    }
    proof {
        assert forall|k: Kind| #[trigger] mismatches.list(k) == match_spec(a0, m0, k) by {
            assert(mismatches.list(k) + merge_from(ann_column(a0, k), msg_column(m0, k), i, j) =~= mismatches.list(k));
        }
    }
    mismatches
}

/// Matches one line and kind, where either side may be absent.
pub fn compare_opt(anns: Option<Vec<String>>, msgs: Option<Vec<String>>) -> (r: Option<Mismatch>)
    ensures
        opt_mismatch_view(r) == compare_opt_spec(opt_texts(anns), opt_texts(msgs)),
{
    match (anns, msgs) {
        (None, None) => None,
        (Some(anns), None) => {
            let r = Mismatch { annotations: anns, messages: Vec::new() };
            proof { assert(texts_of(r.messages@) =~= Seq::<Seq<char>>::empty()); }
            Some(r)
        },
        (None, Some(msgs)) => {
            let r = Mismatch { annotations: Vec::new(), messages: msgs };
            proof { assert(texts_of(r.annotations@) =~= Seq::<Seq<char>>::empty()); }
            Some(r)
        },
        (Some(anns), Some(msgs)) => compare(anns, msgs),
    }
}

/// `n` unset flags.
fn unset_flags(n: usize) -> (r: Vec<bool>)
    ensures
        r@ == unset(n as int),
{
    let mut r: Vec<bool> = Vec::new();
    let mut i: usize = 0;
    while i < n
        invariant
            i <= n,
            r@ == unset(i as int),
        decreases n - i,
    {
        r.push(false);
        proof { assert(r@ =~= unset(i + 1)); }
        i = i + 1;
    }
    r
}

/// The entries of `v` whose flag is unset, in order.
fn unflagged(v: &Vec<String>, f: &Vec<bool>) -> (r: Vec<String>)
    requires
        f@.len() == v@.len(),
    ensures
        texts_of(r@) == kept(texts_of(v@), f@, v@.len() as int),
{
    let mut r: Vec<String> = Vec::new();
    let mut i: usize = 0;
    while i < v.len()
        invariant
            i <= v@.len(),
            f@.len() == v@.len(),
            texts_of(r@) == kept(texts_of(v@), f@, i as int),
        decreases v@.len() - i,
    {
        if !f[i] {
            let s = v[i].clone();
            r.push(s);
            proof { assert(texts_of(r@) =~= kept(texts_of(v@), f@, i as int).push(s@)); }
        }
        i = i + 1;
    }
    r
}

/// Matches a list of expected texts against a list of actual texts, first
/// fit in order; returns the unmatched entries of both sides, if any.
pub fn compare(anns: Vec<String>, msgs: Vec<String>) -> (r: Option<Mismatch>)
    ensures
        opt_mismatch_view(r) == compare_spec(texts_of(anns@), texts_of(msgs@)),
{
    let ghost a = texts_of(anns@);
    let ghost m = texts_of(msgs@);
    let mut matched_anns = unset_flags(anns.len());
    let mut matched_msgs = unset_flags(msgs.len());
    let mut i: usize = 0;
    while i < anns.len()
        invariant
            a == texts_of(anns@),
            m == texts_of(msgs@),
            i <= anns@.len(),
            matched_anns@.len() == anns@.len(),
            matched_msgs@.len() == msgs@.len(),
            greedy_from(a, m, matched_anns@, matched_msgs@, i as int, 0) == greedy(a, m),
        decreases anns@.len() - i,
    {
        let mut j: usize = 0;
        while j < msgs.len()
            invariant
                a == texts_of(anns@),
                m == texts_of(msgs@),
                i < anns@.len(),
                j <= msgs@.len(),
                matched_anns@.len() == anns@.len(),
                matched_msgs@.len() == msgs@.len(),
                greedy_from(a, m, matched_anns@, matched_msgs@, i as int, j as int) == greedy(a, m),
            decreases msgs@.len() - j,
        {
            if !matched_anns[i] && !matched_msgs[j] && is_substring(anns[i].as_str(), msgs[j].as_str()) {
                matched_anns.set(i, true);
                matched_msgs.set(j, true);
            }
            j = j + 1;
        }
        i = i + 1;
    }
    let unmatched_anns = unflagged(&anns, &matched_anns);
    let unmatched_msgs = unflagged(&msgs, &matched_msgs);
    if unmatched_anns.len() == 0 && unmatched_msgs.len() == 0 {
        None
    } else {
        Some(Mismatch { annotations: unmatched_anns, messages: unmatched_msgs })
    }
}

/// The form of a text that `{:?}` prints: quoted, with escapes.
pub uninterp spec fn debug_of(s: Seq<char>) -> Seq<char>;

/// Relies on `Debug` for `str`: the text quoted and escaped, as `{:?}` prints it.
#[verifier::external_body]
fn quoted(s: &str) -> (r: String)
    ensures
        r@ == debug_of(s@),
{
    format!("{:?}", s)
}

/// One line per entry of `q`: `prefix`, the entry, a newline.
pub open spec fn prefixed_lines(prefix: Seq<char>, q: Texts) -> Seq<char>
    decreases q.len(),
{
    if q.len() == 0 {
        seq![]
    } else {
        prefixed_lines(prefix, q.drop_last()) + prefix + q.last() + seq!['\n']
    }
}

/// One line per text: `prefix`, the quoted text, a newline.
pub open spec fn bullets(prefix: Seq<char>, t: Texts) -> Seq<char> {
    prefixed_lines(prefix, t.map_values(|x: Seq<char>| debug_of(x)))
}

/// The bullet lines of a report, from texts already quoted.
pub fn bullet_lines(prefix: &str, quoted: &Vec<String>) -> (r: Vec<char>)
    ensures
        r@ == prefixed_lines(prefix@, texts_of(quoted@)),
{
    let mut buf: Vec<char> = Vec::new();
    let mut i: usize = 0;
    while i < quoted.len()
        invariant
            i <= quoted@.len(),
            buf@ == prefixed_lines(prefix@, texts_of(quoted@.subrange(0, i as int))),
        decreases quoted@.len() - i,
    {
        let ghost before = buf@;
        push_str(&mut buf, prefix);
        push_str(&mut buf, quoted[i].as_str());
        buf.push('\n');
        proof {
            let t = texts_of(quoted@.subrange(0, i + 1));
            assert(t.drop_last() =~= texts_of(quoted@.subrange(0, i as int)));
            assert(t.last() == quoted@[i as int]@);
            assert(buf@ =~= prefixed_lines(prefix@, t));
        }
        i = i + 1;
    }
    proof {
        assert(quoted@.subrange(0, quoted@.len() as int) =~= quoted@);
    }
    buf
}

/// The report of one mismatch of kind `k` on line `ln`.
pub open spec fn render_entry(k: Kind, ln: u32, mv: MismatchView) -> Seq<char> {
    if mv.0.len() == 0 {
        decimal(ln as nat) + ": unmatched "@ + kind_word(k) + " messages\n"@ + bullets(" "@, mv.1)
    } else if mv.1.len() == 0 {
        decimal(ln as nat) + ": unmatched "@ + kind_word(k) + " annotations\n"@ + bullets(" "@, mv.0)
    } else {
        decimal(ln as nat) + ": mismatched "@ + kind_word(k) + " annotations\n"@ + bullets(" expected: "@, mv.0)
            + bullets("    found: "@, mv.1)
    }
}

/// The report of a list of mismatches of kind `k`, in order.
pub open spec fn render_list(k: Kind, s: Seq<(u32, MismatchView)>) -> Seq<char>
    decreases s.len(),
{
    if s.len() == 0 {
        seq![]
    } else {
        render_list(k, s.drop_last()) + render_entry(k, s.last().0, s.last().1)
    }
}

/// The reports of the kinds in report order, from the `i`-th on.
pub open spec fn render_from(ms: Mismatches, i: int) -> Seq<char>
    decreases 4 - i,
{
    if i < 0 || i >= 4 {
        seq![]
    } else {
        render_list(report_kind(i), ms.list(report_kind(i))) + render_from(ms, i + 1)
    }
}

/// Appends one quoted line per text.
fn push_bullets(buf: &mut Vec<char>, prefix: &str, texts: &Vec<String>)
    ensures
        final(buf)@ == old(buf)@ + bullets(prefix@, texts_of(texts@)),
{
    let mut quoted_texts: Vec<String> = Vec::new();
    let mut i: usize = 0;
    while i < texts.len()
        invariant
            i <= texts@.len(),
            texts_of(quoted_texts@) == texts_of(texts@.subrange(0, i as int)).map_values(|x: Seq<char>| debug_of(x)),
        decreases texts@.len() - i,
    {
        let q = quoted(texts[i].as_str());
        let ghost before = texts_of(quoted_texts@);
        quoted_texts.push(q);
        proof {
            assert(texts_of(quoted_texts@) =~= before.push(q@));
            assert(texts_of(texts@.subrange(0, i + 1)) =~= texts_of(texts@.subrange(0, i as int)).push(texts@[i as int]@));
            assert(texts_of(texts@.subrange(0, i + 1)).map_values(|x: Seq<char>| debug_of(x)) =~= texts_of(
                texts@.subrange(0, i as int),
            ).map_values(|x: Seq<char>| debug_of(x)).push(debug_of(texts@[i as int]@)));
        }
        i = i + 1;
    }
    proof {
        assert(texts@.subrange(0, texts@.len() as int) =~= texts@);
    }
    let lines = bullet_lines(prefix, &quoted_texts);
    push_chars(buf, &lines);
}

/// Appends the report of one mismatch.
fn push_entry(buf: &mut Vec<char>, kind: Kind, line: Line, m: &Mismatch)
    ensures
        final(buf)@ == old(buf)@ + render_entry(kind, line.0, mismatch_view(*m)),
{
    let ghost b0 = buf@;
    let num = decimal_chars(line.0 as usize);
    push_chars(buf, &num);
    if m.annotations.len() == 0 {
        push_str(buf, ": unmatched ");
        push_chars(buf, &kind.needle());
        push_str(buf, " messages\n");
        push_bullets(buf, " ", &m.messages);
    } else if m.messages.len() == 0 {
        push_str(buf, ": unmatched ");
        push_chars(buf, &kind.needle());
        push_str(buf, " annotations\n");
        push_bullets(buf, " ", &m.annotations);
    } else {
        push_str(buf, ": mismatched ");
        push_chars(buf, &kind.needle());
        push_str(buf, " annotations\n");
        push_bullets(buf, " expected: ", &m.annotations);
        push_bullets(buf, "    found: ", &m.messages);
    }
    proof {
        assert(buf@ =~= b0 + render_entry(kind, line.0, mismatch_view(*m)));
    }
}

/// Formats all the mismatches: kinds in report order (error, warning, help,
/// note), each by ascending line.
pub fn format(mismatches: Mismatches) -> (r: String)
    ensures
        r@ == render_from(mismatches, 0),
{
    let mut buf: Vec<char> = Vec::new();
    let mut q: usize = 0;
    while q < NKINDS
        invariant
            q <= 4,
            buf@ + render_from(mismatches, q as int) == render_from(mismatches, 0),
        decreases 4 - q,
    {
        let kind = report_kind_at(q);
        let ghost b0 = buf@;
        match mismatches.get(kind) {
            Some(list) => {
                let mut n: usize = 0;
                while n < list.len()
                    invariant
                        n <= list@.len(),
                        entries_view(list@) == mismatches.list(kind),
                        buf@ == b0 + render_list(kind, entries_view(list@.subrange(0, n as int))),
                    decreases list@.len() - n,
                {
                    push_entry(&mut buf, kind, list[n].0, &list[n].1);
                    proof {
                        let s = entries_view(list@.subrange(0, n + 1));
                        assert(s.drop_last() =~= entries_view(list@.subrange(0, n as int)));
                    }
                    n = n + 1;
                }
                proof { assert(list@.subrange(0, list@.len() as int) =~= list@); }
            },
            None => {},
        }
        proof {
            assert(buf@ == b0 + render_list(kind, mismatches.list(kind)));
            assert(render_from(mismatches, q as int) == render_list(kind, mismatches.list(kind)) + render_from(mismatches, q + 1));
            assert(buf@ + render_from(mismatches, q + 1) =~= b0 + render_from(mismatches, q as int));
        }
        q = q + 1;
    }
    string_of(buf.as_slice())
}

/// Matching is a function of the two maps: two runs on the same maps give the
/// same mismatches, kind by kind, and the same report.
pub proof fn law_match_repeatable(a: Seq<(Line, Annotations)>, m: Seq<(Line, Messages)>, r1: Mismatches, r2: Mismatches)
    requires
        forall|k: Kind| #[trigger] r1.list(k) == match_spec(a, m, k),
        forall|k: Kind| #[trigger] r2.list(k) == match_spec(a, m, k),
    ensures
        forall|k: Kind| #[trigger] r1.list(k) == r2.list(k),
        render_from(r1, 0) == render_from(r2, 0),
{
    assert(r1.list(Kind::Error) == r2.list(Kind::Error));
    assert(r1.list(Kind::Warning) == r2.list(Kind::Warning));
    assert(r1.list(Kind::Help) == r2.list(Kind::Help));
    assert(r1.list(Kind::Note) == r2.list(Kind::Note));
    assert(render_from(r1, 4) == render_from(r2, 4));
    assert(render_from(r1, 3) == render_from(r2, 3));
    assert(render_from(r1, 2) == render_from(r2, 2));
    assert(render_from(r1, 1) == render_from(r2, 1));
}

/// The bullet lines of a report read back: cut at its newlines, the block
/// gives one line per quoted text, in order, and each line without the prefix
/// is that quoted text, wherever neither the prefix nor the quoted texts hold
/// a newline.
pub proof fn law_bullets_read_back(prefix: Seq<char>, q: Texts)
    requires
        forall|k: int| 0 <= k < prefix.len() ==> prefix[k] != '\n',
        forall|i: int, k: int| 0 <= i < q.len() && 0 <= k < q[i].len() ==> #[trigger] q[i][k] != '\n',
    ensures
        split_lines(prefixed_lines(prefix, q)).len() == q.len(),
        forall|i: int| 0 <= i < q.len() ==> #[trigger] split_lines(prefixed_lines(prefix, q))[i] == prefix + q[i],
        forall|i: int| 0 <= i < q.len() ==> #[trigger] split_lines(prefixed_lines(prefix, q))[i].subrange(
            prefix.len() as int,
            (prefix.len() + q[i].len()) as int,
        ) == q[i],
    decreases q.len(),
{
    if q.len() > 0 {
        let rest = q.drop_last();
        law_bullets_read_back(prefix, rest);
        let x = prefixed_lines(prefix, rest);
        let l = prefix + q.last();
        assert(prefixed_lines(prefix, q) =~= x + l.push('\n'));
        if x.len() > 0 {
            assert(x[x.len() - 1] == '\n') by {
                if rest.len() > 0 {
                    assert(x == prefixed_lines(prefix, rest.drop_last()) + prefix + rest.last() + seq!['\n']);
                }
            }
        }
        lemma_split_concat(x, l.push('\n'));
        assert forall|k: int| 0 <= k < l.len() implies l[k] != '\n' by {
            if k >= prefix.len() {
                assert(l[k] == q[q.len() - 1][k - prefix.len()]);
            }
        }
        lemma_split_one_line(l);
        assert forall|i: int| 0 <= i < q.len() implies #[trigger] split_lines(prefixed_lines(prefix, q))[i].subrange(
            prefix.len() as int,
            (prefix.len() + q[i].len()) as int,
        ) == q[i] by {
            if i < rest.len() {
                assert(split_lines(prefixed_lines(prefix, q))[i] == split_lines(x)[i]);
                assert(rest[i] == q[i]);
            }
            assert((prefix + q[i]).subrange(prefix.len() as int, (prefix.len() + q[i].len()) as int) =~= q[i]);
        }
    } else {
        assert(split_lines(Seq::<char>::empty()) =~= Seq::<Seq<char>>::empty());
    }
}

} // verus!
