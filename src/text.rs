//! Text as sequences of characters: lines, substrings and conversions.

use vstd::prelude::*;

verus! {

/// Index of the first `'\n'` at or after `i`, or the length of `s` if there is none.
pub open spec fn line_end(s: Seq<char>, i: int) -> int
    decreases s.len() - i,
{
    if i >= s.len() || s[i] == '\n' {
        i
    } else {
        line_end(s, i + 1)
    }
}

pub proof fn lemma_line_end_bounds(s: Seq<char>, i: int)
    requires
        0 <= i <= s.len(),
    ensures
        i <= line_end(s, i) <= s.len(),
        line_end(s, i) < s.len() ==> s[line_end(s, i)] == '\n',
        forall|k: int| i <= k < line_end(s, i) ==> s[k] != '\n',
    decreases s.len() - i,
{
    if i < s.len() && s[i] != '\n' {
        lemma_line_end_bounds(s, i + 1);
    }
}

/// The lines of `s` from position `i` on: the text is cut at each `'\n'`, which
/// belongs to no line, and a final empty piece is not a line.
pub open spec fn lines_from(s: Seq<char>, i: int) -> Seq<Seq<char>>
    decreases s.len() - i,
    via lines_from_decreases
{
    if i < 0 || i >= s.len() {
        seq![]
    } else {
        let e = line_end(s, i);
        if e >= s.len() {
            seq![s.subrange(i, e)]
        } else {
            seq![s.subrange(i, e)] + lines_from(s, e + 1)
        }
    }
}

#[via_fn]
proof fn lines_from_decreases(s: Seq<char>, i: int) {
    if 0 <= i < s.len() {
        lemma_line_end_bounds(s, i);
    }
}

/// The lines of a text.
pub open spec fn split_lines(s: Seq<char>) -> Seq<Seq<char>> {
    lines_from(s, 0)
}

/// `needle` occurs in `hay` as a contiguous piece.
pub open spec fn contains(hay: Seq<char>, needle: Seq<char>) -> bool {
    exists|p: int| 0 <= p && p + needle.len() <= hay.len() && #[trigger] hay.subrange(p, p + needle.len()) == needle
}

/// `needle` occurs in `hay` at position `p`.
pub open spec fn occurs_at(hay: Seq<char>, needle: Seq<char>, p: int) -> bool {
    0 <= p && p + needle.len() <= hay.len() && hay.subrange(p, p + needle.len()) == needle
}

/// `s` starts with `prefix`.
pub open spec fn starts_with(s: Seq<char>, prefix: Seq<char>) -> bool {
    occurs_at(s, prefix, 0)
}

/// Walking the lines `m` from `j` on, each line that contains line `k` of `a`
/// moves on to the next line of `a`; true when every line of `a` was found.
pub open spec fn ordered_from(a: Seq<Seq<char>>, m: Seq<Seq<char>>, k: int, j: int) -> bool
    decreases m.len() - j,
{
    if k >= a.len() {
        true
    } else if j >= m.len() {
        false
    } else if contains(m[j], a[k]) {
        ordered_from(a, m, k + 1, j + 1)
    } else {
        ordered_from(a, m, k, j + 1)
    }
}

/// Ordered-substring containment: the lines of `ann` are found, in order, each
/// inside its own line of `msg`.
pub open spec fn is_substring_spec(ann: Seq<char>, msg: Seq<char>) -> bool {
    ordered_from(split_lines(ann), split_lines(msg), 0, 0)
}

/// The characters of `s`, in order.
pub fn chars_of(s: &str) -> (r: Vec<char>)
    ensures
        r@ == s@,
{
    let mut r: Vec<char> = Vec::new();
    for c in it: s.chars()
        invariant
            r@ == it.seq().subrange(0, it.index() as int),
    {
        r.push(c);
    }
    r
}

/// Relies on `FromIterator<char>` for `String`: the characters are kept, in order.
#[verifier::external_body]
pub(crate) fn string_of(v: &[char]) -> (r: String)
    ensures
        r@ == v@,
{
    v.iter().collect()
}

/// The characters `v[from..to]` as a `String`.
pub fn string_of_range(v: &Vec<char>, from: usize, to: usize) -> (r: String)
    requires
        from <= to <= v@.len(),
    ensures
        r@ == v@.subrange(from as int, to as int),
{
    let mut piece: Vec<char> = Vec::new();
    let mut i: usize = from;
    while i < to
        invariant
            from <= i <= to <= v@.len(),
            piece@ == v@.subrange(from as int, i as int),
        decreases to - i,
    {
        piece.push(v[i]);
        i = i + 1;
    }
    string_of(piece.as_slice())
}

/// The start and end of each line of `s`, as indices into `s`.
#[verifier::rlimit(40)]
pub fn line_ranges(s: &Vec<char>) -> (r: Vec<(usize, usize)>)
    ensures
        r@.len() == split_lines(s@).len(),
        forall|k: int|
            0 <= k < r@.len() ==> {
                &&& (#[trigger] r@[k]).0 <= r@[k].1 <= s@.len()
                &&& s@.subrange(r@[k].0 as int, r@[k].1 as int) == split_lines(s@)[k]
                &&& r@[k].0 == (if k == 0 { 0 } else { r@[k - 1].1 + 1 })
                &&& r@[k].1 < s@.len() ==> s@[r@[k].1 as int] == '\n'
            },
{
    let mut r: Vec<(usize, usize)> = Vec::new();
    let mut start: usize = 0;
    let mut i: usize = 0;
    let ghost done: Seq<Seq<char>> = seq![];
    while i < s.len()
        invariant
            start <= i <= s@.len(),
            line_end(s@, start as int) == line_end(s@, i as int),
            split_lines(s@) == done + lines_from(s@, start as int),
            r@.len() == done.len(),
            start == (if r@.len() == 0 { 0 } else { r@[r@.len() - 1].1 + 1 }),
            forall|k: int|
                0 <= k < r@.len() ==> {
                    &&& (#[trigger] r@[k]).0 <= r@[k].1 < s@.len()
                    &&& s@.subrange(r@[k].0 as int, r@[k].1 as int) == done[k]
                    &&& r@[k].0 == (if k == 0 { 0 } else { r@[k - 1].1 + 1 })
                    &&& s@[r@[k].1 as int] == '\n'
                },
        decreases s@.len() - i,
    {
        if s[i] == '\n' {
            proof {
                assert(line_end(s@, i as int) == i);
                assert(lines_from(s@, start as int) == seq![s@.subrange(start as int, i as int)]
                    + lines_from(s@, i + 1));
                done = done + seq![s@.subrange(start as int, i as int)];
            }
            r.push((start, i));
            start = i + 1;
        }
        i = i + 1;
    }
    if start < s.len() {
        proof {
            assert(line_end(s@, i as int) == i);
            assert(lines_from(s@, start as int) == seq![s@.subrange(start as int, i as int)]);
            done = done + seq![s@.subrange(start as int, i as int)];
        }
        r.push((start, i));
    } else {
        proof {
            assert(lines_from(s@, start as int) == Seq::<Seq<char>>::empty());
        }
    }
    proof {
        assert(split_lines(s@) =~= done);
    }
    r
}

/// Whether `needle[ns..ne]` occurs in `hay[..hend]` at position `p`.
pub fn matches_at(hay: &Vec<char>, p: usize, hend: usize, needle: &Vec<char>, ns: usize, ne: usize) -> (r: bool)
    requires
        p <= hend <= hay@.len(),
        ns <= ne <= needle@.len(),
    ensures
        r == (p + (ne - ns) <= hend && hay@.subrange(p as int, p + (ne - ns)) == needle@.subrange(
            ns as int,
            ne as int,
        )),
{
    let len = ne - ns;
    if len > hend - p {
        return false;
    }
    let mut k: usize = 0;
    while k < len
        invariant
            p + len <= hend <= hay@.len(),
            ns + len == ne <= needle@.len(),
            k <= len,
            forall|q: int| 0 <= q < k ==> #[trigger] hay@[p + q] == needle@[ns + q],
        decreases len - k,
    {
        if hay[p + k] != needle[ns + k] {
            proof {
                assert(hay@.subrange(p as int, p + len)[k as int] != needle@.subrange(ns as int, ne as int)[k as int]);
            }
            return false;
        }
        k = k + 1;
    }
    proof {
        assert forall|q: int| 0 <= q < len implies #[trigger] hay@.subrange(p as int, p + len)[q]
            == needle@.subrange(ns as int, ne as int)[q] by {
            assert(hay@[p + q] == needle@[ns + q]);
        }
        assert(hay@.subrange(p as int, p + len) =~= needle@.subrange(ns as int, ne as int));
    }
    true
}

/// The first position at which `needle[ns..ne]` occurs in `hay[hs..he]`, if any.
pub fn find_in(hay: &Vec<char>, hs: usize, he: usize, needle: &Vec<char>, ns: usize, ne: usize) -> (r: Option<usize>)
    requires
        hs <= he <= hay@.len(),
        ns <= ne <= needle@.len(),
    ensures
        match r {
            Some(p) => hs <= p && occurs_at(hay@.subrange(hs as int, he as int), needle@.subrange(ns as int, ne as int), p - hs)
                && forall|q: int| 0 <= q < p - hs ==> !occurs_at(hay@.subrange(hs as int, he as int), needle@.subrange(ns as int, ne as int), q),
            None => !contains(hay@.subrange(hs as int, he as int), needle@.subrange(ns as int, ne as int)),
        },
{
    let ghost h = hay@.subrange(hs as int, he as int);
    let ghost n = needle@.subrange(ns as int, ne as int);
    let len = ne - ns;
    if len > he - hs {
        return None;
    }
    let last = he - len;
    let mut p: usize = hs;
    loop
        invariant
            hs <= p <= last,
            last + len == he,
            len == n.len(),
            hs <= he <= hay@.len(),
            ns <= ne <= needle@.len(),
            h == hay@.subrange(hs as int, he as int),
            n == needle@.subrange(ns as int, ne as int),
            forall|q: int| 0 <= q < p - hs ==> !occurs_at(h, n, q),
        ensures
            forall|q: int| 0 <= q <= last - hs ==> !occurs_at(h, n, q),
        decreases last - p,
    {
        let hit = matches_at(hay, p, he, needle, ns, ne);
        proof {
            assert(h.subrange(p - hs, p - hs + n.len()) =~= hay@.subrange(p as int, p + n.len()));
        }
        if hit {
            return Some(p);
        }
        if p == last {
            break;
        }
        p = p + 1;
    }
    proof {
        assert forall|q: int| 0 <= q && q + n.len() <= h.len() implies #[trigger] h.subrange(q, q + n.len()) != n by {
            assert(!occurs_at(h, n, q));
        }
    }
    None
}

/// Is the annotation a substring of the compiler message? Each line of `ann`
/// must be found, in order, inside its own line of `msg`.
pub fn is_substring(ann: &str, msg: &str) -> (r: bool)
    ensures
        r == is_substring_spec(ann@, msg@),
{
    let a = chars_of(ann);
    let m = chars_of(msg);
    let a_lines = line_ranges(&a);
    let m_lines = line_ranges(&m);
    let ghost al = split_lines(a@);
    let ghost ml = split_lines(m@);
    let mut k: usize = 0;
    let mut j: usize = 0;
    while j < m_lines.len()
        invariant
            k <= a_lines@.len(),
            j <= m_lines@.len(),
            al == split_lines(a@),
            ml == split_lines(m@),
            a_lines@.len() == al.len(),
            m_lines@.len() == ml.len(),
            forall|i: int| 0 <= i < a_lines@.len() ==> {
                &&& (#[trigger] a_lines@[i]).0 <= a_lines@[i].1 <= a@.len()
                &&& a@.subrange(a_lines@[i].0 as int, a_lines@[i].1 as int) == al[i]
            },
            forall|i: int| 0 <= i < m_lines@.len() ==> {
                &&& (#[trigger] m_lines@[i]).0 <= m_lines@[i].1 <= m@.len()
                &&& m@.subrange(m_lines@[i].0 as int, m_lines@[i].1 as int) == ml[i]
            },
            ordered_from(al, ml, k as int, j as int) == is_substring_spec(ann@, msg@),
        decreases m_lines@.len() - j,
    {
        if k >= a_lines.len() {
            return true;
        }
        let (ms, me) = m_lines[j];
        let (as_, ae) = a_lines[k];
        let found = find_in(&m, ms, me, &a, as_, ae);
        if found.is_some() {
            proof {
                let p = found.unwrap() - ms;
                assert(ml[j as int].subrange(p, p + al[k as int].len()) == al[k as int]);
            }
            k = k + 1;
        }
        j = j + 1;
    }
    k >= a_lines.len()
}

/// Appends the characters of `s` to `buf`.
pub fn push_str(buf: &mut Vec<char>, s: &str)
    ensures
        final(buf)@ == old(buf)@ + s@,
{
    let c = chars_of(s);
    let mut i: usize = 0;
    while i < c.len()
        invariant
            i <= c@.len(),
            c@ == s@,
            buf@ == old(buf)@ + s@.subrange(0, i as int),
        decreases c@.len() - i,
    {
        buf.push(c[i]);
        proof { assert(buf@ =~= old(buf)@ + s@.subrange(0, i + 1)); }
        i = i + 1;
    }
    proof { assert(s@.subrange(0, s@.len() as int) =~= s@); }
}

/// Appends the characters of `v` to `buf`.
pub fn push_chars(buf: &mut Vec<char>, v: &Vec<char>)
    ensures
        final(buf)@ == old(buf)@ + v@,
{
    let mut i: usize = 0;
    while i < v.len()
        invariant
            i <= v@.len(),
            buf@ == old(buf)@ + v@.subrange(0, i as int),
        decreases v@.len() - i,
    {
        buf.push(v[i]);
        proof { assert(buf@ =~= old(buf)@ + v@.subrange(0, i + 1)); }
        i = i + 1;
    }
    proof { assert(v@.subrange(0, v@.len() as int) =~= v@); }
}

/// The decimal digit for `d`.
pub open spec fn digit_char(d: nat) -> char {
    if d == 0 { '0' } else if d == 1 { '1' } else if d == 2 { '2' } else if d == 3 { '3' } else if d == 4 { '4' }
    else if d == 5 { '5' } else if d == 6 { '6' } else if d == 7 { '7' } else if d == 8 { '8' } else { '9' }
}

/// The decimal numeral of `n`, without leading zeros.
pub open spec fn decimal(n: nat) -> Seq<char>
    decreases n,
{
    if n < 10 {
        seq![digit_char(n)]
    } else {
        decimal(n / 10).push(digit_char(n % 10))
    }
}

fn digit(d: usize) -> (c: char)
    requires
        d < 10,
    ensures
        c == digit_char(d as nat),
{
    if d == 0 { '0' } else if d == 1 { '1' } else if d == 2 { '2' } else if d == 3 { '3' } else if d == 4 { '4' }
    else if d == 5 { '5' } else if d == 6 { '6' } else if d == 7 { '7' } else if d == 8 { '8' } else { '9' }
}

/// The decimal numeral of `n`.
pub fn decimal_chars(n: usize) -> (r: Vec<char>)
    ensures
        r@ == decimal(n as nat),
    decreases n,
{
    if n < 10 {
        vec![digit(n)]
    } else {
        let mut r = decimal_chars(n / 10);
        r.push(digit(n % 10));
        r
    }
}

/// Number of bytes of `c` in UTF-8.
pub open spec fn char_bytes(c: char) -> nat {
    if (c as u32) < 0x80 {
        1
    } else if (c as u32) < 0x800 {
        2
    } else if (c as u32) < 0x10000 {
        3
    } else {
        4
    }
}

/// Number of bytes of `s` in UTF-8.
pub open spec fn byte_len(s: Seq<char>) -> nat
    decreases s.len(),
{
    if s.len() == 0 {
        0
    } else {
        char_bytes(s[0]) + byte_len(s.drop_first())
    }
}

pub proof fn lemma_byte_len_push(s: Seq<char>, c: char)
    ensures
        byte_len(s.push(c)) == byte_len(s) + char_bytes(c),
    decreases s.len(),
{
    if s.len() > 0 {
        assert(s.push(c).drop_first() =~= s.drop_first().push(c));
        assert(s.push(c)[0] == s[0]);
        lemma_byte_len_push(s.drop_first(), c);
    } else {
        assert(s.push(c).drop_first() =~= Seq::<char>::empty());
        assert(s.push(c)[0] == c);
        assert(byte_len(Seq::<char>::empty()) == 0);
    }
}

/// Each character takes at most four bytes.
pub proof fn lemma_byte_len_le(s: Seq<char>)
    ensures
        byte_len(s) <= 4 * s.len(),
    decreases s.len(),
{
    if s.len() > 0 {
        lemma_byte_len_le(s.drop_first());
    }
}

/// Number of bytes of `c` in UTF-8.
pub fn utf8_len(c: char) -> (r: usize)
    ensures
        r == char_bytes(c),
{
    let n = c as u32;
    if n < 0x80 {
        1
    } else if n < 0x800 {
        2
    } else if n < 0x10000 {
        3
    } else {
        4
    }
}

/// `n`, or `usize::MAX` where `n` is larger.
pub open spec fn sat(n: nat) -> usize {
    if n > usize::MAX {
        usize::MAX
    } else {
        n as usize
    }
}

/// The byte position of the character at index `i` of `v` (saturating at
/// `usize::MAX`, which no text held in memory reaches).
pub fn byte_pos(v: &Vec<char>, i: usize) -> (r: usize)
    requires
        i <= v@.len(),
    ensures
        r == sat(byte_len(v@.subrange(0, i as int))),
{
    let mut n: usize = 0;
    let mut k: usize = 0;
    while k < i
        invariant
            k <= i <= v@.len(),
            n == sat(byte_len(v@.subrange(0, k as int))),
        decreases i - k,
    {
        proof {
            assert(v@.subrange(0, k + 1) =~= v@.subrange(0, k as int).push(v@[k as int]));
            lemma_byte_len_push(v@.subrange(0, k as int), v@[k as int]);
        }
        let b = utf8_len(v[k]);
        if n > usize::MAX - b {
            n = usize::MAX;
        } else {
            n = n + b;
        }
        k = k + 1;
    }
    n
}

/// The line ranges of `s` are those of its lines.
#[verifier::opaque]
pub open spec fn ranges_of(s: Seq<char>, r: Seq<(usize, usize)>) -> bool {
    &&& r.len() == split_lines(s).len()
    &&& forall|k: int|
        0 <= k < r.len() ==> {
            &&& (#[trigger] r[k]).0 <= r[k].1 <= s.len()
            &&& s.subrange(r[k].0 as int, r[k].1 as int) == split_lines(s)[k]
            &&& r[k].0 == (if k == 0 { 0 } else { r[k - 1].1 + 1 })
            &&& r[k].1 < s.len() ==> s[r[k].1 as int] == '\n'
        }
}

/// What `ranges_of` says of line `k`.
pub proof fn lemma_range_at(s: Seq<char>, r: Seq<(usize, usize)>, k: int)
    requires
        ranges_of(s, r),
        0 <= k < r.len(),
    ensures
        r.len() == split_lines(s).len(),
        r[k].0 <= r[k].1 <= s.len(),
        s.subrange(r[k].0 as int, r[k].1 as int) == split_lines(s)[k],
        r[k].0 == (if k == 0 { 0 } else { r[k - 1].1 + 1 }),
        r[k].1 < s.len() ==> s[r[k].1 as int] == '\n',
{
    reveal(ranges_of);
}

/// Ordered-substring containment sees the actual text only through its
/// lines: two texts with the same lines give the same answer for every
/// expected text.
pub proof fn law_substring_by_lines(e: Seq<char>, a1: Seq<char>, a2: Seq<char>)
    requires
        split_lines(a1) == split_lines(a2),
    ensures
        is_substring_spec(e, a1) == is_substring_spec(e, a2),
{
}

proof fn lemma_line_end_shift(x: Seq<char>, z: Seq<char>, j: int)
    requires
        0 <= j <= z.len(),
    ensures
        line_end(x + z, x.len() + j) == x.len() + line_end(z, j),
    decreases z.len() - j,
{
    if j < z.len() {
        assert((x + z)[x.len() + j] == z[j]);
        if z[j] != '\n' {
            lemma_line_end_shift(x, z, j + 1);
        }
    }
}

proof fn lemma_lines_shift(x: Seq<char>, z: Seq<char>, j: int)
    requires
        0 <= j <= z.len(),
    ensures
        lines_from(x + z, x.len() + j) == lines_from(z, j),
    decreases z.len() - j,
{
    if j < z.len() {
        lemma_line_end_shift(x, z, j);
        lemma_line_end_bounds(z, j);
        let e = line_end(z, j);
        assert((x + z).subrange(x.len() + j, x.len() + e) =~= z.subrange(j, e));
        if e < z.len() {
            lemma_lines_shift(x, z, e + 1);
        }
    }
}

proof fn lemma_line_end_within(x: Seq<char>, z: Seq<char>, i: int)
    requires
        0 <= i < x.len(),
        x[x.len() - 1] == '\n',
    ensures
        line_end(x + z, i) == line_end(x, i),
        line_end(x, i) < x.len(),
    decreases x.len() - i,
{
    assert((x + z)[i] == x[i]);
    if x[i] != '\n' {
        lemma_line_end_within(x, z, i + 1);
    }
}

proof fn lemma_lines_prefix(x: Seq<char>, z: Seq<char>, i: int)
    requires
        0 <= i <= x.len(),
        x.len() > 0,
        x[x.len() - 1] == '\n',
    ensures
        lines_from(x + z, i) == lines_from(x, i) + lines_from(x + z, x.len() as int),
    decreases x.len() - i,
{
    if i < x.len() {
        lemma_line_end_within(x, z, i);
        lemma_line_end_bounds(x, i);
        let e = line_end(x, i);
        assert((x + z).subrange(i, e) =~= x.subrange(i, e));
        lemma_lines_prefix(x, z, e + 1);
        assert(lines_from(x + z, i) =~= seq![x.subrange(i, e)] + lines_from(x + z, e + 1));
        assert(lines_from(x, i) =~= seq![x.subrange(i, e)] + lines_from(x, e + 1));
    } else {
        assert(lines_from(x, i) =~= Seq::<Seq<char>>::empty());
    }
}

/// A text cut after a newline splits into the lines of each part.
pub proof fn lemma_split_concat(x: Seq<char>, y: Seq<char>)
    requires
        x.len() == 0 || x[x.len() - 1] == '\n',
    ensures
        split_lines(x + y) == split_lines(x) + split_lines(y),
{
    if x.len() == 0 {
        assert(x + y =~= y);
        assert(split_lines(x) =~= Seq::<Seq<char>>::empty());
        assert(split_lines(y) =~= Seq::<Seq<char>>::empty() + split_lines(y));
    } else {
        lemma_lines_prefix(x, y, 0);
        lemma_lines_shift(x, y, 0);
    }
}

/// A line without newlines, followed by one, is a single line.
pub proof fn lemma_split_one_line(l: Seq<char>)
    requires
        forall|k: int| 0 <= k < l.len() ==> l[k] != '\n',
    ensures
        split_lines(l.push('\n')) == seq![l],
{
    let s = l.push('\n');
    assert forall|k: int| 0 <= k <= l.len() implies line_end(s, k) == l.len() by {
        lemma_line_end_at(s, k, l.len() as int);
    }
    assert(s.subrange(0, l.len() as int) =~= l);
    assert(lines_from(s, (l.len() + 1) as int) =~= Seq::<Seq<char>>::empty());
}

proof fn lemma_line_end_at(s: Seq<char>, k: int, n: int)
    requires
        0 <= k <= n < s.len(),
        s[n] == '\n',
        forall|q: int| k <= q < n ==> s[q] != '\n',
    ensures
        line_end(s, k) == n,
    decreases n - k,
{
    if k < n {
        lemma_line_end_at(s, k + 1, n);
    }
}

} // verus!
