//! Building line maps from lists of (line, kind, text) items.

use vstd::prelude::*;

use crate::{lines_ascending, Annotations, Kind, Line, LineMap, Messages};

verus! {

/// The texts of the items on line `ln` of kind `k`, in order.
pub open spec fn select(items: Seq<(u32, Kind, Seq<char>)>, ln: u32, k: Kind) -> Seq<Seq<char>>
    decreases items.len(),
{
    if items.len() == 0 {
        seq![]
    } else {
        let x = items.last();
        if x.0 == ln && x.1 == k {
            select(items.drop_last(), ln, k).push(x.2)
        } else {
            select(items.drop_last(), ln, k)
        }
    }
}

/// The texts of the items on line `ln` of kind `k`, if there are any.
pub open spec fn bucket(items: Seq<(u32, Kind, Seq<char>)>, ln: u32, k: Kind) -> Option<Seq<Seq<char>>> {
    if select(items, ln, k).len() == 0 {
        None
    } else {
        Some(select(items, ln, k))
    }
}

/// Some item is on line `ln`.
pub open spec fn has_line(items: Seq<(u32, Kind, Seq<char>)>, ln: u32) -> bool {
    exists|q: int| 0 <= q < items.len() && (#[trigger] items[q]).0 == ln
}

/// `m` holds, in ascending line order, one entry for each line of the items,
/// with the texts of the items of each kind on that line, in their order.
pub open spec fn messages_map_of(m: Seq<(Line, Messages)>, items: Seq<(u32, Kind, Seq<char>)>) -> bool {
    &&& lines_ascending(m)
    &&& forall|p: int| 0 <= p < m.len() ==> has_line(items, (#[trigger] m[p]).0.0)
    &&& forall|q: int| 0 <= q < items.len() ==> exists|p: int| 0 <= p < m.len() && (#[trigger] m[p]).0.0 == (#[trigger] items[q]).0
    &&& forall|p: int, k: Kind| 0 <= p < m.len() ==> #[trigger] m[p].1.texts(k) == bucket(items, m[p].0.0, k)
}

/// As `messages_map_of`, for annotations.
pub open spec fn annotations_map_of(m: Seq<(Line, Annotations)>, items: Seq<(u32, Kind, Seq<char>)>) -> bool {
    &&& lines_ascending(m)
    &&& forall|p: int| 0 <= p < m.len() ==> has_line(items, (#[trigger] m[p]).0.0)
    &&& forall|q: int| 0 <= q < items.len() ==> exists|p: int| 0 <= p < m.len() && (#[trigger] m[p]).0.0 == (#[trigger] items[q]).0
    &&& forall|p: int, k: Kind| 0 <= p < m.len() ==> #[trigger] m[p].1.texts(k) == bucket(items, m[p].0.0, k)
}

proof fn lemma_select_absent(items: Seq<(u32, Kind, Seq<char>)>, ln: u32, k: Kind)
    requires
        !has_line(items, ln),
    ensures
        select(items, ln, k) == Seq::<Seq<char>>::empty(),
    decreases items.len(),
{
    if items.len() > 0 {
        assert(items.last() == items[items.len() - 1]);
        assert forall|q: int| 0 <= q < items.drop_last().len() implies (#[trigger] items.drop_last()[q]).0 != ln by {
            assert(items.drop_last()[q] == items[q]);
        }
        lemma_select_absent(items.drop_last(), ln, k);
    }
}

proof fn lemma_select_push(items: Seq<(u32, Kind, Seq<char>)>, x: (u32, Kind, Seq<char>), ln: u32, k: Kind)
    ensures
        select(items.push(x), ln, k) == if x.0 == ln && x.1 == k {
            select(items, ln, k).push(x.2)
        } else {
            select(items, ln, k)
        },
{
    assert(items.push(x).drop_last() =~= items);
    assert(items.push(x).last() == x);
}

/// Adds a message of kind `kind` on line `ln` to a message map.
pub fn insert_message(map: &mut LineMap<Messages>, ln: Line, kind: Kind, text: String, Ghost(items): Ghost<Seq<(u32, Kind, Seq<char>)>>)
    requires
        messages_map_of(old(map)@, items),
    ensures
        messages_map_of(final(map)@, items.push((ln.0, kind, text@))),
{
    let ghost x = (ln.0, kind, text@);
    let ghost ni = items.push(x);
    let mut p: usize = 0;
    while p < map.len() && map[p].0.0 < ln.0
        invariant
            p <= map@.len(),
            forall|q: int| 0 <= q < p ==> (#[trigger] map@[q]).0.0 < ln.0,
        decreases map@.len() - p,
    {
        p = p + 1;
    }
    let ghost m0 = map@;
    proof {
        assert forall|q: int| 0 <= q < m0.len() && m0[q].0.0 != ln.0 implies forall|k: Kind| #[trigger] bucket(ni, m0[q].0.0, k)
            == bucket(items, m0[q].0.0, k) by {
            assert forall|k: Kind| #[trigger] bucket(ni, m0[q].0.0, k) == bucket(items, m0[q].0.0, k) by {
                lemma_select_push(items, x, m0[q].0.0, k);
            }
        }
    }
    if p < map.len() && map[p].0.0 == ln.0 {
        let (l, mut msgs) = map.remove(p);
        let ghost before = msgs;
        msgs.insert(kind, text);
        map.insert(p, (l, msgs));
        proof {
            assert(map@ =~= m0.update(p as int, (l, msgs)));
            assert forall|k: Kind| #[trigger] msgs.texts(k) == bucket(ni, ln.0, k) by {
                lemma_select_push(items, x, ln.0, k);
            }
            assert forall|p2: int| 0 <= p2 < map@.len() implies has_line(ni, (#[trigger] map@[p2]).0.0) by {
                let w = choose|q: int| 0 <= q < items.len() && (#[trigger] items[q]).0 == m0[p2].0.0;
                assert(ni[w] == items[w]);
            }
            assert forall|q: int| 0 <= q < ni.len() implies exists|p2: int| 0 <= p2 < map@.len() && (#[trigger] map@[p2]).0.0 == (#[trigger] ni[q]).0 by {
                if q < items.len() {
                    assert(ni[q] == items[q]);
                    let w = choose|p2: int| 0 <= p2 < m0.len() && (#[trigger] m0[p2]).0.0 == items[q].0;
                    assert(map@[w].0.0 == m0[w].0.0);
                } else {
                    assert(map@[p as int].0.0 == ni[q].0);
                }
            }
            assert forall|p2: int, k: Kind| 0 <= p2 < map@.len() implies #[trigger] map@[p2].1.texts(k) == bucket(ni, map@[p2].0.0, k) by {
                if p2 != p {
                    assert(map@[p2] == m0[p2]);
                    assert(bucket(ni, m0[p2].0.0, k) == bucket(items, m0[p2].0.0, k));
                }
            }
        }
    } else {
        let mut msgs = Messages::new();
        msgs.insert(kind, text);
        proof {
            assert(!has_line(items, ln.0)) by {
                if has_line(items, ln.0) {
                    let w = choose|q: int| 0 <= q < items.len() && (#[trigger] items[q]).0 == ln.0;
                    let w2 = choose|p2: int| 0 <= p2 < m0.len() && (#[trigger] m0[p2]).0.0 == items[w].0;
                    if w2 < p {
                    } else if w2 == p {
                    } else {
                        assert(m0[p as int].0.0 < m0[w2].0.0);
                    }
                }
            }
        }
        map.insert(p, (ln, msgs));
        proof {
            assert forall|k: Kind| #[trigger] msgs.texts(k) == bucket(ni, ln.0, k) by {
                lemma_select_absent(items, ln.0, k);
                lemma_select_push(items, x, ln.0, k);
            }
            assert forall|i: int, j: int| 0 <= i < j < map@.len() implies (#[trigger] map@[i]).0.0 < (#[trigger] map@[j]).0.0 by {
                if j < p {
                    assert(map@[i] == m0[i] && map@[j] == m0[j]);
                } else if j == p {
                    assert(map@[i] == m0[i]);
                } else if i < p {
                    assert(map@[i] == m0[i] && map@[j] == m0[j - 1]);
                    assert(m0[p as int].0.0 > ln.0);
                    if j - 1 > p {
                        assert(m0[p as int].0.0 < m0[j - 1].0.0);
                    }
                } else if i == p {
                    assert(map@[j] == m0[j - 1]);
                    if j - 1 > p {
                        assert(m0[p as int].0.0 < m0[j - 1].0.0);
                    }
                } else {
                    assert(map@[i] == m0[i - 1] && map@[j] == m0[j - 1]);
                }
            }
            assert forall|p2: int| 0 <= p2 < map@.len() implies has_line(ni, (#[trigger] map@[p2]).0.0) by {
                if p2 == p {
                    assert(ni[items.len() as int] == x);
                } else {
                    let o = if p2 < p { p2 } else { p2 - 1 };
                    assert(map@[p2] == m0[o]);
                    let w = choose|q: int| 0 <= q < items.len() && (#[trigger] items[q]).0 == m0[o].0.0;
                    assert(ni[w] == items[w]);
                }
            }
            assert forall|q: int| 0 <= q < ni.len() implies exists|p2: int| 0 <= p2 < map@.len() && (#[trigger] map@[p2]).0.0 == (#[trigger] ni[q]).0 by {
                if q < items.len() {
                    assert(ni[q] == items[q]);
                    let w = choose|p2: int| 0 <= p2 < m0.len() && (#[trigger] m0[p2]).0.0 == items[q].0;
                    if w < p {
                        assert(map@[w] == m0[w]);
                    } else {
                        assert(map@[w + 1] == m0[w]);
                    }
                } else {
                    assert(map@[p as int].0.0 == ni[q].0);
                }
            }
            assert forall|p2: int, k: Kind| 0 <= p2 < map@.len() implies #[trigger] map@[p2].1.texts(k) == bucket(ni, map@[p2].0.0, k) by {
                if p2 != p {
                    let o = if p2 < p { p2 } else { p2 - 1 };
                    assert(map@[p2] == m0[o]);
                    assert(m0[o].0.0 != ln.0) by {
                        if o < p {
                        } else {
                            if o > p {
                                assert(m0[p as int].0.0 < m0[o].0.0);
                            }
                        }
                    }
                    assert(bucket(ni, m0[o].0.0, k) == bucket(items, m0[o].0.0, k));
                }
            }
        }
    }
}

/// Adds an annotation of kind `kind` on line `ln` to an annotation map.
pub fn insert_annotation(map: &mut LineMap<Annotations>, ln: Line, kind: Kind, text: String, Ghost(items): Ghost<Seq<(u32, Kind, Seq<char>)>>)
    requires
        annotations_map_of(old(map)@, items),
    ensures
        annotations_map_of(final(map)@, items.push((ln.0, kind, text@))),
{
    let ghost x = (ln.0, kind, text@);
    let ghost ni = items.push(x);
    let mut p: usize = 0;
    while p < map.len() && map[p].0.0 < ln.0
        invariant
            p <= map@.len(),
            forall|q: int| 0 <= q < p ==> (#[trigger] map@[q]).0.0 < ln.0,
        decreases map@.len() - p,
    {
        p = p + 1;
    }
    let ghost m0 = map@;
    proof {
        assert forall|q: int| 0 <= q < m0.len() && m0[q].0.0 != ln.0 implies forall|k: Kind| #[trigger] bucket(ni, m0[q].0.0, k)
            == bucket(items, m0[q].0.0, k) by {
            assert forall|k: Kind| #[trigger] bucket(ni, m0[q].0.0, k) == bucket(items, m0[q].0.0, k) by {
                lemma_select_push(items, x, m0[q].0.0, k);
            }
        }
    }
    if p < map.len() && map[p].0.0 == ln.0 {
        let (l, mut anns) = map.remove(p);
        let ghost before = anns;
        anns.insert(kind, text);
        map.insert(p, (l, anns));
        proof {
            assert(map@ =~= m0.update(p as int, (l, anns)));
            assert forall|k: Kind| #[trigger] anns.texts(k) == bucket(ni, ln.0, k) by {
                lemma_select_push(items, x, ln.0, k);
            }
            assert forall|p2: int| 0 <= p2 < map@.len() implies has_line(ni, (#[trigger] map@[p2]).0.0) by {
                let w = choose|q: int| 0 <= q < items.len() && (#[trigger] items[q]).0 == m0[p2].0.0;
                assert(ni[w] == items[w]);
            }
            assert forall|q: int| 0 <= q < ni.len() implies exists|p2: int| 0 <= p2 < map@.len() && (#[trigger] map@[p2]).0.0 == (#[trigger] ni[q]).0 by {
                if q < items.len() {
                    assert(ni[q] == items[q]);
                    let w = choose|p2: int| 0 <= p2 < m0.len() && (#[trigger] m0[p2]).0.0 == items[q].0;
                    assert(map@[w].0.0 == m0[w].0.0);
                } else {
                    assert(map@[p as int].0.0 == ni[q].0);
                }
            }
            assert forall|p2: int, k: Kind| 0 <= p2 < map@.len() implies #[trigger] map@[p2].1.texts(k) == bucket(ni, map@[p2].0.0, k) by {
                if p2 != p {
                    assert(map@[p2] == m0[p2]);
                    assert(bucket(ni, m0[p2].0.0, k) == bucket(items, m0[p2].0.0, k));
                }
            }
        }
    } else {
        let mut anns = Annotations::new();
        anns.insert(kind, text);
        proof {
            assert(!has_line(items, ln.0)) by {
                if has_line(items, ln.0) {
                    let w = choose|q: int| 0 <= q < items.len() && (#[trigger] items[q]).0 == ln.0;
                    let w2 = choose|p2: int| 0 <= p2 < m0.len() && (#[trigger] m0[p2]).0.0 == items[w].0;
                    if w2 < p {
                    } else if w2 == p {
                    } else {
                        assert(m0[p as int].0.0 < m0[w2].0.0);
                    }
                }
            }
        }
        map.insert(p, (ln, anns));
        proof {
            assert forall|k: Kind| #[trigger] anns.texts(k) == bucket(ni, ln.0, k) by {
                lemma_select_absent(items, ln.0, k);
                lemma_select_push(items, x, ln.0, k);
            }
            assert forall|i: int, j: int| 0 <= i < j < map@.len() implies (#[trigger] map@[i]).0.0 < (#[trigger] map@[j]).0.0 by {
                if j < p {
                    assert(map@[i] == m0[i] && map@[j] == m0[j]);
                } else if j == p {
                    assert(map@[i] == m0[i]);
                } else if i < p {
                    assert(map@[i] == m0[i] && map@[j] == m0[j - 1]);
                    assert(m0[p as int].0.0 > ln.0);
                    if j - 1 > p {
                        assert(m0[p as int].0.0 < m0[j - 1].0.0);
                    }
                } else if i == p {
                    assert(map@[j] == m0[j - 1]);
                    if j - 1 > p {
                        assert(m0[p as int].0.0 < m0[j - 1].0.0);
                    }
                } else {
                    assert(map@[i] == m0[i - 1] && map@[j] == m0[j - 1]);
                }
            }
            assert forall|p2: int| 0 <= p2 < map@.len() implies has_line(ni, (#[trigger] map@[p2]).0.0) by {
                if p2 == p {
                    assert(ni[items.len() as int] == x);
                } else {
                    let o = if p2 < p { p2 } else { p2 - 1 };
                    assert(map@[p2] == m0[o]);
                    let w = choose|q: int| 0 <= q < items.len() && (#[trigger] items[q]).0 == m0[o].0.0;
                    assert(ni[w] == items[w]);
                }
            }
            assert forall|q: int| 0 <= q < ni.len() implies exists|p2: int| 0 <= p2 < map@.len() && (#[trigger] map@[p2]).0.0 == (#[trigger] ni[q]).0 by {
                if q < items.len() {
                    assert(ni[q] == items[q]);
                    let w = choose|p2: int| 0 <= p2 < m0.len() && (#[trigger] m0[p2]).0.0 == items[q].0;
                    if w < p {
                        assert(map@[w] == m0[w]);
                    } else {
                        assert(map@[w + 1] == m0[w]);
                    }
                } else {
                    assert(map@[p as int].0.0 == ni[q].0);
                }
            }
            assert forall|p2: int, k: Kind| 0 <= p2 < map@.len() implies #[trigger] map@[p2].1.texts(k) == bucket(ni, map@[p2].0.0, k) by {
                if p2 != p {
                    let o = if p2 < p { p2 } else { p2 - 1 };
                    assert(map@[p2] == m0[o]);
                    assert(m0[o].0.0 != ln.0) by {
                        if o < p {
                        } else {
                            if o > p {
                                assert(m0[p as int].0.0 < m0[o].0.0);
                            }
                        }
                    }
                    assert(bucket(ni, m0[o].0.0, k) == bucket(items, m0[o].0.0, k));
                }
            }
        }
    }
}

} // verus!
