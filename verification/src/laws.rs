//! What holds across the operations of a document.
use vstd::prelude::*;
use crate::assoc::{assoc_set, find_key, lemma_assoc_set, lemma_find_key, lemma_find_key_same_keys, unique_keys};
use crate::document::{
    Layout, SectionMap, layout_map, layout_set, layout_touch, layout_valid, lemma_layout_map, lemma_layout_set,
    lemma_layout_touch, lookup, map_delete_key, map_set, map_touch, section_of,
};
use crate::grammar::{
    col_at, column, lemma_line_end, lemma_scan_range, lemma_skip_blanks, line_at, line_end, newlines,
    parse_items, parse_text, read_so_far, scan, skip_blanks, step, Parsed, Scanned, Stop,
};
use crate::text::{is_trimmed, lemma_trim, trim};

verus! {

/// Reading a key right after setting it (`set_to`, `SectionSetter::set`) gives
/// the value set; every other key of every section reads as before (`get_from`).
pub proof fn law_lookup_after_set(
    m: SectionMap,
    n: Option<Seq<char>>,
    k: Seq<char>,
    v: Seq<char>,
    n2: Option<Seq<char>>,
    k2: Seq<char>,
)
    ensures
        lookup(map_set(m, n, k, v), n, k) == Some(v),
        n2 != n || k2 != k ==> lookup(map_set(m, n, k, v), n2, k2) == lookup(m, n2, k2),
{
}

/// Reading a key right after deleting it (`delete_from`, `SectionSetter::delete`)
/// finds nothing; every other key of every section reads as before.
pub proof fn law_lookup_after_delete_key(
    m: SectionMap,
    n: Option<Seq<char>>,
    k: Seq<char>,
    n2: Option<Seq<char>>,
    k2: Seq<char>,
)
    ensures
        lookup(map_delete_key(m, n, k), n, k) is None,
        n2 != n || k2 != k ==> lookup(map_delete_key(m, n, k), n2, k2) == lookup(m, n2, k2),
{
}

/// After a section is deleted (`delete`) none of its keys can be read, and the
/// keys of every other section read as before.
pub proof fn law_lookup_after_delete_section(
    m: SectionMap,
    n: Option<Seq<char>>,
    n2: Option<Seq<char>>,
    k2: Seq<char>,
)
    ensures
        lookup(m.remove(n), n, k2) is None,
        n2 != n ==> lookup(m.remove(n), n2, k2) == lookup(m, n2, k2),
{
}

/// Making sure a section exists (`SectionSetter::get`) changes no reading.
pub proof fn law_touch_reads_the_same(
    m: SectionMap,
    n: Option<Seq<char>>,
    n2: Option<Seq<char>>,
    k2: Seq<char>,
)
    ensures
        lookup(map_touch(m, n), n2, k2) == lookup(m, n2, k2),
        map_touch(m, n).dom().contains(n),
{
}

/// Within one section: reading a key right after inserting it
/// (`Properties::insert`) gives the value inserted, and right after removing it
/// (`Properties::remove`) nothing; every other key reads as before.
pub proof fn law_properties_insert_remove(
    m: Map<Seq<char>, Seq<char>>,
    k: Seq<char>,
    v: Seq<char>,
    k2: Seq<char>,
)
    ensures
        m.insert(k, v).dom().contains(k) && m.insert(k, v)[k] == v,
        !m.remove(k).dom().contains(k),
        k2 != k ==> (m.insert(k, v).dom().contains(k2) == m.dom().contains(k2)) && (
        m.remove(k).dom().contains(k2) == m.dom().contains(k2)),
        k2 != k && m.dom().contains(k2) ==> m.insert(k, v)[k2] == m[k2] && m.remove(k)[k2] == m[k2],
{
}

/// Setting a key twice leaves what the second setting leaves.
pub proof fn law_set_twice(
    m: SectionMap,
    n: Option<Seq<char>>,
    k: Seq<char>,
    v1: Seq<char>,
    v2: Seq<char>,
)
    ensures
        map_set(map_set(m, n, k, v1), n, k, v2) == map_set(m, n, k, v2),
{
    assert(section_of(map_set(m, n, k, v1), n).insert(k, v2) =~= section_of(m, n).insert(k, v2));
    assert(map_set(map_set(m, n, k, v1), n, k, v2) =~= map_set(m, n, k, v2));
}

/// Setting two different keys gives the same document in either order.
pub proof fn law_sets_commute(
    m: SectionMap,
    n1: Option<Seq<char>>,
    k1: Seq<char>,
    v1: Seq<char>,
    n2: Option<Seq<char>>,
    k2: Seq<char>,
    v2: Seq<char>,
)
    requires
        n1 != n2 || k1 != k2,
    ensures
        map_set(map_set(m, n1, k1, v1), n2, k2, v2) == map_set(map_set(m, n2, k2, v2), n1, k1, v1),
{
    let a = map_set(map_set(m, n1, k1, v1), n2, k2, v2);
    let b = map_set(map_set(m, n2, k2, v2), n1, k1, v1);
    if n1 == n2 {
        assert(section_of(a, n1) =~= section_of(b, n1));
    }
    assert(a =~= b);
}

/// Setting a key keeps every section in its place; a section that was missing
/// comes last, and the other sections keep their pairs.
pub proof fn law_set_keeps_order(d: Layout, n: Option<Seq<char>>, k: Seq<char>, v: Seq<char>)
    requires
        unique_keys(d),
    ensures
        ({
            let d2 = layout_set(d, n, k, v);
            &&& d2.len() == d.len() + (if find_key(d, n) >= 0 { 0int } else { 1int })
            &&& forall|i: int| 0 <= i < d.len() ==> #[trigger] d2[i].0 == d[i].0
            &&& forall|i: int| 0 <= i < d.len() && d[i].0 != n ==> #[trigger] d2[i] == d[i]
            &&& find_key(d, n) < 0 ==> d2[d.len() as int].0 == n
        }),
{
    lemma_find_key(d, n);
    let d1 = layout_touch(d, n);
    lemma_find_key(d1, n);
    if find_key(d, n) < 0 {
        assert(d1[d.len() as int].0 == n);
    }
}

/// A section name with no white space at either end (the general section has none).
pub open spec fn name_trimmed(n: Option<Seq<char>>) -> bool {
    match n {
        Some(s) => is_trimmed(s),
        None => true,
    }
}

/// Keys of at least one character; keys and values with no white space at either end.
pub open spec fn pairs_trimmed(e: Seq<(Seq<char>, Seq<char>)>) -> bool {
    forall|j: int|
        0 <= j < e.len() ==> is_trimmed((#[trigger] e[j]).0) && e[j].0.len() > 0 && is_trimmed(
            e[j].1,
        )
}

/// Every name, key and value of `d` is trimmed, and no key is empty.
pub open spec fn layout_trimmed(d: Layout) -> bool {
    forall|i: int| 0 <= i < d.len() ==> name_trimmed((#[trigger] d[i]).0) && pairs_trimmed(d[i].1)
}

proof fn lemma_touch_well_formed(d: Layout, n: Option<Seq<char>>)
    requires
        layout_valid(d),
        layout_trimmed(d),
        name_trimmed(n),
    ensures
        layout_valid(layout_touch(d, n)),
        layout_trimmed(layout_touch(d, n)),
{
    lemma_layout_touch(d, n);
    let d1 = layout_touch(d, n);
    assert forall|i: int| 0 <= i < d1.len() implies unique_keys(#[trigger] d1[i].1) && name_trimmed(
        d1[i].0,
    ) && pairs_trimmed(d1[i].1) by {
        if i < d.len() {
            assert(d1[i] == d[i]);
        }
    }
}

proof fn lemma_set_well_formed(d: Layout, n: Option<Seq<char>>, k: Seq<char>, v: Seq<char>)
    requires
        layout_valid(d),
        layout_trimmed(d),
        name_trimmed(n),
        is_trimmed(k),
        k.len() > 0,
        is_trimmed(v),
    ensures
        layout_valid(layout_set(d, n, k, v)),
        layout_trimmed(layout_set(d, n, k, v)),
{
    lemma_touch_well_formed(d, n);
    lemma_layout_touch(d, n);
    lemma_layout_set(d, n, k, v);
    let d1 = layout_touch(d, n);
    let i = find_key(d1, n);
    lemma_find_key(d1, n);
    let e = assoc_set(d1[i].1, k, v);
    lemma_assoc_set(d1[i].1, k, v);
    lemma_find_key(d1[i].1, k);
    let d2 = layout_set(d, n, k, v);
    assert(pairs_trimmed(e)) by {
        assert forall|j: int| 0 <= j < e.len() implies is_trimmed((#[trigger] e[j]).0) && e[j].0.len()
            > 0 && is_trimmed(e[j].1) by {
            if j < d1[i].1.len() && j != find_key(d1[i].1, k) {
                assert(e[j] == d1[i].1[j]);
            }
        }
    }
    assert forall|j: int| 0 <= j < d2.len() implies unique_keys(#[trigger] d2[j].1) && name_trimmed(
        d2[j].0,
    ) && pairs_trimmed(d2[j].1) by {
        if j != i {
            assert(d2[j] == d1[j]);
        }
    }
}

proof fn lemma_parse_items_well_formed(
    t: Seq<char>,
    p: int,
    d: Layout,
    key: Seq<char>,
    sec: Option<Seq<char>>,
)
    requires
        layout_valid(d),
        layout_trimmed(d),
        is_trimmed(key),
        name_trimmed(sec),
    ensures
        parse_items(t, p, d, key, sec) matches Parsed::Done(d2) ==> layout_valid(d2)
            && layout_trimmed(d2),
    decreases t.len() - p,
{
    if 0 <= p < t.len() {
        let q = skip_blanks(t, p);
        lemma_skip_blanks(t, p);
        if q < t.len() {
            if t[q] == ';' {
                lemma_line_end(t, q);
                let r = line_end(t, q);
                if r < t.len() {
                    lemma_parse_items_well_formed(t, r + 1, d, key, sec);
                }
            } else if t[q] == '[' {
                lemma_scan_range(t, q + 1, Stop::Bracket, Seq::empty());
                match scan(t, q + 1, Stop::Bracket, Seq::empty()) {
                    Scanned::Text(s, r) => {
                        lemma_trim(s);
                        lemma_touch_well_formed(d, Some(trim(s)));
                        lemma_parse_items_well_formed(
                            t,
                            r + 1,
                            layout_touch(d, Some(trim(s))),
                            key,
                            Some(trim(s)),
                        );
                    },
                    _ => {},
                }
            } else if t[q] == '=' {
                if key.len() > 0 {
                    lemma_scan_range(t, q + 1, Stop::LineEnd, Seq::empty());
                    match scan(t, q + 1, Stop::LineEnd, Seq::empty()) {
                        Scanned::Text(v, r) => {
                            lemma_trim(v);
                            lemma_set_well_formed(d, sec, key, trim(v));
                            lemma_parse_items_well_formed(
                                t,
                                step(t, r),
                                layout_set(d, sec, key, trim(v)),
                                Seq::empty(),
                                sec,
                            );
                        },
                        _ => {},
                    }
                }
            } else {
                lemma_scan_range(t, q, Stop::Equals, Seq::empty());
                match scan(t, q, Stop::Equals, Seq::empty()) {
                    Scanned::Text(k, r) => {
                        lemma_trim(k);
                        lemma_parse_items_well_formed(t, r, d, trim(k), sec);
                    },
                    _ => {},
                }
            }
        }
    }
}

/// A document read from text names no section twice and no key twice within a
/// section; its names, keys and values have no white space at either end, and
/// no key is empty.
pub proof fn law_parsed_is_well_formed(t: Seq<char>)
    ensures
        parse_text(t) matches Parsed::Done(d) ==> layout_valid(d) && layout_trimmed(d),
{
    let q = skip_blanks(t, 0);
    lemma_skip_blanks(t, 0);
    if q < t.len() {
        assert(layout_valid(Seq::empty()));
        lemma_parse_items_well_formed(t, q, Seq::empty(), Seq::empty(), None);
    }
}

/// The reader counts what it reads. At the start it has read the first
/// character, if there is one. Each step onto a further character counts it: a
/// line feed adds a line and starts the column over, any other character adds
/// a column. A step onto the end of the text, or at the end, changes nothing.
pub proof fn law_reader_counts_lines(t: Seq<char>, p: int)
    requires
        0 <= p <= t.len(),
    ensures
        line_at(t, 0) == (if t.len() > 0 && t[0] == '\n' { 1nat } else { 0nat }),
        col_at(t, 0) == (if t.len() > 0 && t[0] != '\n' { 1nat } else { 0nat }),
        step(t, p) < t.len() ==> line_at(t, step(t, p)) == line_at(t, p) + (if t[step(t, p)] == '\n' {
            1nat
        } else {
            0nat
        }),
        step(t, p) < t.len() ==> col_at(t, step(t, p)) == (if t[step(t, p)] == '\n' {
            0nat
        } else {
            col_at(t, p) + 1
        }),
        step(t, p) >= t.len() ==> line_at(t, step(t, p)) == line_at(t, p) && col_at(t, step(t, p))
            == col_at(t, p),
{
    if t.len() > 0 {
        let s = t.take(1);
        assert(s.drop_last() =~= Seq::<char>::empty());
        assert(read_so_far(t, 0) == s);
        assert(s.last() == t[0]);
        assert(newlines(s) == newlines(s.drop_last()) + if s.last() == '\n' {
            1nat
        } else {
            0nat
        });
        assert(column(s) == if s.last() == '\n' {
            0nat
        } else {
            column(s.drop_last()) + 1
        });
    } else {
        assert(read_so_far(t, 0) =~= Seq::<char>::empty());
    }
    if p < t.len() {
        if p + 1 < t.len() {
            let a = t.take(p + 1);
            let b = t.take(p + 2);
            assert(b.drop_last() =~= a);
            assert(b.last() == t[p + 1]);
            assert(read_so_far(t, p + 1) == b);
            assert(read_so_far(t, p) == a);
        } else {
            assert(t.take(p + 1) =~= t);
        }
    }
}

/// Whether, from `p` on, past blanks and comments, the first item is a
/// `key=value` pair rather than a `[header]`.
pub open spec fn pair_before_header(text: Seq<char>, p: int) -> bool
    decreases text.len() - p,
{
    if p < 0 || p >= text.len() {
        false
    } else {
        let q = skip_blanks(text, p);
        proof {
            lemma_skip_blanks(text, p);
        }
        if q >= text.len() {
            false
        } else if text[q] == ';' {
            let r = line_end(text, q);
            proof {
                lemma_line_end(text, q);
            }
            if r >= text.len() {
                false
            } else {
                pair_before_header(text, r + 1)
            }
        } else {
            text[q] != '['
        }
    }
}

/// Setting a key moves no section: the names stay where they were, section
/// `n` included once it exists.
proof fn lemma_set_keeps_places(d: Layout, n: Option<Seq<char>>, k: Seq<char>, v: Seq<char>, m: Option<Seq<char>>)
    ensures
        find_key(layout_touch(d, n), n) >= 0,
        n != m ==> find_key(layout_touch(d, n), m) == find_key(d, m),
        layout_set(d, n, k, v).len() == layout_touch(d, n).len(),
        forall|j: int|
            0 <= j < layout_touch(d, n).len() ==> (#[trigger] layout_set(d, n, k, v)[j]).0 == layout_touch(
                d,
                n,
            )[j].0,
        find_key(layout_set(d, n, k, v), m) == find_key(layout_touch(d, n), m),
{
    let d1 = layout_touch(d, n);
    if find_key(d, n) < 0 {
        assert(d1.drop_last() =~= d);
    }
    lemma_find_key(d1, n);
    let d2 = layout_set(d, n, k, v);
    assert forall|j: int| 0 <= j < d1.len() implies #[trigger] d1[j].0 == d2[j].0 by {}
    lemma_find_key_same_keys(d1, d2, m);
}

/// Past a section header, the general section stays where it was (or missing).
proof fn lemma_named_keeps_general(t: Seq<char>, p: int, d: Layout, key: Seq<char>, x: Seq<char>)
    ensures
        parse_items(t, p, d, key, Some(x)) matches Parsed::Done(r) ==> find_key(r, None) == find_key(
            d,
            None,
        ),
    decreases t.len() - p,
{
    if 0 <= p < t.len() {
        let q = skip_blanks(t, p);
        lemma_skip_blanks(t, p);
        if q < t.len() {
            if t[q] == ';' {
                lemma_line_end(t, q);
                let r = line_end(t, q);
                if r < t.len() {
                    lemma_named_keeps_general(t, r + 1, d, key, x);
                }
            } else if t[q] == '[' {
                lemma_scan_range(t, q + 1, Stop::Bracket, Seq::empty());
                match scan(t, q + 1, Stop::Bracket, Seq::empty()) {
                    Scanned::Text(s, r) => {
                        let n = Some(trim(s));
                        lemma_set_keeps_places(d, n, Seq::empty(), Seq::empty(), None);
                        lemma_named_keeps_general(t, r + 1, layout_touch(d, n), key, trim(s));
                    },
                    _ => {},
                }
            } else if t[q] == '=' {
                if key.len() > 0 {
                    lemma_scan_range(t, q + 1, Stop::LineEnd, Seq::empty());
                    match scan(t, q + 1, Stop::LineEnd, Seq::empty()) {
                        Scanned::Text(v, r) => {
                            lemma_set_keeps_places(d, Some(x), key, trim(v), None);
                            lemma_named_keeps_general(
                                t,
                                step(t, r),
                                layout_set(d, Some(x), key, trim(v)),
                                Seq::empty(),
                                x,
                            );
                        },
                        _ => {},
                    }
                }
            } else {
                lemma_scan_range(t, q, Stop::Equals, Seq::empty());
                match scan(t, q, Stop::Equals, Seq::empty()) {
                    Scanned::Text(k, r) => {
                        lemma_named_keeps_general(t, r, d, trim(k), x);
                    },
                    _ => {},
                }
            }
        }
    }
}

/// Before any header, the document holds at most the general section; it
/// ends up with one exactly when it has one already or a pair comes first,
/// and then it is the first section.
proof fn lemma_general_first(t: Seq<char>, p: int, d: Layout, key: Seq<char>)
    requires
        0 <= p,
        d.len() == 0 || (d.len() == 1 && d[0].0 is None),
    ensures
        parse_items(t, p, d, key, None) matches Parsed::Done(r) ==> {
            &&& (find_key(r, None) >= 0 <==> (d.len() > 0 || pair_before_header(t, p)))
            &&& (find_key(r, None) >= 0 ==> find_key(r, None) == 0)
        },
    decreases t.len() - p,
{
    if d.len() == 1 {
        assert(d.drop_last().len() == 0);
        assert(find_key(d, None) == 0);
    }
    if p < t.len() {
        let q = skip_blanks(t, p);
        lemma_skip_blanks(t, p);
        if q < t.len() {
            if t[q] == ';' {
                lemma_line_end(t, q);
                let r = line_end(t, q);
                if r < t.len() {
                    lemma_general_first(t, r + 1, d, key);
                }
            } else if t[q] == '[' {
                lemma_scan_range(t, q + 1, Stop::Bracket, Seq::empty());
                match scan(t, q + 1, Stop::Bracket, Seq::empty()) {
                    Scanned::Text(s, r) => {
                        let n = Some(trim(s));
                        lemma_set_keeps_places(d, n, Seq::empty(), Seq::empty(), None);
                        lemma_named_keeps_general(t, r + 1, layout_touch(d, n), key, trim(s));
                    },
                    _ => {},
                }
            } else if t[q] == '=' {
                if key.len() > 0 {
                    lemma_scan_range(t, q + 1, Stop::LineEnd, Seq::empty());
                    match scan(t, q + 1, Stop::LineEnd, Seq::empty()) {
                        Scanned::Text(v, r) => {
                            let d1 = layout_touch(d, None);
                            let d2 = layout_set(d, None, key, trim(v));
                            lemma_set_keeps_places(d, None, key, trim(v), None);
                            if d.len() == 0 {
                                assert(d1.len() == 1);
                            }
                            assert(d1[0].0 is None);
                            assert(d2[0].0 is None);
                            lemma_general_first(t, step(t, r), d2, Seq::empty());
                        },
                        _ => {},
                    }
                }
            } else {
                lemma_scan_range(t, q, Stop::Equals, Seq::empty());
                match scan(t, q, Stop::Equals, Seq::empty()) {
                    Scanned::Text(k, r) => {
                        if r < t.len() {
                            assert(skip_blanks(t, r) == r);
                        }
                        lemma_general_first(t, r, d, trim(k));
                    },
                    _ => {},
                }
            }
        }
    }
}

/// A document read from text has a general section exactly when a `key=value`
/// pair comes before the first `[header]` (past blanks and comments), and
/// that section, when there is one, is the document's first.
pub proof fn law_general_section_read(t: Seq<char>)
    ensures
        parse_text(t) matches Parsed::Done(d) ==> {
            &&& (layout_map(d).dom().contains(None) <==> pair_before_header(t, 0))
            &&& (find_key(d, None) >= 0 <==> pair_before_header(t, 0))
            &&& (find_key(d, None) >= 0 ==> find_key(d, None) == 0)
        },
{
    let q = skip_blanks(t, 0);
    lemma_skip_blanks(t, 0);
    if q < t.len() {
        assert(skip_blanks(t, q) == q);
        lemma_general_first(t, q, Seq::empty(), Seq::empty());
        law_parsed_is_well_formed(t);
        match parse_text(t) {
            Parsed::Done(d) => {
                lemma_layout_map(d);
            },
            _ => {},
        }
    }
}

} // verus!
