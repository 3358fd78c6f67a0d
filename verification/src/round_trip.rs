//! Reading back what the writer wrote.
use vstd::prelude::*;
use crate::assoc::{assoc_map, assoc_set, find_key, lemma_find_key, lemma_find_key_same_keys, unique_keys};
use crate::document::{Layout, layout_map, layout_sections, layout_set, layout_touch, lemma_layout_find};
use crate::grammar::{
    parse_text, at_stop, digits_value, hex_code, hex_value, is_blank, is_char_code, parse_items, radix16, scan,
    sign_dropped, skip_blanks, step, all_hex, unescape, Hex, Parsed, Scanned, Stop,
};
use crate::text::{is_trimmed, lemma_trim, trim};
use crate::writer::{escape, escape_char, hex4, hex_digit, ini_text, property_lines, sections_text};

verus! {

/// A character that the writer writes so that the reader reads it back: all
/// but the vertical tab and the form feed, which it writes as `\v` and `\f`.
pub open spec fn char_reads_back(c: char) -> bool {
    c != '\x0b' && c != '\x0c'
}

/// A text every character of which reads back, and that holds no `]` where
/// `]` would end it.
pub open spec fn text_reads_back(s: Seq<char>, stop: Stop) -> bool {
    &&& forall|i: int| 0 <= i < s.len() ==> char_reads_back(#[trigger] s[i])
    &&& stop == Stop::Bracket ==> forall|i: int| 0 <= i < s.len() ==> #[trigger] s[i] != ']'
}

pub proof fn lemma_escape_append(a: Seq<char>, b: Seq<char>)
    ensures
        escape(a + b) == escape(a) + escape(b),
    decreases b.len(),
{
    if b.len() == 0 {
        assert(a + b =~= a);
        assert(escape(a) + escape(b) =~= escape(a));
    } else {
        lemma_escape_append(a, b.drop_last());
        assert((a + b).drop_last() =~= a + b.drop_last());
        assert((a + b).last() == b.last());
        assert(escape(a + b) =~= escape(a) + escape(b));
    }
}

/// A text is written character by character, from the front.
pub proof fn lemma_escape_front(s: Seq<char>)
    requires
        s.len() > 0,
    ensures
        escape(s) == escape_char(s[0]) + escape(s.drop_first()),
{
    let a = seq![s[0]];
    lemma_escape_append(a, s.drop_first());
    assert(a + s.drop_first() =~= s);
    assert(a.drop_last() =~= Seq::<char>::empty());
    assert(a.last() == s[0]);
    assert(escape(Seq::<char>::empty()) == Seq::<char>::empty());
    assert(escape(a) == escape(a.drop_last()) + escape_char(a.last()));
    assert(escape(a) =~= escape_char(s[0]));
}

proof fn lemma_hex_digit(x: int)
    requires
        0 <= x < 16,
    ensures
        hex_value(hex_digit(x)) == x,
        hex_digit(x) != '\\',
        hex_digit(x) != '+',
{
}

proof fn lemma_hex4(n: int)
    requires
        0 <= n <= 0xffff,
    ensures
        hex4(n).len() == 4,
        radix16(hex4(n)) == Some(n),
        forall|i: int| 0 <= i < 4 ==> #[trigger] hex4(n)[i] != '\\',
{
    let h = hex4(n);
    let a = (n / 4096) % 16;
    let b = (n / 256) % 16;
    let c = (n / 16) % 16;
    let e = n % 16;
    lemma_hex_digit(a);
    lemma_hex_digit(b);
    lemma_hex_digit(c);
    lemma_hex_digit(e);
    assert(sign_dropped(h) == h);
    assert(all_hex(h));
    assert(h.drop_last().drop_last().drop_last().drop_last() =~= Seq::<char>::empty());
    reveal_with_fuel(digits_value, 5);
    assert(digits_value(h) == ((a * 16 + b) * 16 + c) * 16 + e);
    assert(((a * 16 + b) * 16 + c) * 16 + e == n) by (nonlinear_arith)
        requires
            0 <= n <= 0xffff,
            a == (n / 4096) % 16,
            b == (n / 256) % 16,
            c == (n / 16) % 16,
            e == n % 16,
    ;
}

/// Reading one written character: the reader takes what the writer wrote for
/// `c` and reads `c`.
proof fn lemma_scan_unit(t: Seq<char>, p: int, stop: Stop, acc: Seq<char>, c: char)
    requires
        0 <= p,
        p + escape_char(c).len() <= t.len(),
        t.subrange(p, p + escape_char(c).len()) == escape_char(c),
        char_reads_back(c),
        stop == Stop::Bracket ==> c != ']',
    ensures
        scan(t, p, stop, acc) == scan(t, p + escape_char(c).len(), stop, acc.push(c)),
{
    let u = escape_char(c);
    let n = c as int;
    assert(u.len() > 0);
    assert(t[p] == u[0]);
    if u.len() == 1 {
        assert(!at_stop(t, p, stop));
    } else {
        assert(t[p] == '\\');
        assert(t[p + 1] == u[1]);
        if (1 <= n <= 6) || (0x0e <= n <= 0x1f) || (0x7f <= n <= 0xffff) {
            lemma_hex4(n);
            let h = hex4(n);
            assert(u =~= seq!['\\', 'x'] + h);
            assert(t[p + 1] == 'x');
            assert forall|i: int| 0 <= i < 4 implies t[p + 2 + i] == #[trigger] h[i] by {
                assert(t.subrange(p, p + 6)[2 + i] == u[2 + i]);
            }
            reveal_with_fuel(hex_code, 5);
            assert(h =~= seq![h[0], h[1], h[2], h[3]]);
            assert(seq![h[0]] =~= Seq::<char>::empty().push(t[p + 2]));
            assert(hex_code(t, p + 1, 0, Seq::empty(), stop) == Hex::Code(h, p + 5)) by {
                assert(Seq::<char>::empty().push(h[0]).push(h[1]).push(h[2]).push(h[3]) =~= h);
            }
            assert(is_char_code(n));
            assert((n as char) == c);
        } else {
            assert(unescape(u[1]) == c);
        }
    }
}

/// Reading a written text up to a stop gives the text back.
pub proof fn lemma_scan_escaped(t: Seq<char>, p: int, stop: Stop, acc: Seq<char>, s: Seq<char>)
    requires
        0 <= p,
        p + escape(s).len() <= t.len(),
        t.subrange(p, p + escape(s).len()) == escape(s),
        at_stop(t, p + escape(s).len(), stop),
        text_reads_back(s, stop),
    ensures
        scan(t, p, stop, acc) == Scanned::Text(acc + s, p + escape(s).len()),
    decreases s.len(),
{
    if s.len() == 0 {
        assert(acc + s =~= acc);
    } else {
        lemma_escape_front(s);
        let u = escape_char(s[0]);
        let rest = s.drop_first();
        assert(t.subrange(p, p + u.len()) =~= u) by {
            assert forall|i: int| 0 <= i < u.len() implies t.subrange(p, p + u.len())[i] == u[i] by {
                assert(t.subrange(p, p + escape(s).len())[i] == escape(s)[i]);
            }
        }
        lemma_scan_unit(t, p, stop, acc, s[0]);
        assert(t.subrange(p + u.len(), p + u.len() + escape(rest).len()) =~= escape(rest)) by {
            assert forall|i: int| 0 <= i < escape(rest).len() implies t.subrange(
                p + u.len(),
                p + u.len() + escape(rest).len(),
            )[i] == escape(rest)[i] by {
                assert(t.subrange(p, p + escape(s).len())[u.len() + i] == escape(s)[u.len() + i]);
            }
        }
        assert(text_reads_back(rest, stop)) by {
            assert forall|i: int| 0 <= i < rest.len() implies char_reads_back(#[trigger] rest[i]) by {
                assert(rest[i] == s[i + 1]);
            }
            if stop == Stop::Bracket {
                assert forall|i: int| 0 <= i < rest.len() implies #[trigger] rest[i] != ']' by {
                    assert(rest[i] == s[i + 1]);
                }
            }
        }
        assert(char_reads_back(s[0]));
        lemma_scan_escaped(t, p + u.len(), stop, acc.push(s[0]), rest);
        assert(acc.push(s[0]) + rest =~= acc + s);
    }
}

/// The text of one pair as the writer writes it.
pub open spec fn pair_line(k: Seq<char>, v: Seq<char>) -> Seq<char> {
    escape(k) + seq!['='] + escape(v) + seq!['\n']
}

/// A pair that the reader reads back as the writer wrote it: a key of at
/// least one character, not starting with `[`; key and value with no white
/// space at either end, and characters that read back.
pub open spec fn pair_reads_back(k: Seq<char>, v: Seq<char>) -> bool {
    &&& k.len() > 0
    &&& k[0] != '['
    &&& is_trimmed(k)
    &&& is_trimmed(v)
    &&& text_reads_back(k, Stop::Equals)
    &&& text_reads_back(v, Stop::LineEnd)
}

/// Pairs with distinct keys, each of which reads back.
pub open spec fn pairs_read_back(e: Seq<(Seq<char>, Seq<char>)>) -> bool {
    &&& unique_keys(e)
    &&& forall|j: int| 0 <= j < e.len() ==> pair_reads_back((#[trigger] e[j]).0, e[j].1)
}

/// A section name that reads back: no white space at either end, no `]`,
/// and characters that read back.
pub open spec fn name_reads_back(n: Seq<char>) -> bool {
    is_trimmed(n) && text_reads_back(n, Stop::Bracket)
}

/// The named sections of `d`, in order.
pub open spec fn named_sections(d: Layout) -> Layout
    decreases d.len(),
{
    if d.len() == 0 {
        Seq::empty()
    } else if d[0].0 is None {
        named_sections(d.drop_first())
    } else {
        seq![d[0]] + named_sections(d.drop_first())
    }
}

/// Sets the pairs `e` one after the other in section `sec`.
pub open spec fn set_all(d: Layout, sec: Option<Seq<char>>, e: Seq<(Seq<char>, Seq<char>)>) -> Layout
    decreases e.len(),
{
    if e.len() == 0 {
        d
    } else {
        layout_set(set_all(d, sec, e.drop_last()), sec, e.last().0, e.last().1)
    }
}

proof fn lemma_sub_parts(t: Seq<char>, p: int, a: Seq<char>, b: Seq<char>)
    requires
        0 <= p,
        p + a.len() + b.len() <= t.len(),
        t.subrange(p, p + a.len() + b.len()) == a + b,
    ensures
        t.subrange(p, p + a.len()) == a,
        t.subrange(p + a.len(), p + a.len() + b.len()) == b,
{
    assert forall|i: int| 0 <= i < a.len() implies t.subrange(p, p + a.len())[i] == a[i] by {
        assert(t.subrange(p, p + a.len() + b.len())[i] == (a + b)[i]);
    }
    assert forall|i: int| 0 <= i < b.len() implies t.subrange(p + a.len(), p + a.len() + b.len())[i]
        == b[i] by {
        assert(t.subrange(p, p + a.len() + b.len())[a.len() + i] == (a + b)[a.len() + i]);
        assert(t.subrange(p, p + a.len() + b.len())[a.len() + i] == t[p + a.len() + i]);
        assert(t.subrange(p + a.len(), p + a.len() + b.len())[i] == t[p + a.len() + i]);
    }
    assert(t.subrange(p, p + a.len()) =~= a);
    assert(t.subrange(p + a.len(), p + a.len() + b.len()) =~= b);
}

/// The first character the writer writes for a key that reads back starts a key for the reader.
proof fn lemma_key_start(k: Seq<char>, v: Seq<char>)
    requires
        pair_reads_back(k, v),
    ensures
        escape(k).len() > 0,
        !is_blank(escape(k)[0]),
        escape(k)[0] != ';',
        escape(k)[0] != '[',
        escape(k)[0] != '=',
{
    lemma_escape_front(k);
    let c = k[0];
    assert(char_reads_back(c));
    assert(escape_char(c).len() > 0);
    assert(escape(k)[0] == escape_char(c)[0]);
}

/// Two positions from which the reader skips to the same character read on alike.
proof fn lemma_items_skip(
    t: Seq<char>,
    p1: int,
    p2: int,
    d: Layout,
    key: Seq<char>,
    sec: Option<Seq<char>>,
)
    requires
        0 <= p1 < t.len(),
        0 <= p2 < t.len(),
        skip_blanks(t, p1) == skip_blanks(t, p2),
    ensures
        parse_items(t, p1, d, key, sec) == parse_items(t, p2, d, key, sec),
{
}

/// Reading the line of a pair sets the pair.
proof fn lemma_items_pair(
    t: Seq<char>,
    p: int,
    d: Layout,
    sec: Option<Seq<char>>,
    k: Seq<char>,
    v: Seq<char>,
)
    requires
        0 <= p,
        p + pair_line(k, v).len() <= t.len(),
        t.subrange(p, p + pair_line(k, v).len()) == pair_line(k, v),
        pair_reads_back(k, v),
    ensures
        parse_items(t, p, d, Seq::empty(), sec) == parse_items(
            t,
            p + pair_line(k, v).len(),
            layout_set(d, sec, k, v),
            Seq::empty(),
            sec,
        ),
{
    let ek = escape(k);
    let ev = escape(v);
    let r = p + ek.len();
    let line = pair_line(k, v);
    lemma_key_start(k, v);
    lemma_sub_parts(t, p, ek + seq!['='] + ev, seq!['\n']);
    lemma_sub_parts(t, p, ek + seq!['='], ev);
    lemma_sub_parts(t, p, ek, seq!['=']);
    assert(t[p] == ek[0]) by {
        assert(t.subrange(p, p + ek.len())[0] == ek[0]);
    }
    assert(t[r] == '=') by {
        assert(t.subrange(r, r + 1)[0] == '=');
    }
    assert(t[r + 1 + ev.len()] == '\n') by {
        assert(t.subrange(r + 1 + ev.len(), r + 2 + ev.len())[0] == '\n');
    }
    lemma_scan_escaped(t, p, Stop::Equals, Seq::empty(), k);
    lemma_scan_escaped(t, r + 1, Stop::LineEnd, Seq::empty(), v);
    assert(Seq::<char>::empty() + k =~= k);
    assert(Seq::<char>::empty() + v =~= v);
    lemma_trim(k);
    lemma_trim(v);
    assert(skip_blanks(t, p) == p);
    assert(skip_blanks(t, r) == r);
    assert(line.len() == ek.len() + ev.len() + 2);
    assert(step(t, r + 1 + ev.len()) == p + line.len());
    assert(trim(k) == k);
    assert(trim(v) == v);
    assert(parse_items(t, p, d, Seq::empty(), sec) == parse_items(t, r, d, k, sec));
    assert(k.len() > 0);
    assert(parse_items(t, r, d, k, sec) == parse_items(
        t,
        p + line.len(),
        layout_set(d, sec, k, v),
        Seq::empty(),
        sec,
    ));
}

/// Reading the lines of pairs sets the pairs one after the other.
proof fn lemma_items_pairs(
    t: Seq<char>,
    p: int,
    d: Layout,
    sec: Option<Seq<char>>,
    e: Seq<(Seq<char>, Seq<char>)>,
)
    requires
        0 <= p,
        p + property_lines(e).len() <= t.len(),
        t.subrange(p, p + property_lines(e).len()) == property_lines(e),
        forall|j: int| 0 <= j < e.len() ==> pair_reads_back((#[trigger] e[j]).0, e[j].1),
    ensures
        parse_items(t, p, d, Seq::empty(), sec) == parse_items(
            t,
            p + property_lines(e).len(),
            set_all(d, sec, e),
            Seq::empty(),
            sec,
        ),
    decreases e.len(),
{
    if e.len() > 0 {
        let e2 = e.drop_last();
        let a = property_lines(e2);
        let kv = e.last();
        let b = pair_line(kv.0, kv.1);
        assert(property_lines(e) =~= a + b);
        lemma_sub_parts(t, p, a, b);
        assert forall|j: int| 0 <= j < e2.len() implies pair_reads_back((#[trigger] e2[j]).0, e2[j].1) by {
            assert(e2[j] == e[j]);
        }
        lemma_items_pairs(t, p, d, sec, e2);
        assert(pair_reads_back(e[e.len() - 1].0, e[e.len() - 1].1));
        lemma_items_pair(t, p + a.len(), set_all(d, sec, e2), sec, kv.0, kv.1);
    }
}

/// Setting a new key of an existing section adds the pair last in that section.
proof fn lemma_set_step_present(d: Layout, sec: Option<Seq<char>>, k: Seq<char>, v: Seq<char>)
    requires
        find_key(d, sec) >= 0,
        find_key(d[find_key(d, sec)].1, k) == -1,
    ensures
        layout_set(d, sec, k, v) == d.update(
            find_key(d, sec),
            (sec, d[find_key(d, sec)].1.push((k, v))),
        ),
{
    lemma_find_key(d, sec);
}

/// Setting new keys one after the other in an existing section adds them last, in order.
proof fn lemma_set_all_present(d: Layout, sec: Option<Seq<char>>, e: Seq<(Seq<char>, Seq<char>)>)
    requires
        find_key(d, sec) >= 0,
        unique_keys(d[find_key(d, sec)].1 + e),
    ensures
        set_all(d, sec, e) == d.update(find_key(d, sec), (sec, d[find_key(d, sec)].1 + e)),
    decreases e.len(),
{
    let i = find_key(d, sec);
    lemma_find_key(d, sec);
    let e0 = d[i].1;
    if e.len() == 0 {
        assert(e0 + e =~= e0);
        assert(d.update(i, (sec, e0 + e)) =~= d);
    } else {
        let e2 = e.drop_last();
        assert(unique_keys(e0 + e2)) by {
            assert forall|a: int, b: int| 0 <= a < b < (e0 + e2).len() implies (e0 + e2)[a].0 != (e0
                + e2)[b].0 by {
                assert((e0 + e2)[a] == (e0 + e)[a]);
                assert((e0 + e2)[b] == (e0 + e)[b]);
            }
        }
        lemma_set_all_present(d, sec, e2);
        let d2 = set_all(d, sec, e2);
        assert forall|j: int| 0 <= j < d.len() implies #[trigger] d[j].0 == d2[j].0 by {}
        lemma_find_key_same_keys(d, d2, sec);
        let kv = e.last();
        lemma_find_key(e0 + e2, kv.0);
        assert(find_key(e0 + e2, kv.0) == -1) by {
            assert forall|j: int| 0 <= j < (e0 + e2).len() implies (e0 + e2)[j].0 != kv.0 by {
                assert((e0 + e2)[j] == (e0 + e)[j]);
                assert((e0 + e)[(e0 + e).len() - 1] == kv);
            }
        }
        assert(d2[i].1 == e0 + e2);
        lemma_set_step_present(d2, sec, kv.0, kv.1);
        assert((e0 + e2).push(kv) =~= e0 + e);
        assert(d2.update(i, (sec, (e0 + e2).push(kv))) =~= d.update(i, (sec, e0 + e)));
    }
}

/// Setting keys one after the other in a missing section adds the section last with them.
proof fn lemma_set_all_absent(d: Layout, sec: Option<Seq<char>>, e: Seq<(Seq<char>, Seq<char>)>)
    requires
        find_key(d, sec) == -1,
        e.len() > 0,
        unique_keys(e),
    ensures
        set_all(d, sec, e) == d.push((sec, e)),
    decreases e.len(),
{
    let e2 = e.drop_last();
    let kv = e.last();
    lemma_find_key(d, sec);
    if e2.len() == 0 {
        let d1 = layout_touch(d, sec);
        assert(d1 == d.push((sec, Seq::<(Seq<char>, Seq<char>)>::empty())));
        lemma_find_key(d1, sec);
        assert(d1[d.len() as int].0 == sec);
        assert(find_key(d1, sec) == d.len());
        assert(find_key(Seq::<(Seq<char>, Seq<char>)>::empty(), kv.0) == -1);
        assert(assoc_set(Seq::<(Seq<char>, Seq<char>)>::empty(), kv.0, kv.1) =~= e);
        assert(layout_set(d, sec, kv.0, kv.1) =~= d.push((sec, e)));
        assert(set_all(d, sec, e2) == d);
        assert(set_all(d, sec, e) == layout_set(set_all(d, sec, e2), sec, kv.0, kv.1));
    } else {
        assert(unique_keys(e2));
        lemma_set_all_absent(d, sec, e2);
        let d2 = d.push((sec, e2));
        lemma_find_key(d2, sec);
        assert(d2[d.len() as int].0 == sec);
        assert(find_key(d2, sec) == d.len()) by {
            assert forall|j: int| 0 <= j < d.len() implies d2[j].0 != sec by {
                assert(d2[j] == d[j]);
            }
        }
        lemma_find_key(e2, kv.0);
        assert(find_key(e2, kv.0) == -1) by {
            assert forall|j: int| 0 <= j < e2.len() implies e2[j].0 != kv.0 by {
                assert(e2[j] == e[j]);
            }
        }
        lemma_set_step_present(d2, sec, kv.0, kv.1);
        assert(e2.push(kv) =~= e);
        assert(d2.update(d.len() as int, (sec, e2.push(kv))) =~= d.push((sec, e)));
        assert(set_all(d, sec, e) == layout_set(set_all(d, sec, e2), sec, kv.0, kv.1));
    }
}

/// How the text of the named sections starts.
proof fn lemma_sections_text_start(x: Layout, first: bool)
    ensures
        named_sections(x).len() == 0 ==> sections_text(x, first) == Seq::<char>::empty(),
        named_sections(x).len() > 0 ==> {
            &&& sections_text(x, first).len() >= 2
            &&& first ==> sections_text(x, first)[0] == '['
            &&& !first ==> sections_text(x, first)[0] == '\n' && sections_text(x, first)[1] == '['
        },
    decreases x.len(),
{
    if x.len() > 0 {
        lemma_sections_text_start(x.drop_first(), first);
        lemma_sections_text_start(x.drop_first(), false);
    }
}

/// The lines of pairs start with the first key as the writer writes it.
proof fn lemma_property_lines_start(e: Seq<(Seq<char>, Seq<char>)>)
    requires
        e.len() > 0,
        e[0].0.len() > 0,
    ensures
        property_lines(e).len() > 0,
        property_lines(e)[0] == escape(e[0].0)[0],
    decreases e.len(),
{
    lemma_escape_front(e[0].0);
    if e.len() == 1 {
        assert(e.drop_last() =~= Seq::<(Seq<char>, Seq<char>)>::empty());
        assert(property_lines(e.drop_last()) == Seq::<char>::empty());
    } else {
        lemma_property_lines_start(e.drop_last());
        assert(e.drop_last()[0] == e[0]);
    }
}

/// Sections whose names and pairs read back.
pub open spec fn sections_read_back(d: Layout) -> bool {
    forall|i: int|
        0 <= i < d.len() ==> pairs_read_back((#[trigger] d[i]).1) && (d[i].0 matches Some(n)
            ==> name_reads_back(n))
}

/// The last named section has pairs (the text of an empty one would end in a
/// blank line, on which the reader gets stuck).
pub open spec fn last_named_has_pairs(d: Layout) -> bool {
    named_sections(d).len() > 0 ==> named_sections(d).last().1.len() > 0
}

/// Reading the text of named sections adds them, in order, to what was read before.
proof fn lemma_items_sections(
    t: Seq<char>,
    p: int,
    dd: Layout,
    sec: Option<Seq<char>>,
    x: Layout,
    first: bool,
)
    requires
        0 <= p,
        p + sections_text(x, first).len() == t.len(),
        t.subrange(p, t.len() as int) == sections_text(x, first),
        unique_keys(x),
        forall|i: int| 0 <= i < x.len() && (#[trigger] x[i]).0 is Some ==> find_key(dd, x[i].0) == -1,
        sections_read_back(x),
        last_named_has_pairs(x),
    ensures
        parse_items(t, p, dd, Seq::empty(), sec) == Parsed::Done(dd + named_sections(x)),
    decreases x.len(),
{
    if x.len() == 0 {
        assert(dd + named_sections(x) =~= dd);
    } else {
        let rest = x.drop_first();
        assert(unique_keys(rest)) by {
            assert forall|a: int, b: int| 0 <= a < b < rest.len() implies rest[a].0 != rest[b].0 by {
                assert(rest[a] == x[a + 1]);
                assert(rest[b] == x[b + 1]);
            }
        }
        assert(sections_read_back(rest)) by {
            assert forall|i: int| 0 <= i < rest.len() implies pairs_read_back((#[trigger] rest[i]).1) && (
            rest[i].0 matches Some(n) ==> name_reads_back(n)) by {
                assert(rest[i] == x[i + 1]);
            }
        }
        if x[0].0 is None {
            assert(forall|i: int| 0 <= i < rest.len() ==> #[trigger] rest[i] == x[i + 1]);
            lemma_items_sections(t, p, dd, sec, rest, first);
        } else {
            let nm = x[0].0->0;
            let e = x[0].1;
            let sep: Seq<char> = if first {
                Seq::empty()
            } else {
                seq!['\n']
            };
            let en = escape(nm);
            let pl = property_lines(e);
            let st = sections_text(rest, false);
            assert(sections_text(x, first) =~= sep + seq!['['] + en + seq![']', '\n'] + pl + st);
            let p0 = p + sep.len();
            let r = p0 + 1 + en.len();
            let p2 = r + 2;
            lemma_sub_parts(t, p, sep + seq!['['] + en + seq![']', '\n'] + pl, st);
            lemma_sub_parts(t, p, sep + seq!['['] + en + seq![']', '\n'], pl);
            lemma_sub_parts(t, p, sep + seq!['['] + en, seq![']', '\n']);
            lemma_sub_parts(t, p, sep + seq!['['], en);
            lemma_sub_parts(t, p, sep, seq!['[']);
            assert(t[p0] == '[') by {
                assert(t.subrange(p0, p0 + 1)[0] == '[');
            }
            assert(t[r] == ']' && t[r + 1] == '\n') by {
                assert(t.subrange(r, r + 2)[0] == ']');
                assert(t.subrange(r, r + 2)[1] == '\n');
            }
            assert(p2 + pl.len() + st.len() == t.len());
            assert(t.subrange(p2 + pl.len(), t.len() as int) == st);
            assert(forall|i: int| 0 <= i < rest.len() ==> #[trigger] rest[i] == x[i + 1]);
            if !first {
                assert(t[p] == '\n') by {
                    assert(t.subrange(p, p + 1)[0] == '\n');
                }
                assert(skip_blanks(t, p) == skip_blanks(t, p0));
            }
            assert(skip_blanks(t, p0) == p0);
            assert(parse_items(t, p, dd, Seq::empty(), sec) == parse_items(t, p0, dd, Seq::empty(), sec));
            assert(name_reads_back(nm));
            lemma_scan_escaped(t, p0 + 1, Stop::Bracket, Seq::empty(), nm);
            assert(Seq::<char>::empty() + nm =~= nm);
            lemma_trim(nm);
            assert(trim(nm) == nm);
            assert(x[0].0 == Some(nm));
            assert(find_key(dd, Some(nm)) == -1);
            let d1 = dd.push((Some(nm), Seq::<(Seq<char>, Seq<char>)>::empty()));
            assert(layout_touch(dd, Some(nm)) == d1);
            assert(parse_items(t, p0, dd, Seq::empty(), sec) == parse_items(
                t,
                r + 1,
                d1,
                Seq::empty(),
                Some(nm),
            ));
            lemma_find_key(dd, Some(nm));
            lemma_find_key(d1, Some(nm));
            assert(d1[dd.len() as int].0 == Some(nm));
            assert(find_key(d1, Some(nm)) == dd.len());
            let d2 = dd.push(x[0]);
            assert forall|i: int| 0 <= i < rest.len() && (#[trigger] rest[i]).0 is Some implies find_key(
                d2,
                rest[i].0,
            ) == -1 by {
                assert(rest[i] == x[i + 1]);
                assert(x[i + 1].0 != x[0].0);
                lemma_find_key(dd, rest[i].0);
                lemma_find_key(d2, rest[i].0);
                assert forall|j: int| 0 <= j < d2.len() implies d2[j].0 != rest[i].0 by {
                    if j < dd.len() {
                        assert(d2[j] == dd[j]);
                    }
                }
            }
            if named_sections(rest).len() > 0 {
                assert(named_sections(x) == seq![x[0]] + named_sections(rest));
                assert(named_sections(x).last() == named_sections(rest).last());
            }
            assert(named_sections(x) == seq![x[0]] + named_sections(rest));
            assert(dd + named_sections(x) =~= d2 + named_sections(rest));
            if e.len() > 0 {
                assert(pairs_read_back(e));
                assert(pair_reads_back(e[0].0, e[0].1));
                lemma_property_lines_start(e);
                lemma_key_start(e[0].0, e[0].1);
                assert(t[p2] == pl[0]) by {
                    assert(t.subrange(p2, p2 + pl.len())[0] == pl[0]);
                }
                assert(skip_blanks(t, r + 1) == skip_blanks(t, p2));
                lemma_items_skip(t, r + 1, p2, d1, Seq::empty(), Some(nm));
                assert forall|j: int| 0 <= j < e.len() implies pair_reads_back((#[trigger] e[j]).0, e[j].1) by {}
                lemma_items_pairs(t, p2, d1, Some(nm), e);
                assert(Seq::<(Seq<char>, Seq<char>)>::empty() + e =~= e);
                assert(d1[find_key(d1, Some(nm))].1 + e =~= e);
                lemma_set_all_present(d1, Some(nm), e);
                assert(set_all(d1, Some(nm), e) =~= d2);
                lemma_items_sections(t, p2 + pl.len(), d2, Some(nm), rest, false);
            } else {
                assert(named_sections(rest).len() > 0);
                lemma_sections_text_start(rest, false);
                assert(pl.len() == 0);
                assert(t[p2] == '\n' && t[p2 + 1] == '[') by {
                    assert(t.subrange(p2, t.len() as int)[0] == st[0]);
                    assert(t.subrange(p2, t.len() as int)[1] == st[1]);
                }
                assert(skip_blanks(t, r + 1) == skip_blanks(t, p2));
                lemma_items_skip(t, r + 1, p2, d1, Seq::empty(), Some(nm));
                assert(e =~= Seq::<(Seq<char>, Seq<char>)>::empty());
                assert(d1 =~= d2);
                lemma_items_sections(t, p2, d2, Some(nm), rest, false);
            }
        }
    }
}

/// A document that the writer writes so that the reader reads it back: no
/// section name twice; names, keys and values that read back; a general
/// section, if any, with pairs; and text that does not end in a named section
/// without pairs (nor is empty).
pub open spec fn document_reads_back(d: Layout) -> bool {
    &&& unique_keys(d)
    &&& sections_read_back(d)
    &&& find_key(d, None) >= 0 ==> d[find_key(d, None)].1.len() > 0
    &&& find_key(d, None) >= 0 || named_sections(d).len() > 0
    &&& last_named_has_pairs(d)
}

/// The document that reading back the text of `d` gives: the general section
/// (if any) first, then the named sections in their order.
pub open spec fn read_back(d: Layout) -> Layout {
    let g = find_key(d, None);
    if g >= 0 {
        seq![d[g]] + named_sections(d)
    } else {
        named_sections(d)
    }
}

/// A pair put in front of pairs with other keys adds it to their map.
proof fn lemma_assoc_map_front<K, V>(a: (K, V), s: Seq<(K, V)>)
    requires
        unique_keys(seq![a] + s),
    ensures
        assoc_map(seq![a] + s) == assoc_map(s).insert(a.0, a.1),
    decreases s.len(),
{
    let t = seq![a] + s;
    if s.len() == 0 {
        assert(t =~= seq![a]);
        assert(t.drop_last() =~= Seq::<(K, V)>::empty());
        assert(t.last() == a);
        assert(s =~= Seq::<(K, V)>::empty());
        assert(assoc_map(t) == assoc_map(t.drop_last()).insert(a.0, a.1));
        assert(assoc_map(t) =~= assoc_map(s).insert(a.0, a.1));
    } else {
        let s2 = s.drop_last();
        let b = s.last();
        assert(t.drop_last() =~= seq![a] + s2);
        assert(t.last() == b);
        assert(unique_keys(seq![a] + s2)) by {
            assert forall|x: int, y: int| 0 <= x < y < (seq![a] + s2).len() implies (seq![a]
                + s2)[x].0 != (seq![a] + s2)[y].0 by {
                assert((seq![a] + s2)[x] == t[x]);
                assert((seq![a] + s2)[y] == t[y]);
            }
        }
        lemma_assoc_map_front(a, s2);
        assert(t[0] == a);
        assert(t[t.len() - 1] == b);
        assert(a.0 != b.0);
        assert(assoc_map(t) == assoc_map(seq![a] + s2).insert(b.0, b.1));
        assert(s.drop_last() == s2);
        assert(assoc_map(s) == assoc_map(s2).insert(b.0, b.1));
        assert(assoc_map(t) =~= assoc_map(s).insert(a.0, a.1));
    }
}

/// The named sections of a document: the document without its general section.
proof fn lemma_named_sections(d: Layout)
    requires
        unique_keys(d),
    ensures
        unique_keys(named_sections(d)),
        layout_map(named_sections(d)) == layout_map(d).remove(None),
        forall|i: int| 0 <= i < named_sections(d).len() ==> (#[trigger] named_sections(d)[i]).0 is Some,
    decreases d.len(),
{
    if d.len() == 0 {
        assert(layout_map(d) =~= layout_map(d).remove(None));
    } else {
        let x = d[0];
        let rest = d.drop_first();
        assert(d =~= seq![x] + rest);
        assert(unique_keys(rest)) by {
            assert forall|a: int, b: int| 0 <= a < b < rest.len() implies rest[a].0 != rest[b].0 by {
                assert(rest[a] == d[a + 1]);
                assert(rest[b] == d[b + 1]);
            }
        }
        lemma_named_sections(rest);
        let nr = named_sections(rest);
        let vx = (x.0, assoc_map(x.1));
        assert(layout_sections(d) =~= seq![vx] + layout_sections(rest));
        lemma_layout_find(d, None);
        lemma_layout_find(rest, None);
        lemma_assoc_map_front(vx, layout_sections(rest));
        lemma_find_key(rest, x.0);
        assert(find_key(rest, x.0) == -1) by {
            assert forall|i: int| 0 <= i < rest.len() implies rest[i].0 != x.0 by {
                assert(rest[i] == d[i + 1]);
            }
        }
        crate::document::lemma_layout_map(rest);
        crate::document::lemma_layout_map(nr);
        if x.0 is None {
            assert(layout_map(nr) =~= layout_map(d).remove(None));
        } else {
            let nd = named_sections(d);
            assert(nd == seq![x] + nr);
            lemma_find_key(nr, x.0);
            assert(!layout_map(rest).dom().contains(x.0));
            assert(!layout_map(nr).dom().contains(x.0));
            assert(find_key(nr, x.0) == -1);
            assert(unique_keys(nd)) by {
                assert forall|a: int, b: int| 0 <= a < b < nd.len() implies nd[a].0 != nd[b].0 by {
                    assert(nd[b] == nr[b - 1]);
                    if a > 0 {
                        assert(nd[a] == nr[a - 1]);
                    }
                }
            }
            assert(layout_sections(nd) =~= seq![vx] + layout_sections(nr));
            lemma_layout_find(nd, None);
            lemma_layout_find(nr, None);
            lemma_assoc_map_front(vx, layout_sections(nr));
            assert(layout_map(nd) =~= layout_map(d).remove(None));
            assert forall|i: int| 0 <= i < nd.len() implies (#[trigger] nd[i]).0 is Some by {
                if i > 0 {
                    assert(nd[i] == nr[i - 1]);
                }
            }
        }
    }
}

/// The document read back has the sections and properties of the one written.
pub proof fn law_read_back_same_map(d: Layout)
    requires
        unique_keys(d),
    ensures
        layout_map(read_back(d)) == layout_map(d),
{
    let g = find_key(d, None);
    lemma_find_key(d, None);
    lemma_named_sections(d);
    let nd = named_sections(d);
    crate::document::lemma_layout_map(d);
    if g >= 0 {
        let r = read_back(d);
        assert(r == seq![d[g]] + nd);
        lemma_find_key(nd, None);
        assert(unique_keys(r)) by {
            assert forall|a: int, b: int| 0 <= a < b < r.len() implies r[a].0 != r[b].0 by {
                assert(r[b] == nd[b - 1]);
                if a > 0 {
                    assert(r[a] == nd[a - 1]);
                }
            }
        }
        let vg = (d[g].0, assoc_map(d[g].1));
        assert(layout_sections(r) =~= seq![vg] + layout_sections(nd));
        lemma_layout_find(r, None);
        lemma_layout_find(nd, None);
        lemma_assoc_map_front(vg, layout_sections(nd));
        assert(layout_map(r) =~= layout_map(d));
    } else {
        assert(layout_map(d).remove(None) =~= layout_map(d));
    }
}

/// Reading the text that the writer writes for a document gives the document
/// back, with its general section moved first.
pub proof fn law_read_back_written(d: Layout)
    requires
        document_reads_back(d),
    ensures
        parse_text(ini_text(d)) == Parsed::Done(read_back(d)),
{
    let t = ini_text(d);
    let g = find_key(d, None);
    lemma_find_key(d, None);
    if g >= 0 {
        let e = d[g].1;
        let pl = property_lines(e);
        let st = sections_text(d, false);
        assert(t == pl + st);
        assert(pairs_read_back(e));
        assert(pair_reads_back(e[0].0, e[0].1));
        lemma_property_lines_start(e);
        lemma_key_start(e[0].0, e[0].1);
        assert(t[0] == pl[0]);
        assert(skip_blanks(t, 0) == 0);
        assert(t.subrange(0, pl.len() as int) =~= pl);
        assert forall|j: int| 0 <= j < e.len() implies pair_reads_back((#[trigger] e[j]).0, e[j].1) by {}
        lemma_items_pairs(t, 0, Seq::empty(), None, e);
        lemma_find_key(Seq::<(Option<Seq<char>>, Seq<(Seq<char>, Seq<char>)>)>::empty(), None);
        lemma_set_all_absent(Seq::empty(), None, e);
        let d1 = Seq::<(Option<Seq<char>>, Seq<(Seq<char>, Seq<char>)>)>::empty().push((None, e));
        assert(d1 =~= seq![d[g]]);
        assert(t.subrange(pl.len() as int, t.len() as int) =~= st);
        assert forall|i: int| 0 <= i < d.len() && (#[trigger] d[i]).0 is Some implies find_key(d1, d[i].0)
            == -1 by {
            lemma_find_key(d1, d[i].0);
        }
        lemma_items_sections(t, pl.len() as int, d1, None, d, false);
    } else {
        lemma_sections_text_start(d, true);
        assert(t == sections_text(d, true));
        assert(skip_blanks(t, 0) == 0);
        assert(t.subrange(0, t.len() as int) =~= t);
        let d0 = Seq::<(Option<Seq<char>>, Seq<(Seq<char>, Seq<char>)>)>::empty();
        assert forall|i: int| 0 <= i < d.len() && (#[trigger] d[i]).0 is Some implies find_key(d0, d[i].0)
            == -1 by {}
        lemma_items_sections(t, 0, d0, None, d, true);
        assert(d0 + named_sections(d) =~= named_sections(d));
    }
}

/// Reading what `escape_str` wrote: at the start of `escape(s)` followed by a
/// stop, the reader reads `s` back and stands at the stop.
pub proof fn law_read_back_escaped(s: Seq<char>, rest: Seq<char>, stop: Stop)
    requires
        text_reads_back(s, stop),
        at_stop(escape(s) + rest, escape(s).len() as int, stop),
    ensures
        scan(escape(s) + rest, 0, stop, Seq::empty()) == Scanned::Text(s, escape(s).len() as int),
{
    let t = escape(s) + rest;
    assert(t.subrange(0, escape(s).len() as int) =~= escape(s));
    lemma_scan_escaped(t, 0, stop, Seq::empty(), s);
    assert(Seq::<char>::empty() + s =~= s);
}

/// Writing a document and reading the text back gives a document with the
/// same sections and the same properties in each.
pub proof fn law_load_after_write(d: Layout)
    requires
        document_reads_back(d),
    ensures
        parse_text(ini_text(d)) matches Parsed::Done(r) && layout_map(r) == layout_map(d),
{
    law_read_back_written(d);
    law_read_back_same_map(d);
}

} // verus!
