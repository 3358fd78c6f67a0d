//! What the reader does with single characters, stated over the characters
//! themselves: which it skips between items, which it trims, which end a run
//! of text, how it reads plain text and hexadecimal digits.
use vstd::prelude::*;
use crate::document::{layout_set, layout_touch, Layout};
use crate::grammar::{
    all_hex, at_stop, digits_value, hex_code, hex_value, is_char_code, line_end, missing_key_message,
    parse_items, radix16, scan, sign_dropped, skip_blanks, step, Hex, Parsed, Scanned, Stop,
};
use crate::text::{is_white_space, lemma_trim, trim, trim_end, trim_start};

verus! {

/// Between items the reader skips a space, a tab, a carriage return and a
/// line feed: reading from such a character (one that does not end the text)
/// gives what reading from the next one gives. So a text with CRLF line ends
/// reads as the same text with LF line ends wherever blanks are skipped.
pub proof fn law_reader_skips_blanks(
    t: Seq<char>,
    p: int,
    d: Layout,
    key: Seq<char>,
    sec: Option<Seq<char>>,
)
    requires
        0 <= p,
        p + 1 < t.len(),
        t[p] == ' ' || t[p] == '\t' || t[p] == '\r' || t[p] == '\n',
    ensures
        parse_items(t, p, d, key, sec) == parse_items(t, p + 1, d, key, sec),
{
    assert(skip_blanks(t, p) == skip_blanks(t, p + 1));
}

/// The reader skips nothing else: at any other character an item starts.
pub proof fn law_reader_skips_only_blanks(t: Seq<char>, p: int)
    requires
        0 <= p < t.len(),
        !(t[p] == ' ' || t[p] == '\t' || t[p] == '\r' || t[p] == '\n'),
    ensures
        skip_blanks(t, p) == p,
{
}

/// The characters that trimming removes: those with the Unicode `White_Space`
/// property, as `char::is_whitespace` and `str::trim` have them.
proof fn lemma_white_space_is_unicode(c: char)
    ensures
        is_white_space(c) <==> {
            let n = c as u32;
            ||| 0x09 <= n <= 0x0d
            ||| n == 0x20
            ||| n == 0x85
            ||| n == 0xa0
            ||| n == 0x1680
            ||| 0x2000 <= n <= 0x200a
            ||| n == 0x2028
            ||| n == 0x2029
            ||| n == 0x202f
            ||| n == 0x205f
            ||| n == 0x3000
        },
{
}

/// A text whose first and last characters are not Unicode white space
/// (`char::is_whitespace`) is kept whole by trimming.
pub proof fn law_trim_keeps_other_ends(s: Seq<char>)
    requires
        s.len() > 0,
        !{
            let n = s[0] as u32;
            ||| 0x09 <= n <= 0x0d
            ||| n == 0x20
            ||| n == 0x85
            ||| n == 0xa0
            ||| n == 0x1680
            ||| 0x2000 <= n <= 0x200a
            ||| n == 0x2028
            ||| n == 0x2029
            ||| n == 0x202f
            ||| n == 0x205f
            ||| n == 0x3000
        },
        !{
            let n = s.last() as u32;
            ||| 0x09 <= n <= 0x0d
            ||| n == 0x20
            ||| n == 0x85
            ||| n == 0xa0
            ||| n == 0x1680
            ||| 0x2000 <= n <= 0x200a
            ||| n == 0x2028
            ||| n == 0x2029
            ||| n == 0x202f
            ||| n == 0x205f
            ||| n == 0x3000
        },
    ensures
        trim(s) == s,
{
    lemma_white_space_is_unicode(s[0]);
    lemma_white_space_is_unicode(s.last());
    lemma_trim(s);
}

proof fn lemma_trim_start_push(s: Seq<char>, c: char)
    ensures
        trim_start(s.push(c)) == (if trim_start(s).len() == 0 && is_white_space(c) {
            Seq::<char>::empty()
        } else {
            trim_start(s).push(c)
        }),
    decreases s.len(),
{
    if s.len() == 0 {
        assert(s.push(c).drop_first() =~= Seq::<char>::empty());
        assert(trim_start(Seq::<char>::empty()) == Seq::<char>::empty());
        assert(s =~= Seq::<char>::empty());
        assert(Seq::<char>::empty().push(c) =~= s.push(c));
    } else if is_white_space(s[0]) {
        assert(s.push(c).drop_first() =~= s.drop_first().push(c));
        lemma_trim_start_push(s.drop_first(), c);
    } else {
        assert(s.push(c)[0] == s[0]);
    }
}

/// Trimming removes Unicode white space (`char::is_whitespace`) at either end:
/// such a character put before or after a text leaves its trimmed form as it was.
pub proof fn law_trim_drops_white_space(s: Seq<char>, c: char)
    requires
        ({
            let n = c as u32;
            ||| 0x09 <= n <= 0x0d
            ||| n == 0x20
            ||| n == 0x85
            ||| n == 0xa0
            ||| n == 0x1680
            ||| 0x2000 <= n <= 0x200a
            ||| n == 0x2028
            ||| n == 0x2029
            ||| n == 0x202f
            ||| n == 0x205f
            ||| n == 0x3000
        }),
    ensures
        trim(seq![c] + s) == trim(s),
        trim(s.push(c)) == trim(s),
{
    lemma_white_space_is_unicode(c);
    let u = seq![c] + s;
    assert(u.drop_first() =~= s);
    assert(u[0] == c);
    lemma_trim_start_push(s, c);
    let a = trim_start(s);
    if !(a.len() == 0) {
        assert(a.push(c).drop_last() =~= a);
    }
}

/// Where a run of text ends: a name at `]`, a key at `=`, a value at a line
/// feed or at the end of the text, and nowhere else.
pub proof fn law_run_ends(t: Seq<char>, p: int)
    requires
        0 <= p,
    ensures
        at_stop(t, p, Stop::Bracket) <==> (p < t.len() && t[p] == ']'),
        at_stop(t, p, Stop::Equals) <==> (p < t.len() && t[p] == '='),
        at_stop(t, p, Stop::LineEnd) <==> (p >= t.len() || t[p] == '\n'),
{
}

/// A run of plain characters reads as itself: from `p`, over characters none
/// of which is a backslash or ends the run (`]` for a name, `=` for a key, a
/// line feed for a value), up to the end of the run at `r`, the reader reads
/// exactly those characters and stops at `r`. So a value may hold `=`, and
/// any character outside an escape is kept as it is.
pub proof fn law_plain_text_reads_as_itself(t: Seq<char>, p: int, r: int, stop: Stop, acc: Seq<char>)
    requires
        0 <= p <= r <= t.len(),
        forall|i: int|
            p <= i < r ==> {
                &&& #[trigger] t[i] != '\\'
                &&& (stop == Stop::Bracket ==> t[i] != ']')
                &&& (stop == Stop::Equals ==> t[i] != '=')
                &&& (stop == Stop::LineEnd ==> t[i] != '\n')
            },
        match stop {
            Stop::Bracket => r < t.len() && t[r] == ']',
            Stop::Equals => r < t.len() && t[r] == '=',
            Stop::LineEnd => r == t.len() || t[r] == '\n',
        },
    ensures
        scan(t, p, stop, acc) == Scanned::Text(acc + t.subrange(p, r), r),
    decreases r - p,
{
    if p == r {
        assert(acc + t.subrange(p, r) =~= acc);
    } else {
        assert(t[p] != '\\');
        assert(!at_stop(t, p, stop));
        law_plain_text_reads_as_itself(t, p + 1, r, stop, acc.push(t[p]));
        assert(acc.push(t[p]) + t.subrange(p + 1, r) =~= acc + t.subrange(p, r));
    }
}

/// The value of a hexadecimal digit, in either case, as `u32::from_str_radix`
/// reads it with radix 16; any other character is no digit.
pub proof fn law_hex_digits(c: char)
    ensures
        '0' <= c <= '9' ==> hex_value(c) == c as int - 48,
        'a' <= c <= 'f' ==> hex_value(c) == c as int - 87,
        'A' <= c <= 'F' ==> hex_value(c) == c as int - 55,
        !('0' <= c <= '9' || 'a' <= c <= 'f' || 'A' <= c <= 'F') ==> hex_value(c) < 0,
{
}

/// Four hexadecimal digits, in either case, read as the number they write in
/// base 16, the first digit the highest.
pub proof fn law_hex_code_value(code: Seq<char>)
    requires
        code.len() == 4,
        forall|i: int|
            0 <= i < 4 ==> ('0' <= #[trigger] code[i] <= '9' || 'a' <= code[i] <= 'f' || 'A' <= code[i]
                <= 'F'),
    ensures
        radix16(code) == Some(
            hex_value(code[0]) * 4096 + hex_value(code[1]) * 256 + hex_value(code[2]) * 16 + hex_value(
                code[3],
            ),
        ),
        forall|i: int| 0 <= i < 4 ==> 0 <= #[trigger] hex_value(code[i]) < 16,
{
    assert(code[0] != '+');
    assert(sign_dropped(code) == code);
    assert(all_hex(code));
    let c3 = code.drop_last();
    let c2 = c3.drop_last();
    let c1 = c2.drop_last();
    let c0 = c1.drop_last();
    assert(c0.len() == 0);
    assert(c1.last() == code[0]);
    assert(c2.last() == code[1]);
    assert(c3.last() == code[2]);
    assert(digits_value(c0) == 0);
    assert(digits_value(c1) == hex_value(code[0]));
    assert(digits_value(c2) == hex_value(code[0]) * 16 + hex_value(code[1]));
    assert(digits_value(c3) == (hex_value(code[0]) * 16 + hex_value(code[1])) * 16 + hex_value(code[2]));
}

/// A backslash escape reads as the character it stands for: `\0` a NUL, `\a`
/// a bell, `\b` a backspace, `\t` a tab, `\r` a carriage return, `\n` a line
/// feed, and a backslash before any other character (but `x` and a line
/// feed) that character itself.
pub proof fn law_escapes_read(t: Seq<char>, p: int, stop: Stop, acc: Seq<char>)
    requires
        0 <= p,
        p + 1 < t.len(),
        t[p] == '\\',
        t[p + 1] != 'x',
        t[p + 1] != '\n',
    ensures
        scan(t, p, stop, acc) == scan(
            t,
            p + 2,
            stop,
            acc.push(
                if t[p + 1] == '0' {
                    '\0'
                } else if t[p + 1] == 'a' {
                    '\x07'
                } else if t[p + 1] == 'b' {
                    '\x08'
                } else if t[p + 1] == 't' {
                    '\t'
                } else if t[p + 1] == 'r' {
                    '\r'
                } else if t[p + 1] == 'n' {
                    '\n'
                } else {
                    t[p + 1]
                },
            ),
        ),
{
    assert(!at_stop(t, p, stop));
}

/// A backslash before a line feed joins the lines: both are dropped.
pub proof fn law_escaped_line_feed_is_dropped(t: Seq<char>, p: int, stop: Stop, acc: Seq<char>)
    requires
        0 <= p,
        p + 1 < t.len(),
        t[p] == '\\',
        t[p + 1] == '\n',
    ensures
        scan(t, p, stop, acc) == scan(t, p + 2, stop, acc),
{
    assert(!at_stop(t, p, stop));
}

/// `\x` and four hexadecimal digits (in either case) read as the character
/// with the code that the digits write in base 16; a surrogate code leaves the
/// reader stuck.
pub proof fn law_hex_escape_reads(t: Seq<char>, p: int, stop: Stop, acc: Seq<char>)
    requires
        0 <= p,
        p + 5 < t.len(),
        t[p] == '\\',
        t[p + 1] == 'x',
        forall|i: int|
            p + 2 <= i < p + 6 ==> ('0' <= #[trigger] t[i] <= '9' || 'a' <= t[i] <= 'f' || 'A' <= t[i]
                <= 'F'),
    ensures
        ({
            let n = hex_value(t[p + 2]) * 4096 + hex_value(t[p + 3]) * 256 + hex_value(t[p + 4]) * 16
                + hex_value(t[p + 5]);
            &&& 0 <= n < 0x10000
            &&& (n < 0xD800 || n >= 0xE000) ==> scan(t, p, stop, acc) == scan(
                t,
                p + 6,
                stop,
                acc.push(n as char),
            )
            &&& (0xD800 <= n < 0xE000) ==> scan(t, p, stop, acc) == Scanned::Stuck
        }),
{
    assert(!at_stop(t, p, stop));
    let code = t.subrange(p + 2, p + 6);
    assert(code.len() == 4);
    assert forall|i: int|
        0 <= i < 4 implies ('0' <= #[trigger] code[i] <= '9' || 'a' <= code[i] <= 'f' || 'A' <= code[i]
        <= 'F') by {
        assert(code[i] == t[p + 2 + i]);
    }
    law_hex_code_value(code);
    let e = Seq::<char>::empty();
    assert(t[p + 2] != '\\' && t[p + 3] != '\\' && t[p + 4] != '\\' && t[p + 5] != '\\');
    let c4 = e.push(t[p + 2]).push(t[p + 3]).push(t[p + 4]).push(t[p + 5]);
    assert(hex_code(t, p + 5, 4, c4, stop) == Hex::Code(c4, p + 5));
    assert(hex_code(t, p + 4, 3, e.push(t[p + 2]).push(t[p + 3]).push(t[p + 4]), stop) == Hex::Code(c4, p + 5));
    assert(hex_code(t, p + 3, 2, e.push(t[p + 2]).push(t[p + 3]), stop) == Hex::Code(c4, p + 5));
    assert(hex_code(t, p + 2, 1, e.push(t[p + 2]), stop) == Hex::Code(c4, p + 5));
    assert(hex_code(t, p + 1, 0, e, stop) == Hex::Code(
        e.push(t[p + 2]).push(t[p + 3]).push(t[p + 4]).push(t[p + 5]),
        p + 5,
    ));
    assert(e.push(t[p + 2]).push(t[p + 3]).push(t[p + 4]).push(t[p + 5]) =~= code);
    assert(code[0] == t[p + 2] && code[1] == t[p + 3] && code[2] == t[p + 4] && code[3] == t[p + 5]);
}

/// A comment runs from `;` through the next line feed, and is skipped.
pub proof fn law_comment_is_skipped(
    t: Seq<char>,
    p: int,
    r: int,
    d: Layout,
    key: Seq<char>,
    sec: Option<Seq<char>>,
)
    requires
        0 <= p < r < t.len(),
        t[p] == ';',
        forall|i: int| p < i < r ==> #[trigger] t[i] != '\n',
        t[r] == '\n',
    ensures
        parse_items(t, p, d, key, sec) == parse_items(t, r + 1, d, key, sec),
{
    assert(skip_blanks(t, p) == p);
    lemma_line_end_at(t, p, r);
}

proof fn lemma_line_end_at(t: Seq<char>, p: int, r: int)
    requires
        0 <= p <= r < t.len(),
        forall|i: int| p <= i < r ==> #[trigger] t[i] != '\n' || i == p,
        p < r ==> t[p] != '\n',
        t[r] == '\n',
    ensures
        line_end(t, p) == r,
    decreases r - p,
{
    if p < r {
        lemma_line_end_at(t, p + 1, r);
    }
}

/// A line `key=value`: a key of plain characters (no backslash, no `=`, not
/// starting with a blank, `;`, `[` or `=`), then `=`, then a value of plain
/// characters (no backslash, no line feed) up to a line feed or the end. It
/// sets the trimmed key to the trimmed value in the current section, and
/// reading goes on after the line; a key that trims to nothing is an error
/// at the `=`.
pub proof fn law_reads_a_pair(
    t: Seq<char>,
    p: int,
    e: int,
    r: int,
    d: Layout,
    sec: Option<Seq<char>>,
)
    requires
        0 <= p < e < r <= t.len(),
        !(t[p] == ' ' || t[p] == '\t' || t[p] == '\r' || t[p] == '\n' || t[p] == ';' || t[p] == '['),
        forall|i: int| p <= i < e ==> #[trigger] t[i] != '\\' && t[i] != '=',
        t[e] == '=',
        forall|i: int| e < i < r ==> #[trigger] t[i] != '\\' && t[i] != '\n',
        r == t.len() || t[r] == '\n',
    ensures
        trim(t.subrange(p, e)).len() > 0 ==> parse_items(t, p, d, Seq::empty(), sec) == parse_items(
            t,
            step(t, r),
            layout_set(d, sec, trim(t.subrange(p, e)), trim(t.subrange(e + 1, r))),
            Seq::empty(),
            sec,
        ),
        trim(t.subrange(p, e)).len() == 0 ==> parse_items(t, p, d, Seq::empty(), sec) == Parsed::Failed(
            e,
            missing_key_message(),
        ),
{
    let em = Seq::<char>::empty();
    assert(t[p] != '=');
    assert(skip_blanks(t, p) == p);
    let k = t.subrange(p, e);
    let v = t.subrange(e + 1, r);
    law_plain_text_reads_as_itself(t, p, e, Stop::Equals, em);
    assert(em + k =~= k);
    assert(scan(t, p, Stop::Equals, em) == Scanned::Text(k, e));
    assert(parse_items(t, p, d, em, sec) == parse_items(t, e, d, trim(k), sec));
    assert(skip_blanks(t, e) == e);
    law_plain_text_reads_as_itself(t, e + 1, r, Stop::LineEnd, em);
    assert(em + v =~= v);
    assert(scan(t, e + 1, Stop::LineEnd, em) == Scanned::Text(v, r));
    if trim(k).len() > 0 {
        assert(parse_items(t, e, d, trim(k), sec) == parse_items(
            t,
            step(t, r),
            layout_set(d, sec, trim(k), trim(v)),
            em,
            sec,
        ));
    } else {
        assert(parse_items(t, e, d, trim(k), sec) == Parsed::Failed(e, missing_key_message()));
    }
}

/// A header `[name]` with a name of plain characters (no backslash, no `]`)
/// opens section `name`, trimmed (adding it last if it is new), and the next
/// pairs go to it.
pub proof fn law_reads_a_header(t: Seq<char>, p: int, b: int, d: Layout, key: Seq<char>, sec: Option<Seq<char>>)
    requires
        0 <= p < b < t.len(),
        t[p] == '[',
        forall|i: int| p < i < b ==> #[trigger] t[i] != '\\' && t[i] != ']',
        t[b] == ']',
    ensures
        parse_items(t, p, d, key, sec) == parse_items(
            t,
            b + 1,
            layout_touch(d, Some(trim(t.subrange(p + 1, b)))),
            key,
            Some(trim(t.subrange(p + 1, b))),
        ),
{
    let em = Seq::<char>::empty();
    assert(skip_blanks(t, p) == p);
    law_plain_text_reads_as_itself(t, p + 1, b, Stop::Bracket, em);
    assert(em + t.subrange(p + 1, b) =~= t.subrange(p + 1, b));
}

} // verus!
