//! Writing a document back to INI text.
use vstd::prelude::*;
use crate::assoc::find_key;
use crate::document::{Ini, Layout, layout_valid};
use crate::properties::Properties;
use crate::text::{chars_of, push_char, push_str};

verus! {

/// The lower-case hexadecimal digit of `n` (0 to 15).
pub open spec fn hex_digit(n: int) -> char {
    if n < 10 {
        (n + 48) as char
    } else {
        (n + 87) as char
    }
}

/// Four lower-case hexadecimal digits of `n` (0 to 0xFFFF).
pub open spec fn hex4(n: int) -> Seq<char> {
    seq![hex_digit((n / 4096) % 16), hex_digit((n / 256) % 16), hex_digit((n / 16) % 16), hex_digit(n % 16)]
}

/// How a character is written in INI text.
pub open spec fn escape_char(c: char) -> Seq<char> {
    let n: int = c as int;
    if c == '\\' {
        seq!['\\', '\\']
    } else if n == 0 {
        seq!['\\', '0']
    } else if (1 <= n <= 6) || (0x0e <= n <= 0x1f) || (0x7f <= n <= 0xffff) {
        seq!['\\', 'x'] + hex4(n)
    } else if n == 7 {
        seq!['\\', 'a']
    } else if n == 8 {
        seq!['\\', 'b']
    } else if n == 0x0c {
        seq!['\\', 'f']
    } else if n == 0x0b {
        seq!['\\', 'v']
    } else if c == '\n' {
        seq!['\\', 'n']
    } else if c == '\t' {
        seq!['\\', 't']
    } else if c == '\r' {
        seq!['\\', 'r']
    } else if c == ';' || c == '#' || c == '=' || c == ':' {
        seq!['\\', c]
    } else {
        seq![c]
    }
}

/// How a string is written in INI text: each character as `escape_char` writes it.
pub open spec fn escape(s: Seq<char>) -> Seq<char>
    decreases s.len(),
{
    if s.len() == 0 {
        Seq::empty()
    } else {
        escape(s.drop_last()) + escape_char(s.last())
    }
}

/// The lines `key=value` of the pairs `e`, in order.
pub open spec fn property_lines(e: Seq<(Seq<char>, Seq<char>)>) -> Seq<char>
    decreases e.len(),
{
    if e.len() == 0 {
        Seq::empty()
    } else {
        property_lines(e.drop_last()) + escape(e.last().0) + seq!['='] + escape(e.last().1) + seq![
            '\n',
        ]
    }
}

/// The named sections of `d`, in order: each a `[name]` line and its pairs'
/// lines, with an empty line before each but a first one when `first` holds.
pub open spec fn sections_text(d: Layout, first: bool) -> Seq<char>
    decreases d.len(),
{
    if d.len() == 0 {
        Seq::empty()
    } else {
        match d[0].0 {
            None => sections_text(d.drop_first(), first),
            Some(name) => (if first {
                Seq::empty()
            } else {
                seq!['\n']
            }) + seq!['['] + escape(name) + seq![']', '\n'] + property_lines(d[0].1) + sections_text(
                d.drop_first(),
                false,
            ),
        }
    }
}

/// The INI text of the sections `d`: the general section's lines first, then
/// the named sections.
pub open spec fn ini_text(d: Layout) -> Seq<char> {
    let g: int = find_key(d, None);
    if g >= 0 {
        property_lines(d[g].1) + sections_text(d, false)
    } else {
        sections_text(d, true)
    }
}

fn hex_digit_char(n: u32) -> (c: char)
    requires
        n < 16,
    ensures
        c == hex_digit(n as int),
{
    if n < 10 {
        ((n as u8) + 48u8) as char
    } else {
        ((n as u8) + 87u8) as char
    }
}

/// Appends `\` and another character.
fn push_pair(out: &mut String, c: char)
    ensures
        final(out)@ == old(out)@ + seq!['\\', c],
{
    push_char(out, '\\');
    push_char(out, c);
    assert(out@ =~= old(out)@ + seq!['\\', c]);
}

/// Appends how `c` is written in INI text.
fn push_escaped_char(out: &mut String, c: char)
    ensures
        final(out)@ == old(out)@ + escape_char(c),
{
    let n: u32 = c as u32;
    if c == '\\' {
        push_pair(out, '\\');
    } else if n == 0 {
        push_pair(out, '0');
    } else if (1 <= n && n <= 6) || (0x0e <= n && n <= 0x1f) || (0x7f <= n && n <= 0xffff) {
        push_pair(out, 'x');
        let ghost mid = out@;
        push_char(out, hex_digit_char((n / 4096) % 16));
        push_char(out, hex_digit_char((n / 256) % 16));
        push_char(out, hex_digit_char((n / 16) % 16));
        push_char(out, hex_digit_char(n % 16));
        assert(out@ =~= mid + hex4(n as int));
    } else if n == 7 {
        push_pair(out, 'a');
    } else if n == 8 {
        push_pair(out, 'b');
    } else if n == 0x0c {
        push_pair(out, 'f');
    } else if n == 0x0b {
        push_pair(out, 'v');
    } else if c == '\n' {
        push_pair(out, 'n');
    } else if c == '\t' {
        push_pair(out, 't');
    } else if c == '\r' {
        push_pair(out, 'r');
    } else if c == ';' || c == '#' || c == '=' || c == ':' {
        push_pair(out, c);
    } else {
        push_char(out, c);
        assert(out@ =~= old(out)@ + seq![c]);
    }
}

/// Appends how `s` is written in INI text.
fn push_escaped(out: &mut String, s: &str)
    ensures
        final(out)@ == old(out)@ + escape(s@),
{
    let v = chars_of(s);
    let mut i: usize = 0;
    while i < v.len()
        invariant
            v@ == s@,
            i <= v@.len(),
            out@ == old(out)@ + escape(v@.take(i as int)),
        decreases v@.len() - i,
    {
        let ghost before = out@;
        push_escaped_char(out, v[i]);
        proof {
            let t = v@.take(i + 1);
            assert(t.drop_last() =~= v@.take(i as int));
            assert(out@ =~= old(out)@ + escape(t));
        }
        i = i + 1;
    }
    assert(v@.take(v@.len() as int) =~= v@);
}

/// How `s` is written in INI text.
pub fn escape_str(s: &str) -> (r: String)
    ensures
        r@ == escape(s@),
{
    let mut r = String::new();
    push_escaped(&mut r, s);
    assert(r@ =~= escape(s@));
    r
}

/// Appends the lines `key=value` of the properties `p`.
fn push_properties(out: &mut String, p: &Properties)
    ensures
        final(out)@ == old(out)@ + property_lines(p.entries()),
{
    let n: usize = p.len();
    let mut i: usize = 0;
    while i < n
        invariant
            n == p.entries().len(),
            i <= n,
            out@ == old(out)@ + property_lines(p.entries().take(i as int)),
        decreases n - i,
    {
        let ghost e = p.entries().take(i + 1);
        push_escaped(out, p.key_at(i));
        push_char(out, '=');
        push_escaped(out, p.value_at(i));
        push_char(out, '\n');
        proof {
            assert(e.drop_last() =~= p.entries().take(i as int));
            assert(out@ =~= old(out)@ + property_lines(e));
        }
        i = i + 1;
    }
    assert(p.entries().take(n as int) =~= p.entries());
}

impl Ini {
    /// Appends the document's INI text to `out`: the general section's
    /// `key=value` lines first, then each named section as a `[name]` line and
    /// its lines, the named sections set apart by empty lines. Each section
    /// name, and each key within its section, is written once.
    pub fn write_to(&self, out: &mut String)
        ensures
            final(out)@ == old(out)@ + ini_text(self.contents()),
            layout_valid(self.contents()),
            self@.len() == self.contents().len(),
    {
        let ghost d = self.contents();
        let mut first = true;
        match self.section(None) {
            Some(p) => {
                push_properties(out, p);
                first = false;
            },
            None => {},
        }
        proof {
            assert(d.skip(0) =~= d);
        }
        let mut it = self.iter();
        loop
            invariant
                *it.ini == *self,
                d == self.contents(),
                it.pos <= d.len(),
                old(out)@ + ini_text(d) == out@ + sections_text(d.skip(it.pos as int), first),
            ensures
                out@ == old(out)@ + ini_text(d),
            decreases d.len() - it.pos,
        {
            let ghost i = it.pos as int;
            match it.next() {
                None => {
                    proof {
                        assert(d.skip(i) =~= Seq::empty());
                        assert(out@ + Seq::<char>::empty() =~= out@);
                    }
                    break ;
                },
                Some((name, props)) => {
                    let ghost rest = d.skip(i);
                    proof {
                        assert(rest[0] == d[i]);
                        assert(rest.drop_first() =~= d.skip(i + 1));
                    }
                    match name {
                        None => {},
                        Some(s) => {
                            let ghost start = out@;
                            if first {
                                first = false;
                            } else {
                                push_char(out, '\n');
                            }
                            let ghost sep = out@;
                            push_char(out, '[');
                            push_escaped(out, s.as_str());
                            push_str(out, "]\n");
                            proof {
                                reveal_strlit("]\n");
                            }
                            push_properties(out, props);
                            proof {
                                assert(out@ =~= sep + seq!['['] + escape(s@) + seq![']', '\n']
                                    + property_lines(d[i].1));
                            }
                        },
                    }
                },
            }
        }
    }
}

} // verus!
