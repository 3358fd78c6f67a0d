//! The INI text format as the parser reads it, stated over character sequences.
//!
//! The reader walks the text one character at a time. A position `p` is the
//! index of the character under the reader; `p == text.len()` is the end.
//! Where the reading cannot go on (it runs into the end of the text at a point
//! where it needs one more character), the outcome is `Stuck`: no document and
//! no error can be given for such a text.
use vstd::prelude::*;
use crate::document::{Layout, layout_set, layout_touch};
use crate::text::{char_debug, trim};

verus! {

/// The character that ends a run of text.
pub enum Stop {
    /// `]`, the end of a section name.
    Bracket,
    /// `=`, the end of a key.
    Equals,
    /// A line feed or the end of the text, the end of a value.
    LineEnd,
}

/// What reading a run of text gives.
pub enum Scanned {
    /// The text read, and the position of the character that ended it.
    Text(Seq<char>, int),
    /// An error at a position, with its message.
    Failed(int, Seq<char>),
    /// The reading cannot go on.
    Stuck,
}

/// What reading the four digits of a `\x` escape gives.
pub enum Hex {
    /// The four characters read, and the position of the last one.
    Code(Seq<char>, int),
    /// An error at a position, with its message.
    Failed(int, Seq<char>),
    /// The reading cannot go on.
    Stuck,
}

/// What reading a whole text gives.
pub enum Parsed {
    /// The sections read, in order.
    Done(Layout),
    /// An error at a position, with its message.
    Failed(int, Seq<char>),
    /// The reading cannot go on.
    Stuck,
}

/// The line feeds in `s`.
pub open spec fn newlines(s: Seq<char>) -> nat
    decreases s.len(),
{
    if s.len() == 0 {
        0
    } else {
        newlines(s.drop_last()) + if s.last() == '\n' {
            1nat
        } else {
            0nat
        }
    }
}

/// The characters of `s` after its last line feed.
pub open spec fn column(s: Seq<char>) -> nat
    decreases s.len(),
{
    if s.len() == 0 {
        0
    } else if s.last() == '\n' {
        0
    } else {
        column(s.drop_last()) + 1
    }
}

/// The characters read when the reader is at `p`: those before it and the one under it.
pub open spec fn read_so_far(text: Seq<char>, p: int) -> Seq<char> {
    if p < text.len() {
        text.take(p + 1)
    } else {
        text
    }
}

/// The line that errors at `p` report: the line feeds read so far.
pub open spec fn line_at(text: Seq<char>, p: int) -> nat {
    newlines(read_so_far(text, p))
}

/// The column that errors at `p` report: the characters read since the last line feed.
pub open spec fn col_at(text: Seq<char>, p: int) -> nat {
    column(read_so_far(text, p))
}

/// Whether the character at `p` (or the end) ends a run of text.
pub open spec fn at_stop(text: Seq<char>, p: int, stop: Stop) -> bool {
    match stop {
        Stop::Bracket => p < text.len() && text[p] == ']',
        Stop::Equals => p < text.len() && text[p] == '=',
        Stop::LineEnd => p >= text.len() || text[p] == '\n',
    }
}

/// The message of an error at the end of the text while looking for `stop`.
pub open spec fn eof_message(stop: Stop) -> Seq<char> {
    match stop {
        Stop::Bracket => "Expecting \"[Some(']')]\" but found EOF."@,
        Stop::Equals => "Expecting \"[Some('=')]\" but found EOF."@,
        Stop::LineEnd => "Expecting \"[Some('\\n'), None]\" but found EOF."@,
    }
}

/// The message of an error where a `\x` escape breaks its digits with a
/// backslash that a line feed does not follow.
pub open spec fn broken_escape_message(c: char) -> Seq<char> {
    "Expecting \"\\\\n\" but found \"Some("@ + char_debug(c) + ")\"."@
}

/// The message of an error where the four characters of a `\x` escape are no number.
pub open spec fn unknown_character_message() -> Seq<char> {
    "Unknown character."@
}

/// The message of an error where a value comes without a key.
pub open spec fn missing_key_message() -> Seq<char> {
    "Missing key"@
}

/// The character that a backslash before `c` stands for (other than `x` and a line feed).
pub open spec fn unescape(c: char) -> char {
    if c == '0' {
        '\0'
    } else if c == 'a' {
        '\x07'
    } else if c == 'b' {
        '\x08'
    } else if c == 't' {
        '\t'
    } else if c == 'r' {
        '\r'
    } else if c == 'n' {
        '\n'
    } else {
        c
    }
}

/// The value of a hexadecimal digit, or -1 for another character.
pub open spec fn hex_value(c: char) -> int {
    if '0' <= c && c <= '9' {
        c as int - '0' as int
    } else if 'a' <= c && c <= 'f' {
        c as int - 'a' as int + 10
    } else if 'A' <= c && c <= 'F' {
        c as int - 'A' as int + 10
    } else {
        -1
    }
}

/// The number that the hexadecimal digits `ds` write.
pub open spec fn digits_value(ds: Seq<char>) -> int
    decreases ds.len(),
{
    if ds.len() == 0 {
        0
    } else {
        digits_value(ds.drop_last()) * 16 + hex_value(ds.last())
    }
}

/// The number that `code` writes in base 16: digits, the first of which may be
/// replaced by a `+` sign; `None` where `code` is no such number.
pub open spec fn radix16(code: Seq<char>) -> Option<int> {
    let ds = sign_dropped(code);
    if ds.len() > 0 && all_hex(ds) {
        Some(digits_value(ds))
    } else {
        None
    }
}

/// `code` without a leading `+` sign (a lone `+` is kept).
pub open spec fn sign_dropped(code: Seq<char>) -> Seq<char> {
    if code.len() > 1 && code[0] == '+' {
        code.drop_first()
    } else {
        code
    }
}

/// Whether every character of `ds` is a hexadecimal digit.
pub open spec fn all_hex(ds: Seq<char>) -> bool {
    forall|i: int| 0 <= i < ds.len() ==> hex_value(#[trigger] ds[i]) >= 0
}

/// Whether `n` is a character's code: at most 0x10FFFF and no surrogate.
pub open spec fn is_char_code(n: int) -> bool {
    (0 <= n < 0xD800) || (0xE000 <= n <= 0x10FFFF)
}

/// Reads the digits of a `\x` escape: `k` are read, the last at `p`; each next
/// one may be preceded by a backslash and a line feed, which stands for a line feed.
pub open spec fn hex_code(text: Seq<char>, p: int, k: int, code: Seq<char>, stop: Stop) -> Hex
    decreases 4 - k,
{
    if k >= 4 {
        Hex::Code(code, p)
    } else if p + 1 >= text.len() {
        Hex::Failed(p + 1, eof_message(stop))
    } else if text[p + 1] == '\\' {
        if p + 2 >= text.len() {
            Hex::Stuck
        } else if text[p + 2] != '\n' {
            Hex::Failed(p + 2, broken_escape_message(text[p + 2]))
        } else {
            hex_code(text, p + 2, k + 1, code.push('\n'), stop)
        }
    } else {
        hex_code(text, p + 1, k + 1, code.push(text[p + 1]), stop)
    }
}

/// Reads a run of text from `p` up to `stop`, resolving backslash escapes;
/// `acc` is what was read before.
pub open spec fn scan(text: Seq<char>, p: int, stop: Stop, acc: Seq<char>) -> Scanned
    decreases text.len() - p,
{
    if p < 0 {
        Scanned::Stuck
    } else if at_stop(text, p, stop) {
        Scanned::Text(acc, p)
    } else if p >= text.len() {
        Scanned::Failed(p, eof_message(stop))
    } else if text[p] != '\\' {
        scan(text, p + 1, stop, acc.push(text[p]))
    } else if p + 1 >= text.len() {
        Scanned::Failed(p + 1, eof_message(stop))
    } else if text[p + 1] == '\n' {
        scan(text, p + 2, stop, acc)
    } else if text[p + 1] != 'x' {
        scan(text, p + 2, stop, acc.push(unescape(text[p + 1])))
    } else {
        match hex_code(text, p + 1, 0, Seq::empty(), stop) {
            Hex::Code(code, q) => {
                proof {
                    lemma_hex_code_range(text, p + 1, 0, Seq::empty(), stop);
                }
                match radix16(code) {
                    Some(n) => if is_char_code(n) {
                        scan(text, q + 1, stop, acc.push(n as char))
                    } else {
                        Scanned::Stuck
                    },
                    None => Scanned::Failed(q, unknown_character_message()),
                }
            },
            Hex::Failed(e, m) => Scanned::Failed(e, m),
            Hex::Stuck => Scanned::Stuck,
        }
    }
}

/// Whether the reader skips `c` between items.
pub open spec fn is_blank(c: char) -> bool {
    c == ' ' || c == '\n' || c == '\t' || c == '\r'
}

/// The first position from `p` on whose character the reader does not skip (or the end).
pub open spec fn skip_blanks(text: Seq<char>, p: int) -> int
    decreases text.len() - p,
{
    if 0 <= p < text.len() && is_blank(text[p]) {
        skip_blanks(text, p + 1)
    } else {
        p
    }
}

/// The first position from `p` on that holds a line feed (or the end).
pub open spec fn line_end(text: Seq<char>, p: int) -> int
    decreases text.len() - p,
{
    if 0 <= p < text.len() && text[p] != '\n' {
        line_end(text, p + 1)
    } else {
        p
    }
}

/// The position after `p`, but never past the end.
pub open spec fn step(text: Seq<char>, p: int) -> int {
    if p < text.len() {
        p + 1
    } else {
        p
    }
}

/// Reads items from `p` on into the sections `d`, with `key` the key waiting
/// for its value and `sec` the section the next values go to.
pub open spec fn parse_items(
    text: Seq<char>,
    p: int,
    d: Layout,
    key: Seq<char>,
    sec: Option<Seq<char>>,
) -> Parsed
    decreases text.len() - p,
{
    if p < 0 || p >= text.len() {
        Parsed::Done(d)
    } else {
        let q = skip_blanks(text, p);
        proof {
            lemma_skip_blanks(text, p);
        }
        if q >= text.len() {
            Parsed::Stuck
        } else if text[q] == ';' {
            let r = line_end(text, q);
            proof {
                lemma_line_end(text, q);
            }
            if r >= text.len() {
                Parsed::Stuck
            } else {
                parse_items(text, r + 1, d, key, sec)
            }
        } else if text[q] == '[' {
            match scan(text, q + 1, Stop::Bracket, Seq::empty()) {
                Scanned::Text(s, r) => {
                    proof {
                        lemma_scan_range(text, q + 1, Stop::Bracket, Seq::empty());
                    }
                    let name = Some(trim(s));
                    parse_items(text, r + 1, layout_touch(d, name), key, name)
                },
                Scanned::Failed(e, m) => Parsed::Failed(e, m),
                Scanned::Stuck => Parsed::Stuck,
            }
        } else if text[q] == '=' {
            if key.len() == 0 {
                Parsed::Failed(q, missing_key_message())
            } else {
                match scan(text, q + 1, Stop::LineEnd, Seq::empty()) {
                    Scanned::Text(v, r) => {
                        proof {
                            lemma_scan_range(text, q + 1, Stop::LineEnd, Seq::empty());
                        }
                        parse_items(
                            text,
                            step(text, r),
                            layout_set(d, sec, key, trim(v)),
                            Seq::empty(),
                            sec,
                        )
                    },
                    Scanned::Failed(e, m) => Parsed::Failed(e, m),
                    Scanned::Stuck => Parsed::Stuck,
                }
            }
        } else {
            match scan(text, q, Stop::Equals, Seq::empty()) {
                Scanned::Text(k, r) => {
                    proof {
                        lemma_scan_range(text, q, Stop::Equals, Seq::empty());
                    }
                    parse_items(text, r, d, trim(k), sec)
                },
                Scanned::Failed(e, m) => Parsed::Failed(e, m),
                Scanned::Stuck => Parsed::Stuck,
            }
        }
    }
}

/// Reads a whole text from position `p` on: blanks first, then items until the
/// end. A text that is blank from `p` on leaves the reader stuck.
pub open spec fn parse_from(text: Seq<char>, p: int) -> Parsed {
    let q = skip_blanks(text, p);
    if q >= text.len() {
        Parsed::Stuck
    } else {
        parse_items(text, q, Seq::empty(), Seq::empty(), None)
    }
}

/// Reads a whole text.
pub open spec fn parse_text(text: Seq<char>) -> Parsed {
    parse_from(text, 0)
}

pub proof fn lemma_hex_code_range(text: Seq<char>, p: int, k: int, code: Seq<char>, stop: Stop)
    requires
        0 <= p < text.len(),
        0 <= k <= 4,
        code.len() == k,
    ensures
        hex_code(text, p, k, code, stop) matches Hex::Code(c, q) ==> p <= q < text.len()
            && c.len() == 4,
    decreases 4 - k,
{
    if k < 4 && p + 1 < text.len() {
        if text[p + 1] == '\\' {
            if p + 2 < text.len() && text[p + 2] == '\n' {
                lemma_hex_code_range(text, p + 2, k + 1, code.push('\n'), stop);
            }
        } else {
            lemma_hex_code_range(text, p + 1, k + 1, code.push(text[p + 1]), stop);
        }
    }
}

/// A run of text ends at or after where it starts, and before the end unless
/// a line end is what ends it; it ends where it starts only on the stop itself.
pub proof fn lemma_scan_range(text: Seq<char>, p: int, stop: Stop, acc: Seq<char>)
    requires
        0 <= p <= text.len(),
    ensures
        scan(text, p, stop, acc) matches Scanned::Text(s, r) ==> {
            &&& p <= r <= text.len()
            &&& at_stop(text, r, stop)
            &&& (r == p ==> at_stop(text, p, stop))
            &&& (r == text.len() ==> stop == Stop::LineEnd)
        },
    decreases text.len() - p,
{
    if !at_stop(text, p, stop) && p < text.len() {
        if text[p] != '\\' {
            lemma_scan_range(text, p + 1, stop, acc.push(text[p]));
        } else if p + 1 < text.len() {
            if text[p + 1] == '\n' {
                lemma_scan_range(text, p + 2, stop, acc);
            } else if text[p + 1] != 'x' {
                lemma_scan_range(text, p + 2, stop, acc.push(unescape(text[p + 1])));
            } else {
                lemma_hex_code_range(text, p + 1, 0, Seq::empty(), stop);
                match hex_code(text, p + 1, 0, Seq::empty(), stop) {
                    Hex::Code(code, q) => {
                        match radix16(code) {
                            Some(n) => if is_char_code(n) {
                                lemma_scan_range(text, q + 1, stop, acc.push(n as char));
                            },
                            None => {},
                        }
                    },
                    _ => {},
                }
            }
        }
    }
}

pub proof fn lemma_skip_blanks(text: Seq<char>, p: int)
    requires
        0 <= p <= text.len(),
    ensures
        p <= skip_blanks(text, p) <= text.len(),
        skip_blanks(text, p) < text.len() ==> !is_blank(text[skip_blanks(text, p)]),
        forall|i: int| p <= i < skip_blanks(text, p) ==> is_blank(#[trigger] text[i]),
    decreases text.len() - p,
{
    if p < text.len() && is_blank(text[p]) {
        lemma_skip_blanks(text, p + 1);
    }
}

pub proof fn lemma_line_end(text: Seq<char>, p: int)
    requires
        0 <= p <= text.len(),
    ensures
        p <= line_end(text, p) <= text.len(),
        line_end(text, p) < text.len() ==> text[line_end(text, p)] == '\n',
        forall|i: int| p <= i < line_end(text, p) ==> #[trigger] text[i] != '\n',
    decreases text.len() - p,
{
    if p < text.len() && text[p] != '\n' {
        lemma_line_end(text, p + 1);
    }
}

pub proof fn lemma_newlines_column(s: Seq<char>)
    ensures
        newlines(s) <= s.len(),
        column(s) <= s.len(),
    decreases s.len(),
{
    if s.len() > 0 {
        lemma_newlines_column(s.drop_last());
    }
}

} // verus!
