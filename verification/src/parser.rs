//! The reader that turns INI text into a document.
use vstd::prelude::*;
use crate::document::{opt_view, Ini};
use crate::grammar::{
    at_stop, col_at, column, digits_value, eof_message, hex_code, hex_value,
    is_blank, is_char_code, lemma_hex_code_range, lemma_line_end, lemma_newlines_column,
    lemma_scan_range, lemma_skip_blanks, line_at, line_end, newlines,
    parse_from, parse_items, parse_text, radix16, read_so_far, sign_dropped, all_hex, scan, skip_blanks, step, unescape,
    Parsed, Scanned, Stop,
};
use crate::text::{chars_of, debug_char, push_char, push_str, string_from_str, trimmed_string};

verus! {

/// An error in a text, with the line and column where the reader found it.
#[derive(Debug)]
pub struct Error {
    /// The line feeds read before the error.
    pub line: usize,
    /// The characters read since the last line feed.
    pub col: usize,
    /// What went wrong.
    pub msg: String,
}

/// The character of the decimal digit `d`.
pub open spec fn digit_char(d: int) -> char {
    (d + 48) as char
}

/// The decimal digits of `n`.
pub open spec fn decimal(n: nat) -> Seq<char>
    decreases n,
{
    if n < 10 {
        seq![digit_char(n as int)]
    } else {
        decimal(n / 10).push(digit_char((n % 10) as int))
    }
}

/// Appends the decimal digits of `n`.
fn push_decimal(out: &mut String, n: usize)
    ensures
        final(out)@ == old(out)@ + decimal(n as nat),
    decreases n,
{
    if n >= 10 {
        push_decimal(out, n / 10);
    }
    let d = ((n % 10) as u8 + 48u8) as char;
    push_char(out, d);
    proof {
        if n >= 10 {
            assert(out@ =~= old(out)@ + decimal(n as nat));
        } else {
            assert(out@ =~= old(out)@ + decimal(n as nat));
        }
    }
}

impl Error {
    /// The error as text: `line:col msg`.
    pub fn to_string(&self) -> (r: String)
        ensures
            r@ == decimal(self.line as nat) + seq![':'] + decimal(self.col as nat) + seq![' '] + self.msg@,
    {
        let mut r = String::new();
        push_decimal(&mut r, self.line);
        push_char(&mut r, ':');
        push_decimal(&mut r, self.col);
        push_char(&mut r, ' ');
        push_str(&mut r, self.msg.as_str());
        assert(r@ =~= decimal(self.line as nat) + seq![':'] + decimal(self.col as nat) + seq![' '] + self.msg@);
        r
    }
}

/// Whether `e` is the error `m` found at position `p` of `text`.
pub open spec fn error_at(e: Error, text: Seq<char>, p: int, m: Seq<char>) -> bool {
    &&& e.line == line_at(text, p)
    &&& e.col == col_at(text, p)
    &&& e.msg@ == m
}

/// Whether `r` is what reading `text` gives, `None` standing for a reader that is stuck.
pub open spec fn outcome_is(r: Option<Result<Ini, Error>>, text: Seq<char>, o: Parsed) -> bool {
    match o {
        Parsed::Done(d) => r matches Some(Ok(ini)) && ini.contents() == d,
        Parsed::Failed(p, m) => r matches Some(Err(e)) && error_at(e, text, p, m),
        Parsed::Stuck => r is None,
    }
}

/// What reading a run of text gives.
#[derive(Debug)]
pub enum Scan {
    /// The text read, escapes resolved.
    Text(Vec<char>),
    /// The error that ended the reading.
    Failed(Error),
    /// The reading cannot go on (see `Scanned::Stuck`).
    Stuck,
}

/// Whether `r` is what reading a run of `text` gives.
pub open spec fn scan_is(r: Scan, text: Seq<char>, o: Scanned) -> bool {
    match o {
        Scanned::Text(s, _) => r matches Scan::Text(v) && v@ == s,
        Scanned::Failed(p, m) => r matches Scan::Failed(e) && error_at(e, text, p, m),
        Scanned::Stuck => r is Stuck,
    }
}

/// The character that a backslash before `c` stands for (other than `x` and a line feed).
fn unescape_char(c: char) -> (r: char)
    ensures
        r == unescape(c),
{
    if c == '0' {
        '\0'
    } else if c == 'a' {
        '\x07'
    } else if c == 'b' {
        '\x08'
    } else if c == 't' {
        '\t'
    } else if c == 'r' {
        '\r'
    } else if c == 'n' {
        '\n'
    } else {
        c
    }
}

/// The value of a hexadecimal digit, if `c` is one.
fn hex_digit_value(c: char) -> (r: Option<u32>)
    ensures
        r is Some <==> hex_value(c) >= 0,
        r matches Some(v) ==> v == hex_value(c) && v < 16,
{
    if '0' <= c && c <= '9' {
        Some(c as u32 - '0' as u32)
    } else if 'a' <= c && c <= 'f' {
        Some(c as u32 - 'a' as u32 + 10)
    } else if 'A' <= c && c <= 'F' {
        Some(c as u32 - 'A' as u32 + 10)
    } else {
        None
    }
}

/// The number that the four characters `code` write in base 16 (a `+` may take
/// the place of the first digit), if they write one.
fn decode_hex(code: &Vec<char>) -> (r: Option<u32>)
    requires
        code@.len() == 4,
    ensures
        r is Some <==> radix16(code@) is Some,
        r matches Some(v) ==> radix16(code@) == Some(v as int),
{
    let start: usize = if code[0] == '+' {
        1
    } else {
        0
    };
    let ghost ds = code@.subrange(start as int, 4);
    proof {
        if start == 1 {
            assert(ds =~= code@.drop_first());
        } else {
            assert(ds =~= code@);
        }
    }
    let mut v: u32 = 0;
    let mut i: usize = start;
    while i < 4
        invariant
            code@.len() == 4,
            start <= i <= 4,
            start <= 1,
            start == 1 <==> code@[0] == '+',
            ds == code@.subrange(start as int, 4),
            forall|j: int| start <= j < i ==> hex_value(#[trigger] code@[j]) >= 0,
            v == digits_value(code@.subrange(start as int, i as int)),
            v < pow16(i - start),
        decreases 4 - i,
    {
        match hex_digit_value(code[i]) {
            Some(d) => {
                proof {
                    let t = code@.subrange(start as int, i + 1);
                    assert(t.drop_last() =~= code@.subrange(start as int, i as int));
                    lemma_pow16(i - start);
                }
                v = v * 16 + d;
                i = i + 1;
            },
            None => {
                proof {
                    assert(ds[i - start] == code@[i as int]);
                    let ds2 = sign_dropped(code@);
                    assert(ds2 =~= ds);
                    assert(hex_value(ds2[i - start]) < 0);
                    assert(!all_hex(ds2));
                }
                return None;
            },
        }
    }
    proof {
        assert(code@.subrange(start as int, 4) =~= ds);
        let ds2 = sign_dropped(code@);
        assert(ds2 =~= ds);
        assert forall|j: int| 0 <= j < ds.len() implies hex_value(#[trigger] ds[j]) >= 0 by {
            assert(ds[j] == code@[start + j]);
        }
    }
    Some(v)
}

spec fn pow16(n: int) -> int
    decreases n,
{
    if n <= 0 {
        1
    } else {
        16 * pow16(n - 1)
    }
}

proof fn lemma_pow16(n: int)
    requires
        0 <= n <= 3,
    ensures
        pow16(n + 1) == 16 * pow16(n),
        pow16(n + 1) <= 65536,
{
    reveal_with_fuel(pow16, 5);
}

/// The character whose code is `n`: `char::from_u32`, whose documentation says
/// that it gives `None` exactly where `n` is no valid `char` (a surrogate or
/// above 0x10FFFF), and the character of that code otherwise.
#[verifier::external_body]
fn char_from_u32(n: u32) -> (r: Option<char>)
    ensures
        r is Some <==> is_char_code(n as int),
        r matches Some(c) ==> c == n as char,
{
    char::from_u32(n)
}

/// The message of an error at the end of the text while looking for `stop`.
fn eof_message_string(stop: &Stop) -> (r: String)
    ensures
        r@ == eof_message(*stop),
{
    match stop {
        Stop::Bracket => string_from_str("Expecting \"[Some(']')]\" but found EOF."),
        Stop::Equals => string_from_str("Expecting \"[Some('=')]\" but found EOF."),
        Stop::LineEnd => string_from_str("Expecting \"[Some('\\n'), None]\" but found EOF."),
    }
}

/// Reads INI text one character at a time.
pub struct Parser {
    input: Vec<char>,
    pos: usize,
    line: usize,
    col: usize,
}

impl Parser {
    /// The text being read.
    pub closed spec fn text(&self) -> Seq<char> {
        self.input@
    }

    /// The position of the character under the reader (the length of the text at the end).
    pub closed spec fn position(&self) -> int {
        self.pos as int
    }

    /// The line that an error here reports.
    pub closed spec fn line_number(&self) -> nat {
        self.line as nat
    }

    /// The column that an error here reports.
    pub closed spec fn column_number(&self) -> nat {
        self.col as nat
    }

    /// The reader is within the text, its line is the number of line feeds it
    /// has read (the character under it included), and its column the number
    /// of characters it has read since the last of them.
    pub open spec fn wf(&self) -> bool {
        &&& 0 <= self.position() <= self.text().len()
        &&& self.line_number() == line_at(self.text(), self.position())
        &&& self.column_number() == col_at(self.text(), self.position())
    }

    /// A reader at the first character of `text`.
    pub fn new(text: &str) -> (r: Parser)
        ensures
            r.wf(),
            r.text() == text@,
            r.position() == 0,
    {
        let input = chars_of(text);
        let mut line: usize = 0;
        let mut col: usize = 0;
        if input.len() > 0 {
            if input[0] == '\n' {
                line = 1;
            } else {
                col = 1;
            }
        }
        proof {
            if input@.len() > 0 {
                let s = input@.take(1);
                assert(s.drop_last() =~= Seq::<char>::empty());
                assert(read_so_far(input@, 0) == s);
                assert(s.last() == input@[0]);
                assert(newlines(s) == newlines(s.drop_last()) + if s.last() == '\n' {
                    1nat
                } else {
                    0nat
                });
                assert(column(s) == if s.last() == '\n' {
                    0nat
                } else {
                    column(s.drop_last()) + 1
                });
                assert(newlines(Seq::<char>::empty()) == 0);
                assert(column(Seq::<char>::empty()) == 0);
            } else {
                assert(input@ =~= Seq::<char>::empty());
            }
        }
        Parser { input, pos: 0, line, col }
    }

    fn eof(&self) -> (r: bool)
        requires
            self.wf(),
        ensures
            r == (self.pos >= self.input@.len()),
    {
        self.pos >= self.input.len()
    }

    fn current(&self) -> (c: char)
        requires
            self.wf(),
            self.pos < self.input@.len(),
        ensures
            c == self.input@[self.pos as int],
    {
        self.input[self.pos]
    }

    /// Moves to the next character, if not at the end, and counts it: a line
    /// feed adds a line and starts the column over, any other character adds
    /// a column. Moving onto the end, or at the end, counts nothing.
    pub fn bump(&mut self)
        requires
            old(self).wf(),
        ensures
            final(self).wf(),
            final(self).text() == old(self).text(),
            final(self).position() == step(old(self).text(), old(self).position()),
            final(self).position() < final(self).text().len() ==> {
                let c = final(self).text()[final(self).position()];
                &&& final(self).line_number() == old(self).line_number() + (if c == '\n' {
                    1nat
                } else {
                    0nat
                })
                &&& final(self).column_number() == (if c == '\n' {
                    0nat
                } else {
                    old(self).column_number() + 1
                })
            },
            final(self).position() >= final(self).text().len() ==> {
                &&& final(self).line_number() == old(self).line_number()
                &&& final(self).column_number() == old(self).column_number()
            },
    {
        proof {
            crate::laws::law_reader_counts_lines(self.input@, self.pos as int);
        }
        if self.pos < self.input.len() {
            let ghost t = self.input@;
            let ghost p = self.pos as int;
            self.pos = self.pos + 1;
            if self.pos < self.input.len() {
                proof {
                    let a = t.take(p + 1);
                    let b = t.take(p + 2);
                    assert(b.drop_last() =~= a);
                    lemma_newlines_column(b);
                }
                if self.input[self.pos] == '\n' {
                    self.line = self.line + 1;
                    self.col = 0;
                } else {
                    self.col = self.col + 1;
                }
            } else {
                proof {
                    assert(t.take(p + 1) =~= t);
                }
            }
        }
    }

    /// The error `msg` at the reader's position.
    fn error(&self, msg: String) -> (e: Error)
        requires
            self.wf(),
        ensures
            error_at(e, self.input@, self.pos as int, msg@),
    {
        Error { line: self.line, col: self.col, msg }
    }

    /// Skips blanks; false where that reaches the end of the text.
    fn parse_whitespace(&mut self) -> (r: bool)
        requires
            old(self).wf(),
        ensures
            final(self).wf(),
            final(self).input@ == old(self).input@,
            final(self).pos == skip_blanks(old(self).input@, old(self).pos as int),
            r == (final(self).pos < final(self).input@.len()),
    {
        proof {
            lemma_skip_blanks(self.input@, self.pos as int);
        }
        while self.pos < self.input.len() && is_blank_char(self.current())
            invariant
                self.wf(),
                self.input@ == old(self).input@,
                old(self).pos <= self.pos,
                skip_blanks(self.input@, self.pos as int) == skip_blanks(
                    old(self).input@,
                    old(self).pos as int,
                ),
            decreases self.input@.len() - self.pos,
        {
            self.bump();
        }
        self.pos < self.input.len()
    }

    /// Skips a comment through its line feed; false where no line feed ends it.
    fn parse_comment(&mut self) -> (r: bool)
        requires
            old(self).wf(),
            old(self).pos < old(self).input@.len(),
        ensures
            final(self).wf(),
            final(self).input@ == old(self).input@,
            r == (line_end(old(self).input@, old(self).pos as int) < old(self).input@.len()),
            r ==> final(self).pos == line_end(old(self).input@, old(self).pos as int) + 1,
    {
        proof {
            lemma_line_end(self.input@, self.pos as int);
        }
        while self.pos < self.input.len() && self.current() != '\n'
            invariant
                self.wf(),
                self.input@ == old(self).input@,
                old(self).pos <= self.pos,
                line_end(self.input@, self.pos as int) == line_end(
                    old(self).input@,
                    old(self).pos as int,
                ),
            decreases self.input@.len() - self.pos,
        {
            self.bump();
        }
        if self.eof() {
            false
        } else {
            self.bump();
            true
        }
    }

    /// Reads a run of text up to `stop`, resolving backslash escapes, and stays on the stop.
    pub fn parse_str_until(&mut self, stop: Stop) -> (r: Scan)
        requires
            old(self).wf(),
        ensures
            final(self).wf(),
            final(self).text() == old(self).text(),
            scan_is(r, old(self).text(), scan(old(self).text(), old(self).position(), stop, Seq::empty())),
            scan(old(self).text(), old(self).position(), stop, Seq::empty()) matches Scanned::Text(_, q)
                ==> final(self).position() == q,
            scan(old(self).text(), old(self).position(), stop, Seq::empty()) matches Scanned::Failed(q, _)
                ==> final(self).position() == q,
    {
        let ghost t = self.input@;
        let ghost target = scan(t, self.pos as int, stop, Seq::empty());
        let mut result: Vec<char> = Vec::new();
        loop
            invariant
                self.wf(),
                self.input@ == t,
                t == old(self).input@,
                target == scan(t, old(self).pos as int, stop, Seq::empty()),
                scan(t, self.pos as int, stop, result@) == target,
            decreases t.len() - self.pos,
        {
            if self.at_stop(&stop) {
                return Scan::Text(result);
            }
            if self.eof() {
                return Scan::Failed(self.error(eof_message_string(&stop)));
            }
            let c = self.current();
            let ghost pb = self.pos as int;
            if c != '\\' {
                result.push(c);
                self.bump();
            } else {
                self.bump();
                if self.eof() {
                    return Scan::Failed(self.error(eof_message_string(&stop)));
                }
                let c2 = self.current();
                if c2 == '\n' {
                    self.bump();
                } else if c2 != 'x' {
                    result.push(unescape_char(c2));
                    self.bump();
                } else {
                    let ghost p1 = self.pos as int;
                    let ghost hex = hex_code(t, p1, 0, Seq::empty(), stop);
                    proof {
                        lemma_hex_code_range(t, p1, 0, Seq::empty(), stop);
                    }
                    let mut code: Vec<char> = Vec::new();
                    let mut k: usize = 0;
                    while k < 4
                        invariant
                            self.wf(),
                            self.input@ == t,
                            t == old(self).input@,
                            target == scan(t, old(self).pos as int, stop, Seq::empty()),
                            scan(t, pb, stop, result@) == target,
                            0 <= pb,
                            pb + 1 == p1,
                            p1 < t.len(),
                            t[pb] == '\\',
                            t[p1] == 'x',
                            !at_stop(t, pb, stop),
                            hex == hex_code(t, p1, 0, Seq::empty(), stop),
                            self.pos < t.len(),
                            k <= 4,
                            code@.len() == k,
                            hex_code(t, self.pos as int, k as int, code@, stop) == hex,
                        decreases 4 - k,
                    {
                        self.bump();
                        if self.eof() {
                            return Scan::Failed(self.error(eof_message_string(&stop)));
                        }
                        if self.current() == '\\' {
                            self.bump();
                            if self.eof() {
                                return Scan::Stuck;
                            }
                            let c3 = self.current();
                            if c3 != '\n' {
                                let mut msg = string_from_str("Expecting \"\\\\n\" but found \"Some(");
                                let d = debug_char(c3);
                                push_str(&mut msg, d.as_str());
                                push_str(&mut msg, ")\".");
                                return Scan::Failed(self.error(msg));
                            }
                        }
                        code.push(self.current());
                        k = k + 1;
                    }
                    match decode_hex(&code) {
                        None => {
                            return Scan::Failed(self.error(string_from_str("Unknown character.")));
                        },
                        Some(n) => match char_from_u32(n) {
                            None => {
                                return Scan::Stuck;
                            },
                            Some(ch) => {
                                result.push(ch);
                                self.bump();
                            },
                        },
                    }
                }
            }
        }
    }

    /// Whether the character under the reader (or the end) ends a run of text.
    fn at_stop(&self, stop: &Stop) -> (r: bool)
        requires
            self.wf(),
        ensures
            r == at_stop(self.input@, self.pos as int, *stop),
    {
        match stop {
            Stop::Bracket => self.pos < self.input.len() && self.input[self.pos] == ']',
            Stop::Equals => self.pos < self.input.len() && self.input[self.pos] == '=',
            Stop::LineEnd => self.pos >= self.input.len() || self.input[self.pos] == '\n',
        }
    }
}

impl Parser {
    /// Reads a section name: skips the `[` and reads up to `]`.
    fn parse_section(&mut self) -> (r: Scan)
        requires
            old(self).wf(),
            old(self).pos < old(self).input@.len(),
        ensures
            final(self).wf(),
            final(self).input@ == old(self).input@,
            scan_is(r, old(self).input@, scan(old(self).input@, old(self).pos + 1, Stop::Bracket, Seq::empty())),
            scan(old(self).input@, old(self).pos + 1, Stop::Bracket, Seq::empty()) matches Scanned::Text(_, q)
                ==> final(self).pos == q,
            scan(old(self).input@, old(self).pos + 1, Stop::Bracket, Seq::empty()) matches Scanned::Failed(q, _)
                ==> final(self).pos == q,
    {
        self.bump();
        self.parse_str_until(Stop::Bracket)
    }

    /// Reads a key: up to `=`.
    fn parse_key(&mut self) -> (r: Scan)
        requires
            old(self).wf(),
        ensures
            final(self).wf(),
            final(self).input@ == old(self).input@,
            scan_is(r, old(self).input@, scan(old(self).input@, old(self).pos as int, Stop::Equals, Seq::empty())),
            scan(old(self).input@, old(self).pos as int, Stop::Equals, Seq::empty()) matches Scanned::Text(_, q)
                ==> final(self).pos == q,
            scan(old(self).input@, old(self).pos as int, Stop::Equals, Seq::empty()) matches Scanned::Failed(q, _)
                ==> final(self).pos == q,
    {
        self.parse_str_until(Stop::Equals)
    }

    /// Reads a value: skips the `=` and reads up to the end of the line.
    fn parse_val(&mut self) -> (r: Scan)
        requires
            old(self).wf(),
            old(self).pos < old(self).input@.len(),
        ensures
            final(self).wf(),
            final(self).input@ == old(self).input@,
            scan_is(r, old(self).input@, scan(old(self).input@, old(self).pos + 1, Stop::LineEnd, Seq::empty())),
            scan(old(self).input@, old(self).pos + 1, Stop::LineEnd, Seq::empty()) matches Scanned::Text(_, q)
                ==> final(self).pos == q,
            scan(old(self).input@, old(self).pos + 1, Stop::LineEnd, Seq::empty()) matches Scanned::Failed(q, _)
                ==> final(self).pos == q,
    {
        self.bump();
        self.parse_str_until(Stop::LineEnd)
    }

    /// Reads the rest of the text into a document, or finds its first error;
    /// `None` where the reading gets stuck (see `Parsed::Stuck`).
    pub fn parse_checked(&mut self) -> (r: Option<Result<Ini, Error>>)
        requires
            old(self).wf(),
        ensures
            final(self).wf(),
            final(self).text() == old(self).text(),
            outcome_is(r, old(self).text(), parse_from(old(self).text(), old(self).position())),
            parse_from(old(self).text(), old(self).position()) is Done ==> final(self).position()
                == old(self).text().len(),
            parse_from(old(self).text(), old(self).position()) matches Parsed::Failed(q, _)
                ==> final(self).position() == q,
    {
        let ghost t = self.input@;
        let ghost target = parse_from(t, self.pos as int);
        if !self.parse_whitespace() {
            return None;
        }
        let mut result = Ini::new();
        let mut curkey = String::new();
        let mut cursec: Option<String> = None;
        proof {
            assert(result.contents() =~= Seq::empty());
        }
        loop
            invariant
                self.wf(),
                self.input@ == t,
                t == old(self).input@,
                target == parse_from(t, old(self).pos as int),
                parse_items(t, self.pos as int, result.contents(), curkey@, opt_view(cursec)) == target,
            decreases t.len() - self.pos,
        {
            if self.eof() {
                return Some(Ok(result));
            }
            let ghost p = self.pos as int;
            if !self.parse_whitespace() {
                return None;
            }
            let ghost q = self.pos as int;
            proof {
                lemma_skip_blanks(t, p);
            }
            let c = self.current();
            if c == ';' {
                proof {
                    lemma_line_end(t, q);
                }
                if !self.parse_comment() {
                    return None;
                }
            } else if c == '[' {
                proof {
                    lemma_scan_range(t, q + 1, Stop::Bracket, Seq::empty());
                }
                match self.parse_section() {
                    Scan::Text(v) => {
                        let name = trimmed_string(&v, 0, v.len());
                        proof {
                            assert(v@.subrange(0, v@.len() as int) =~= v@);
                        }
                        result.touch(Some(name.clone()));
                        cursec = Some(name);
                        self.bump();
                    },
                    Scan::Failed(e) => {
                        return Some(Err(e));
                    },
                    Scan::Stuck => {
                        return None;
                    },
                }
            } else if c == '=' {
                if curkey.as_str().unicode_len() == 0 {
                    return Some(Err(self.error(string_from_str("Missing key"))));
                }
                proof {
                    lemma_scan_range(t, q + 1, Stop::LineEnd, Seq::empty());
                }
                match self.parse_val() {
                    Scan::Text(v) => {
                        let value = trimmed_string(&v, 0, v.len());
                        proof {
                            assert(v@.subrange(0, v@.len() as int) =~= v@);
                        }
                        let mut key = String::new();
                        std::mem::swap(&mut key, &mut curkey);
                        let sec = match &cursec {
                            Some(s) => Some(s.clone()),
                            None => None,
                        };
                        result.set_in(sec, key, value);
                        self.bump();
                    },
                    Scan::Failed(e) => {
                        return Some(Err(e));
                    },
                    Scan::Stuck => {
                        return None;
                    },
                }
            } else {
                proof {
                    lemma_scan_range(t, q, Stop::Equals, Seq::empty());
                }
                match self.parse_key() {
                    Scan::Text(v) => {
                        curkey = trimmed_string(&v, 0, v.len());
                        proof {
                            assert(v@.subrange(0, v@.len() as int) =~= v@);
                        }
                    },
                    Scan::Failed(e) => {
                        return Some(Err(e));
                    },
                    Scan::Stuck => {
                        return None;
                    },
                }
            }
        }
    }

    /// Reads the rest of the text into a document, or finds its first error.
    /// The reading must not get stuck (see `Parsed::Stuck`).
    pub fn parse(&mut self) -> (r: Result<Ini, Error>)
        requires
            old(self).wf(),
            !(parse_from(old(self).text(), old(self).position()) is Stuck),
        ensures
            final(self).wf(),
            final(self).text() == old(self).text(),
            outcome_is(Some(r), old(self).text(), parse_from(old(self).text(), old(self).position())),
            parse_from(old(self).text(), old(self).position()) is Done ==> final(self).position()
                == old(self).text().len(),
            parse_from(old(self).text(), old(self).position()) matches Parsed::Failed(q, _)
                ==> final(self).position() == q,
    {
        match self.parse_checked() {
            Some(r) => r,
            None => {
                proof {
                    assert(false);
                }
                Ok(Ini::new())
            },
        }
    }
}

impl Ini {
    /// Reads a document from `text`, or finds the text's first error.
    /// The reading must not get stuck (see `Parsed::Stuck`): among others, a
    /// text that is blank, or that ends in blanks after an item, or in a
    /// comment without a line feed, gets it stuck.
    pub fn load_from_str(text: &str) -> (r: Result<Ini, Error>)
        requires
            !(parse_text(text@) is Stuck),
        ensures
            outcome_is(Some(r), text@, parse_text(text@)),
    {
        let mut parser = Parser::new(text);
        parser.parse()
    }

    /// Reads a document from `text`, or finds the text's first error; `None`
    /// where the reading gets stuck (see `Parsed::Stuck`).
    pub fn load_from_str_checked(text: &str) -> (r: Option<Result<Ini, Error>>)
        ensures
            outcome_is(r, text@, parse_text(text@)),
    {
        let mut parser = Parser::new(text);
        parser.parse_checked()
    }
}

/// Whether the reader skips `c` between items.
fn is_blank_char(c: char) -> (r: bool)
    ensures
        r == is_blank(c),
{
    c == ' ' || c == '\n' || c == '\t' || c == '\r'
}

} // verus!
