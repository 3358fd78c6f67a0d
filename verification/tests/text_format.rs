use ini::{escape_str, Ini, Parser};

fn load(text: &str) -> Ini {
    Ini::load_from_str(text).unwrap()
}

#[test]
fn escapes_are_read() {
    let ini = load("a=x\\ty\\n\\0\\;\\=\\\\z\n");
    assert_eq!(ini.get_from(None, "a"), Some("x\ty\n\0;=\\z"));
}

#[test]
fn hex_escapes_are_read() {
    let ini = load("a=\\x0041\\x00e9\\x+042\n");
    assert_eq!(ini.get_from(None, "a"), Some("A\u{e9}B"));
}

#[test]
fn an_unknown_hex_escape_is_an_error() {
    let e = Ini::load_from_str("a=\\xzz12\n").unwrap_err();
    assert_eq!(e.msg, "Unknown character.");
    assert_eq!(e.line, 0);
    assert_eq!(e.col, 8);
}

#[test]
fn a_broken_hex_escape_is_an_error() {
    let e = Ini::load_from_str("a=\\x1\\q23\n").unwrap_err();
    assert_eq!(e.msg, "Expecting \"\\\\n\" but found \"Some('q')\".");
    assert_eq!(e.col, 7);
}

#[test]
fn a_hex_escape_may_break_its_line() {
    let e = Ini::load_from_str("a=\\x12\\\n3\n").unwrap_err();
    assert_eq!(e.msg, "Unknown character.");
    assert_eq!(e.line, 1);
}

#[test]
fn a_surrogate_escape_gets_the_reader_stuck() {
    assert!(Ini::load_from_str_checked("a=\\xd800\n").is_none());
}

#[test]
fn a_backslash_line_feed_joins_lines() {
    let ini = load("a=b\\\nc\n");
    assert_eq!(ini.get_from(None, "a"), Some("bc"));
}

#[test]
fn names_keys_and_values_are_trimmed() {
    let ini = load("[  sec \u{3000}]\n  key \t=  value \u{a0}\n");
    assert_eq!(ini.get_from(Some("sec"), "key"), Some("value"));
}

#[test]
fn comments_are_skipped() {
    let ini = load("; a comment = x\n[s]\n;another\nk=v\n");
    assert_eq!(ini.sections(), vec![Some("s".to_string())]);
    assert_eq!(ini.get_from(Some("s"), "k"), Some("v"));
}

#[test]
fn a_repeated_section_collects_its_keys() {
    let ini = load("[a]\nx=1\n[b]\ny=2\n[a]\nz=3\nx=4\n");
    assert_eq!(
        ini.sections(),
        vec![Some("a".to_string()), Some("b".to_string())]
    );
    assert_eq!(ini.get_from(Some("a"), "x"), Some("4"));
    assert_eq!(ini.get_from(Some("a"), "z"), Some("3"));
    assert_eq!(ini.section(Some("a")).unwrap().key_at(1), "z");
}

#[test]
fn keys_before_any_section_go_to_the_general_section() {
    let ini = load("g=1\n[s]\nk=2\n");
    assert_eq!(ini.get_from(None, "g"), Some("1"));
    assert_eq!(ini.sections(), vec![None, Some("s".to_string())]);
}

#[test]
fn a_value_without_key_is_an_error() {
    let e = Ini::load_from_str("=b\n").unwrap_err();
    assert_eq!(e.msg, "Missing key");
    assert_eq!((e.line, e.col), (0, 1));
    assert_eq!(e.to_string(), "0:1 Missing key");
}

#[test]
fn an_unclosed_section_is_an_error() {
    let e = Ini::load_from_str("a=1\n[sec").unwrap_err();
    assert_eq!(e.msg, "Expecting \"[Some(']')]\" but found EOF.");
    assert_eq!((e.line, e.col), (1, 4));
    assert_eq!(e.to_string(), "1:4 Expecting \"[Some(']')]\" but found EOF.");
}

#[test]
fn a_key_without_value_is_an_error() {
    let e = Ini::load_from_str("[s]\nabc").unwrap_err();
    assert_eq!(e.msg, "Expecting \"[Some('=')]\" but found EOF.");
    assert_eq!((e.line, e.col), (1, 3));
}

#[test]
fn a_backslash_at_the_end_is_an_error() {
    let e = Ini::load_from_str("a=b\\").unwrap_err();
    assert_eq!(e.msg, "Expecting \"[Some('\\n'), None]\" but found EOF.");
}

#[test]
fn blank_texts_get_the_reader_stuck() {
    assert!(Ini::load_from_str_checked("").is_none());
    assert!(Ini::load_from_str_checked(" \n\t").is_none());
    assert!(Ini::load_from_str_checked("a=b\n\n").is_none());
    assert!(Ini::load_from_str_checked("a=b\n;no line feed").is_none());
    assert!(Ini::load_from_str_checked("a=b\n").is_some());
}

#[test]
fn the_parser_reads_a_text() {
    let mut parser = Parser::new("k = v");
    let ini = parser.parse().unwrap();
    assert_eq!(ini.get_from(None, "k"), Some("v"));
}

#[test]
fn escape_str_writes_special_characters() {
    assert_eq!(escape_str("a;b#c=d:e"), "a\\;b\\#c\\=d\\:e");
    assert_eq!(escape_str("\\\0\n\t\r"), "\\\\\\0\\n\\t\\r");
    assert_eq!(escape_str("\u{7}\u{8}\u{b}\u{c}"), "\\a\\b\\v\\f");
    assert_eq!(escape_str("\u{1}\u{1f}\u{7f}\u{e9}\u{ffff}"), "\\x0001\\x001f\\x007f\\x00e9\\xffff");
    assert_eq!(escape_str("plain [text] \u{1F600}"), "plain [text] \u{1F600}");
}

#[test]
fn write_to_writes_the_general_section_first() {
    let mut ini = Ini::new();
    ini.set_to(Some("s"), "b", "2");
    ini.set_to(None, "a", "1");
    ini.set_to(Some("t"), "c", "x=y");
    let mut out = String::new();
    ini.write_to(&mut out);
    assert_eq!(out, "a=1\n\n[s]\nb=2\n\n[t]\nc=x\\=y\n");
}

#[test]
fn write_to_without_general_section() {
    let mut ini = Ini::new();
    ini.set_to(Some("s"), "b", "2");
    ini.with_section(Some("empty")).get("x");
    ini.set_to(Some("t"), "c", "3");
    let mut out = String::from(">");
    ini.write_to(&mut out);
    assert_eq!(out, ">[s]\nb=2\n\n[empty]\n\n[t]\nc=3\n");
}

#[test]
fn what_is_written_reads_back() {
    let mut ini = Ini::new();
    ini.set_to(Some("sec one"), "key;1", "va\u{e9}lue\nline\t2");
    ini.set_to(None, "g", "\\back");
    ini.with_section(Some("empty")).get("x");
    ini.set_to(Some("last"), "k", "v");
    let mut out = String::new();
    ini.write_to(&mut out);
    let back = Ini::load_from_str(&out).unwrap();
    assert_eq!(
        back.sections(),
        vec![
            None,
            Some("sec one".to_string()),
            Some("empty".to_string()),
            Some("last".to_string())
        ]
    );
    assert_eq!(back.get_from(Some("sec one"), "key;1"), Some("va\u{e9}lue\nline\t2"));
    assert_eq!(back.get_from(None, "g"), Some("\\back"));
    assert_eq!(back.get_from(Some("last"), "k"), Some("v"));
    assert_eq!(back.section(Some("empty")).unwrap().len(), 0);
}

#[test]
fn hex_escapes_follow_std_number_parsing() {
    for code in ["0041", "+041", "-041", "00G1", "FFFF", "00e9", "+e9a", " 041", "++41"] {
        let expected = u32::from_str_radix(code, 16).ok().map(|n| char::from_u32(n).unwrap());
        let text = format!("k=\\x{}\n", code);
        let got = Ini::load_from_str(&text).ok().map(|ini| {
            let v = ini.get_from(None, "k").unwrap().to_string();
            v.chars().next().unwrap()
        });
        assert_eq!(got, expected, "code {}", code);
    }
}

#[test]
fn trimming_follows_std_white_space() {
    for n in 1u32..0x3100 {
        if let Some(c) = char::from_u32(n) {
            if c == '\u{b}' || c == '\u{c}' {
                continue;
            }
            let value = format!("a{}", c);
            let text = format!("k={}\n", escape_str(&value));
            let ini = Ini::load_from_str(&text).unwrap();
            assert_eq!(ini.get_from(None, "k"), Some(value.trim()), "char {:x}", n);
        }
    }
}

fn read_run(text: &str, stop: ini::grammar::Stop, skip: usize) -> Option<String> {
    let mut p = Parser::new(text);
    for _ in 0..skip {
        p.bump();
    }
    match p.parse_str_until(stop) {
        ini::Scan::Text(v) => Some(v.into_iter().collect()),
        _ => None,
    }
}

#[test]
fn parse_str_until_reads_back_escaped_text() {
    let s = "a b\t[c]=d;e\\f\u{e9}\n";
    let text = escape_str(s) + "=rest";
    assert_eq!(read_run(&text, ini::grammar::Stop::Equals, 0), Some(s.to_string()));
    let text = escape_str("name") + "]";
    assert_eq!(read_run(&text, ini::grammar::Stop::Bracket, 0), Some("name".to_string()));
    assert_eq!(read_run(&escape_str("tail"), ini::grammar::Stop::LineEnd, 0), Some("tail".to_string()));
}

#[test]
fn bump_moves_one_character_on() {
    assert_eq!(read_run("xab=", ini::grammar::Stop::Equals, 1), Some("ab".to_string()));
    assert_eq!(read_run("\nab=", ini::grammar::Stop::Equals, 1), Some("ab".to_string()));
    assert_eq!(read_run("ab", ini::grammar::Stop::Equals, 5), None);
    let mut p = Parser::new("");
    p.bump();
    assert!(matches!(p.parse_str_until(ini::grammar::Stop::LineEnd), ini::Scan::Text(v) if v.is_empty()));
}

#[test]
fn a_missing_stop_is_an_error() {
    let mut p = Parser::new("\nabc");
    match p.parse_str_until(ini::grammar::Stop::Equals) {
        ini::Scan::Failed(e) => {
            assert_eq!(e.msg, "Expecting \"[Some('=')]\" but found EOF.");
            assert_eq!((e.line, e.col), (1, 3));
        }
        other => panic!("unexpected {:?}", other),
    }
}

#[test]
fn general_section_only_when_a_pair_comes_first() {
    assert!(load("; c\n\n a=1\n[s]\nb=2\n").section(None).is_some());
    assert!(load("; c\n[s]\nb=2\n").section(None).is_none());
    let ini = load("x=1\n[s]\ny=2\n");
    assert_eq!(ini.sections()[0], None);
}
