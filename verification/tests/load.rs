use ini::Ini;

#[test]
fn load_from_str_with_valid_input() {
    let input = "[sec1]\nkey1=val1\nkey2=377\n[sec2]foo=bar\n";
    let opt = Ini::load_from_str(input);
    assert!(opt.is_ok());

    let output = opt.unwrap();
    assert_eq!(output.sections().len(), 2);
    assert!(output.sections().contains(&Some("sec1".to_string())));

    let sec1 = output.section(Some("sec1")).unwrap();
    assert_eq!(sec1.len(), 2);
    assert!(sec1.contains_key("key1"));
    assert!(sec1.contains_key("key2"));
    assert_eq!(sec1.get("key1"), Some("val1"));
    assert_eq!(sec1.get("key2"), Some("377"));
}

#[test]
fn load_from_str_without_ending_newline() {
    let input = "[sec1]\nkey1=val1\nkey2=377\n[sec2]foo=bar";
    let opt = Ini::load_from_str(input);
    assert!(opt.is_ok());
}
