use ini::{Ini, Properties};

#[test]
fn set_to_then_get_from_reads_the_value() {
    let mut ini = Ini::new();
    ini.set_to(Some("sec"), "key", "value");
    assert_eq!(ini.get_from(Some("sec"), "key"), Some("value"));
    assert_eq!(ini.get_from(Some("sec"), "other"), None);
    assert_eq!(ini.get_from(Some("nosec"), "key"), None);
    assert_eq!(ini.get_from(None, "key"), None);
}

#[test]
fn set_to_twice_keeps_the_last_value_and_the_place() {
    let mut ini = Ini::new();
    ini.set_to(Some("a"), "k1", "1");
    ini.set_to(Some("b"), "k", "x");
    ini.set_to(Some("a"), "k2", "2");
    ini.set_to(Some("a"), "k1", "3");
    assert_eq!(ini.get_from(Some("a"), "k1"), Some("3"));
    assert_eq!(
        ini.sections(),
        vec![Some("a".to_string()), Some("b".to_string())]
    );
    let a = ini.section(Some("a")).unwrap();
    assert_eq!(a.len(), 2);
    assert_eq!(a.key_at(0), "k1");
    assert_eq!(a.value_at(0), "3");
    assert_eq!(a.key_at(1), "k2");
}

#[test]
fn get_from_or_falls_back_to_the_default() {
    let mut ini = Ini::new();
    ini.set_to(None, "present", "yes");
    assert_eq!(ini.get_from_or(None, "present", "no"), "yes");
    assert_eq!(ini.get_from_or(None, "absent", "no"), "no");
    assert_eq!(ini.get_from_or(Some("x"), "present", "no"), "no");
}

#[test]
fn delete_from_removes_only_that_key() {
    let mut ini = Ini::new();
    ini.set_to(Some("s"), "a", "1");
    ini.set_to(Some("s"), "b", "2");
    assert_eq!(ini.delete_from(Some("s"), "a"), Some("1".to_string()));
    assert_eq!(ini.delete_from(Some("s"), "a"), None);
    assert_eq!(ini.delete_from(Some("t"), "b"), None);
    assert_eq!(ini.get_from(Some("s"), "a"), None);
    assert_eq!(ini.get_from(Some("s"), "b"), Some("2"));
}

#[test]
fn delete_removes_a_section() {
    let mut ini = Ini::new();
    ini.set_to(Some("s"), "a", "1");
    ini.set_to(Some("t"), "b", "2");
    let removed = ini.delete(Some("s")).unwrap();
    assert_eq!(removed.get("a"), Some("1"));
    assert!(ini.section(Some("s")).is_none());
    assert!(ini.delete(Some("s")).is_none());
    assert_eq!(ini.get_from(Some("t"), "b"), Some("2"));
    assert_eq!(ini.sections(), vec![Some("t".to_string())]);
}

#[test]
fn clear_removes_every_section() {
    let mut ini = Ini::new();
    ini.set_to(Some("s"), "a", "1");
    ini.set_to(None, "b", "2");
    ini.clear();
    assert!(ini.sections().is_empty());
    assert_eq!(ini.get_from(None, "b"), None);
}

#[test]
fn with_section_sets_in_a_chain() {
    let mut ini = Ini::new();
    ini.with_section(Some("chain")).set("a", "1").set("b", "2").delete("a");
    assert_eq!(ini.get_from(Some("chain"), "a"), None);
    assert_eq!(ini.get_from(Some("chain"), "b"), Some("2"));
}

#[test]
fn section_setter_get_adds_a_missing_section() {
    let mut ini = Ini::new();
    {
        let mut setter = ini.with_section(Some("new"));
        assert_eq!(setter.get("k"), None);
    }
    assert_eq!(ini.sections(), vec![Some("new".to_string())]);
    assert_eq!(ini.section(Some("new")).unwrap().len(), 0);
    ini.set_to(Some("new"), "k", "v");
    let mut setter = ini.with_section(Some("new"));
    assert_eq!(setter.get("k"), Some("v"));
}

#[test]
fn general_section_and_its_mutable_form() {
    let mut ini = Ini::new();
    ini.set_to(None, "g", "1");
    assert_eq!(ini.general_section().get("g"), Some("1"));
    ini.general_section_mut().insert("h".to_string(), "2".to_string());
    assert_eq!(ini.get_from(None, "h"), Some("2"));
}

#[test]
fn section_mut_changes_in_place() {
    let mut ini = Ini::new();
    ini.set_to(Some("s"), "a", "1");
    {
        let p = ini.section_mut(Some("s")).unwrap();
        p.insert("b".to_string(), "2".to_string());
        p.remove("a");
    }
    assert_eq!(ini.get_from(Some("s"), "a"), None);
    assert_eq!(ini.get_from(Some("s"), "b"), Some("2"));
    assert!(ini.section_mut(Some("none")).is_none());
}

#[test]
fn get_from_mut_changes_a_value() {
    let mut ini = Ini::new();
    ini.set_to(Some("s"), "a", "1");
    *ini.get_from_mut(Some("s"), "a").unwrap() = "9".to_string();
    assert_eq!(ini.get_from(Some("s"), "a"), Some("9"));
    assert!(ini.get_from_mut(Some("s"), "b").is_none());
}

#[test]
fn index_and_index_mut_reach_a_section() {
    let mut ini = Ini::new();
    ini.set_to(Some("s"), "a", "1");
    assert_eq!(ini.index(Some("s")).get("a"), Some("1"));
    ini.index_mut(Some("s")).insert("a".to_string(), "2".to_string());
    assert_eq!(ini.get_from(Some("s"), "a"), Some("2"));
}

#[test]
fn entry_or_insert_adds_or_finds() {
    let mut ini = Ini::new();
    {
        let entry = ini.entry(Some("e".to_string()));
        assert_eq!(entry.key(), &Some("e".to_string()));
        let p = entry.or_insert(Properties::new());
        p.insert("k".to_string(), "v".to_string());
    }
    {
        let mut other = Properties::new();
        other.insert("ignored".to_string(), "x".to_string());
        let p = ini.entry(Some("e".to_string())).or_insert(other);
        assert_eq!(p.get("k"), Some("v"));
        assert!(!p.contains_key("ignored"));
    }
    assert_eq!(ini.get_from(Some("e"), "k"), Some("v"));
}

#[test]
fn iter_walks_the_sections_in_order() {
    let mut ini = Ini::new();
    ini.set_to(Some("b"), "x", "1");
    ini.set_to(None, "y", "2");
    ini.set_to(Some("a"), "z", "3");
    let mut it = ini.iter();
    let mut names = Vec::new();
    while let Some((name, props)) = it.next() {
        names.push((name.clone(), props.len()));
    }
    assert_eq!(
        names,
        vec![
            (Some("b".to_string()), 1),
            (None, 1),
            (Some("a".to_string()), 1)
        ]
    );
}

#[test]
fn mut_iter_changes_each_section() {
    let mut ini = Ini::new();
    ini.set_to(Some("a"), "k", "1");
    ini.set_to(Some("b"), "k", "2");
    {
        let mut it = ini.mut_iter();
        while let Some((_, props)) = it.next() {
            props.insert("seen".to_string(), "yes".to_string());
        }
    }
    assert_eq!(ini.get_from(Some("a"), "seen"), Some("yes"));
    assert_eq!(ini.get_from(Some("b"), "seen"), Some("yes"));
}

#[test]
fn properties_insert_get_remove() {
    let mut p = Properties::new();
    assert!(p.is_empty());
    assert_eq!(p.insert("a".to_string(), "1".to_string()), None);
    assert_eq!(p.insert("b".to_string(), "2".to_string()), None);
    assert_eq!(p.insert("a".to_string(), "3".to_string()), Some("1".to_string()));
    assert_eq!(p.len(), 2);
    assert_eq!(p.get("a"), Some("3"));
    assert!(p.contains_key("b"));
    *p.get_mut("b").unwrap() = "4".to_string();
    assert_eq!(p.get("b"), Some("4"));
    assert!(p.get_mut("c").is_none());
    assert_eq!(p.remove("a"), Some("3".to_string()));
    assert_eq!(p.remove("a"), None);
    assert_eq!(p.len(), 1);
    assert_eq!(p.key_at(0), "b");
}

#[test]
fn setting_two_keys_in_either_order_reads_the_same() {
    let mut one = Ini::new();
    one.set_to(Some("s"), "a", "1");
    one.set_to(Some("s"), "b", "2");
    let mut two = Ini::new();
    two.set_to(Some("s"), "b", "2");
    two.set_to(Some("s"), "a", "1");
    for key in ["a", "b", "c"] {
        assert_eq!(one.get_from(Some("s"), key), two.get_from(Some("s"), key));
    }
}

#[test]
fn adding_a_missing_section_changes_no_reading() {
    let mut ini = Ini::new();
    ini.set_to(Some("s"), "a", "1");
    ini.with_section(Some("t")).get("a");
    assert_eq!(ini.get_from(Some("s"), "a"), Some("1"));
    assert_eq!(ini.get_from(Some("t"), "a"), None);
}

#[test]
fn entry_tells_occupied_from_vacant() {
    let mut ini = Ini::new();
    ini.set_to(Some("here"), "k", "v");
    assert!(ini.entry(Some("here".to_string())).is_occupied());
    assert!(!ini.entry(Some("gone".to_string())).is_occupied());
    assert!(!ini.entry(None).is_occupied());
    ini.set_to(None, "g", "1");
    assert!(ini.entry(None).is_occupied());
    let before = ini.sections();
    let entry = ini.entry(Some("gone".to_string()));
    assert!(!entry.is_occupied());
    entry.or_insert(Properties::new());
    assert_eq!(ini.sections().len(), before.len() + 1);
}

#[test]
fn sections_name_each_section_once() {
    let mut ini = Ini::new();
    ini.set_to(Some("a"), "k", "1");
    ini.set_to(Some("b"), "k", "2");
    ini.set_to(Some("a"), "k", "3");
    ini.set_to(None, "k", "4");
    ini.set_to(Some("b"), "j", "5");
    ini.contents_are_valid();
    let names = ini.sections();
    assert_eq!(names, vec![Some("a".to_string()), Some("b".to_string()), None]);
    let mut count = 0;
    let mut it = ini.iter();
    while let Some(_) = it.next() {
        count += 1;
    }
    assert_eq!(count, 3);
    let b = ini.section(Some("b")).unwrap();
    b.keys_are_distinct();
    assert_eq!(b.len(), 2);
}
