use network_essentials::string_parser::model_classes::ParsedString;
use network_essentials::text::{chars_of, str_eq, StrMap};

#[test]
fn string_read_back() {
    let mut ps = ParsedString::new();
    ps.set_string("first".to_string());
    assert_eq!(ps.get_string(), "first");
    ps.set_string("second".to_string());
    assert_eq!(ps.get_string(), "second");
}

#[test]
fn list_read_back() {
    let mut ps = ParsedString::new();
    let mut a = ParsedString::new();
    a.set_string("a".to_string());
    let mut b = ParsedString::new();
    b.set_string("b".to_string());
    ps.add_to_list(a);
    ps.add_to_list(b);
    let l = ps.get_list();
    assert_eq!(l.len(), 2);
    assert_eq!(l[0].get_string(), "a");
    assert_eq!(l[1].get_string(), "b");
}

#[test]
fn map_read_back_and_replace() {
    let mut ps = ParsedString::new();
    let mut a = ParsedString::new();
    a.set_string("one".to_string());
    let mut b = ParsedString::new();
    b.set_string("two".to_string());
    let mut c = ParsedString::new();
    c.set_string("three".to_string());
    ps.add_to_hashmap("k1".to_string(), a);
    ps.add_to_hashmap("k2".to_string(), b);
    assert_eq!(ps.get_from_map("k1").get_string(), "one");
    assert_eq!(ps.get_from_map("k2").get_string(), "two");
    ps.add_to_hashmap("k1".to_string(), c);
    assert_eq!(ps.get_from_map("k1").get_string(), "three");
    assert_eq!(ps.get_from_map("k2").get_string(), "two");
    assert!(ps.get_map().get("k3").is_none());
    assert!(ps.get_hashmap().contains_key("k2"));
}

#[test]
fn kinds_are_independent() {
    let mut ps = ParsedString::new();
    ps.set_string("s".to_string());
    ps.add_to_list(ParsedString::new());
    ps.add_to_hashmap("k".to_string(), ParsedString::new());
    assert_eq!(ps.get_string(), "s");
    assert_eq!(ps.get_list().len(), 1);
    assert!(ps.get_map().contains_key("k"));
}

#[test]
fn str_map_basics() {
    let mut m: StrMap<u32> = StrMap::new();
    assert!(m.get("x").is_none());
    m.insert("x".to_string(), 1);
    m.insert("y".to_string(), 2);
    m.insert("x".to_string(), 3);
    assert_eq!(m.get("x"), Some(&3));
    assert_eq!(m.get("y"), Some(&2));
    assert!(!m.contains_key("z"));
}

#[test]
fn text_helpers() {
    assert_eq!(chars_of("añb"), vec!['a', 'ñ', 'b']);
    assert!(str_eq("abc", "abc"));
    assert!(!str_eq("abc", "abd"));
    assert!(!str_eq("abc", "ab"));
    assert!(str_eq("", ""));
}

#[test]
fn clone_copies_the_whole_tree() {
    let mut inner = ParsedString::new();
    inner.set_string("deep".to_string());
    let mut item = ParsedString::new();
    item.add_to_hashmap("k".to_string(), inner);
    let mut ps = ParsedString::new();
    ps.set_string("top".to_string());
    ps.add_to_list(item);
    let copy = ps.clone();
    ps.set_string("changed".to_string());
    assert_eq!(copy.get_string(), "top");
    assert_eq!(copy.get_list().len(), 1);
    assert_eq!(copy.get_list()[0].get_from_map("k").get_string(), "deep");
}
