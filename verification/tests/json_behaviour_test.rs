use network_essentials::string_parser::json_parser;

fn words(s: &str) -> Vec<String> {
    let ps = json_parser::parse(&s.to_string());
    ps.get_list().iter().map(|p| p.get_string()).collect()
}

#[test]
fn spaces_outside_quotes_are_ignored() {
    assert_eq!(words("[ a , b\n,\tc ]"), words("[a,b,c]"));
    assert_eq!(words("[ \" a b \" ]"), vec![" a b ".to_string()]);
}

#[test]
fn quoted_and_bare_texts() {
    assert_eq!(words("[x,\"y\",\"z,]\"]"), vec!["x", "y", "z,]"]);
}

#[test]
fn nested_values() {
    let ps = json_parser::parse(&"{\"k\": {\"x\": [1, [2]]}, \"e\": \"\"}".to_string());
    let x = ps.get_from_map("k").get_from_map("x");
    let l = x.get_list();
    assert_eq!(l.len(), 2);
    assert_eq!(l[0].get_string(), "1");
    assert_eq!(l[1].get_list()[0].get_string(), "2");
    assert_eq!(ps.get_from_map("e").get_string(), "");
}

#[test]
fn later_key_wins() {
    let ps = json_parser::parse(&"{\"a\":1,\"a\":2}".to_string());
    assert_eq!(ps.get_from_map("a").get_string(), "2");
}

#[test]
fn trailing_text_is_ignored() {
    assert_eq!(words("[a]xyz"), vec!["a"]);
}

#[test]
fn refused_texts() {
    for s in [
        "",
        "   ",
        "abc",
        "[a",
        "[a}",
        "[}",
        "{a:1}",
        "{\"a\" 1}",
        "{\"a\":1]",
        "{\"a\":",
        "[\"a\"b]",
        "[a\"b\"]",
        "{\"a",
    ] {
        assert!(json_parser::try_parse(&s.to_string()).is_none(), "{:?}", s);
    }
}

#[test]
fn accepted_texts() {
    for s in ["[]", "{}", "[a,b]", "{\"a\":[]}"] {
        assert!(json_parser::try_parse(&s.to_string()).is_some(), "{:?}", s);
    }
}

#[test]
fn empty_item_between_commas() {
    assert_eq!(words("[,a]"), vec!["", "a"]);
}
