use network_essentials::string_parser::xml_parser::{self, XmlError};

#[test]
fn text_loses_spaces() {
    let ps = xml_parser::parse(&"<a> x y\r\n z </a>".to_string()).expect("valid");
    assert_eq!(ps.get_from_map("a").get_string(), "xyz");
}

#[test]
fn siblings_and_nesting() {
    let ps = xml_parser::parse(&"<a><b>1</b><c>2</c></a><d>3</d>".to_string()).expect("valid");
    let a = ps.get_from_map("a");
    assert_eq!(a.get_from_map("b").get_string(), "1");
    assert_eq!(a.get_from_map("c").get_string(), "2");
    assert_eq!(ps.get_from_map("d").get_string(), "3");
}

#[test]
fn mismatched_closing_tag() {
    assert_eq!(
        xml_parser::try_parse(&"<a>\nx\n</b>".to_string()).err(),
        Some(XmlError::MismatchedClosingTag { line: 2 })
    );
}

#[test]
fn closing_without_opening() {
    assert_eq!(
        xml_parser::try_parse(&"\n</a>".to_string()).err(),
        Some(XmlError::ClosingTagWithoutOpening { line: 1 })
    );
}

#[test]
fn close_without_open() {
    assert_eq!(
        xml_parser::try_parse(&"a>".to_string()).err(),
        Some(XmlError::CloseWithoutOpen { line: 0 })
    );
}

#[test]
fn open_bracket_at_end() {
    assert_eq!(
        xml_parser::try_parse(&"<a>x<".to_string()).err(),
        Some(XmlError::OpenBracketAtEnd)
    );
}

#[test]
fn empty_text_sets_no_string() {
    let ps = xml_parser::parse(&"<a><b>1</b></a>".to_string()).expect("valid");
    assert!(ps.get_map().contains_key("a"));
    assert_eq!(ps.get_from_map("a").get_from_map("b").get_string(), "1");
}

#[test]
fn empty_document() {
    assert!(xml_parser::parse(&"".to_string()).is_ok());
}
