use simple_xml::{from_string, Error};

#[test]
fn self_closing_element_with_attribute() {
    let node = from_string("<tag k=\"v\"/>").unwrap();
    assert_eq!(node.tag, "tag");
    assert_eq!(node.attributes.len(), 1);
    assert_eq!(node.get_attribute("k").map(String::as_str), Some("v"));
    assert!(node.get_nodes("anything").is_none());
    assert_eq!(node.content, "");
}

#[test]
fn nested_elements_group_in_document_order() {
    let root = from_string("<a><b>x</b><b>y</b></a>").unwrap();
    assert_eq!(root.tag, "a");
    assert_eq!(root.content, "");
    let group = root.get_nodes("b").expect("group for b");
    assert_eq!(group.len(), 2);
    assert_eq!(group[0].tag, "b");
    assert_eq!(group[0].content, "x");
    assert_eq!(group[1].tag, "b");
    assert_eq!(group[1].content, "y");
}

#[test]
fn whitespace_only_input_yields_sentinel() {
    let node = from_string("  \t\n  ").unwrap();
    assert_eq!(node.tag, "");
    assert_eq!(node.content, "");
    assert_eq!(node.attributes.len(), 0);
    assert_eq!(node.to_string_compact(), "");
    assert_eq!(node.to_string_pretty(), "");
}

#[test]
fn empty_input_yields_sentinel() {
    let node = from_string("").unwrap();
    assert_eq!(node.tag, "");
    assert_eq!(node.to_string_compact(), "");
}

#[test]
fn attribute_value_with_space_stays_whole() {
    let node = from_string("<a n=\"hello world\"/>").unwrap();
    assert_eq!(node.get_attribute("n").map(String::as_str), Some("hello world"));
    assert_eq!(node.attributes.len(), 1);
}

#[test]
fn leading_declaration_is_skipped() {
    let with_decl = from_string("<?xml version=\"1.0\"?><a/>").unwrap();
    let without = from_string("<a/>").unwrap();
    assert_eq!(with_decl.tag, "a");
    assert_eq!(with_decl.tag, without.tag);
    assert_eq!(with_decl.attributes.len(), without.attributes.len());
    assert_eq!(with_decl.content, without.content);
    assert_eq!(with_decl.to_string_compact(), without.to_string_compact());
}

#[test]
fn unquoted_attribute_value_is_an_error() {
    let err = from_string("<a n=hi/>").unwrap_err();
    match err {
        Error::MissingQuotes(token, _) => assert_eq!(token, "n=hi"),
        other => panic!("expected MissingQuotes, got {:?}", other),
    }
}

#[test]
fn text_before_root_is_an_error() {
    let err = from_string("garbage<a/>").unwrap_err();
    assert!(matches!(err, Error::ContentOutsideRoot(_)));
}

#[test]
fn missing_closing_delimiter_is_an_error() {
    let err = from_string("<a").unwrap_err();
    assert!(matches!(err, Error::MissingClosingDelimiter(_)));
}

#[test]
fn missing_closing_tag_is_an_error() {
    let err = from_string("<a>stuff").unwrap_err();
    match err {
        Error::MissingClosingTag(tag, _) => assert_eq!(tag, "a"),
        other => panic!("expected MissingClosingTag, got {:?}", other),
    }
}

#[test]
fn attribute_without_equals_is_an_error() {
    let err = from_string("<a foo></a>").unwrap_err();
    match err {
        Error::MissingAttributeValue(token, _) => assert_eq!(token, "foo"),
        other => panic!("expected MissingAttributeValue, got {:?}", other),
    }
}

#[test]
fn duplicate_attribute_overwrites() {
    let node = from_string("<a k=\"1\" k=\"2\"/>").unwrap();
    assert_eq!(node.attributes.len(), 1);
    assert_eq!(node.get_attribute("k").map(String::as_str), Some("2"));
}

#[test]
fn content_keeps_inner_whitespace_and_is_trimmed_once() {
    let node = from_string("<a> x <b/> y </a>").unwrap();
    assert_eq!(node.content, "x  y");
    let group = node.get_nodes("b").expect("group for b");
    assert_eq!(group.len(), 1);
    assert_eq!(group[0].content, "");
}

#[test]
fn self_closing_marker_after_space() {
    let node = from_string("<a k=\"v\" />").unwrap();
    assert_eq!(node.tag, "a");
    assert_eq!(node.get_attribute("k").map(String::as_str), Some("v"));
}

#[test]
fn declaration_between_elements_is_dropped() {
    let node = from_string("<a><?note keep out?><b>x</b></a>").unwrap();
    let group = node.get_nodes("b").expect("group for b");
    assert_eq!(group.len(), 1);
    assert_eq!(group[0].content, "x");
}

#[test]
fn closing_delimiter_is_sought_after_the_opening_one() {
    let err = from_string("x>y<a").unwrap_err();
    assert!(matches!(err, Error::MissingClosingDelimiter(_)));
}

#[test]
fn same_tag_child_closes_the_parent_early() {
    // The closing-tag search is not nesting-aware: the first `</a>` ends
    // the outer element, so its inner `<a>` is left unclosed.
    let err = from_string("<a><a>x</a></a>").unwrap_err();
    match err {
        Error::MissingClosingTag(tag, _) => assert_eq!(tag, "a"),
        other => panic!("expected MissingClosingTag, got {:?}", other),
    }
}

#[test]
fn self_closing_marker_before_trailing_whitespace() {
    let node = from_string("<a / >").unwrap();
    assert_eq!(node.tag, "a");
    assert_eq!(node.attributes.len(), 0);
    assert_eq!(node.to_string_compact(), "<a/>");
}

#[test]
fn trailing_text_after_root_is_ignored() {
    let node = from_string("<a/>trailing").unwrap();
    assert_eq!(node.tag, "a");
}
