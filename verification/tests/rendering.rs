use simple_xml::{from_string, new, new_filled, Group, Node};

#[test]
fn compact_round_trip_reproduces_the_tree() {
    let source = "<a k=\"1\"><b>x</b><c n=\"2\"/><b>y</b></a>";
    let first = from_string(source).unwrap();
    let rendered = first.to_string_compact();
    let second = from_string(&rendered).unwrap();
    assert_eq!(second.tag, first.tag);
    assert_eq!(second.content, first.content);
    assert_eq!(second.attributes.len(), first.attributes.len());
    assert_eq!(second.get_attribute("k").map(String::as_str), Some("1"));
    let b1 = first.get_nodes("b").unwrap();
    let b2 = second.get_nodes("b").unwrap();
    assert_eq!(b1.len(), b2.len());
    assert_eq!(b1[0].content, b2[0].content);
    assert_eq!(b1[1].content, b2[1].content);
    assert_eq!(rendered, second.to_string_compact());
}

#[test]
fn compact_rendering_of_parsed_input_is_exact() {
    let source = "<a k=\"1\"><b>x</b></a>";
    let node = from_string(source).unwrap();
    assert_eq!(node.to_string_compact(), source);
}

#[test]
fn pretty_rendering_indents_children() {
    let node = from_string("<a><b>x</b></a>").unwrap();
    assert_eq!(node.to_string_pretty(), "<a>\n    <b>x</b>\n</a>\n");
}

#[test]
fn pretty_rendering_indents_each_level() {
    let node = from_string("<a><b><c/></b></a>").unwrap();
    assert_eq!(node.to_string_pretty(), "<a>\n    <b>\n        <c/>\n    </b>\n</a>\n");
}

#[test]
fn pretty_rendering_of_leaf_nodes() {
    let leaf = new("a", String::new());
    assert_eq!(leaf.to_string_compact(), "<a/>");
    assert_eq!(leaf.to_string_pretty(), "<a/>\n");
    let with_content = new("a", String::from("hi"));
    assert_eq!(with_content.to_string_compact(), "<a>hi</a>");
    assert_eq!(with_content.to_string_pretty(), "<a>hi</a>\n");
}

#[test]
fn new_node_is_empty_but_for_tag_and_content() {
    let node = new("greeting", String::from("hello"));
    assert_eq!(node.tag, "greeting");
    assert_eq!(node.content, "hello");
    assert_eq!(node.attributes.len(), 0);
    assert!(node.get_nodes("anything").is_none());
    assert!(node.get_attribute("anything").is_none());
}

#[test]
fn new_filled_keeps_what_it_is_given() {
    let attributes = vec![(String::from("k"), String::from("v"))];
    let child = new("b", String::from("x"));
    let nodes = vec![Group { tag: String::from("b"), members: vec![child] }];
    let node = new_filled("a", attributes, String::from("text"), nodes);
    assert_eq!(node.tag, "a");
    assert_eq!(node.content, "text");
    assert_eq!(node.get_attribute("k").map(String::as_str), Some("v"));
    assert_eq!(node.get_nodes("b").unwrap().len(), 1);
    assert_eq!(node.to_string_compact(), "<a k=\"v\"><b>x</b>text</a>");
}

#[test]
fn add_attribute_returns_previous_value_on_overwrite() {
    let mut node = new("a", String::new());
    assert_eq!(node.add_attribute("k", "1"), None);
    assert_eq!(node.add_attribute("k", "2"), Some(String::from("1")));
    assert_eq!(node.attributes.len(), 1);
    assert_eq!(node.get_attribute("k").map(String::as_str), Some("2"));
}

#[test]
fn add_node_groups_children_by_tag() {
    let mut root = new("root", String::new());
    root.add_node(new("b", String::from("one")));
    root.add_node(new("c", String::from("two")));
    root.add_node(new("b", String::from("three")));
    let b = root.get_nodes("b").expect("group for b");
    assert_eq!(b.len(), 2);
    assert_eq!(b[0].content, "one");
    assert_eq!(b[1].content, "three");
    let c = root.get_nodes("c").expect("group for c");
    assert_eq!(c.len(), 1);
    assert_eq!(c[0].content, "two");
    assert!(root.get_nodes("d").is_none());
}

#[test]
fn attributes_render_in_insertion_order() {
    let mut node = new("a", String::new());
    node.add_attribute("x", "1");
    node.add_attribute("y", "2");
    assert_eq!(node.to_string_compact(), "<a x=\"1\" y=\"2\"/>");
}

#[test]
fn built_tree_round_trips_through_text() {
    let mut root = new("list", String::new());
    let mut item = new("item", String::from("milk"));
    item.add_attribute("qty", "2");
    root.add_node(item);
    root.add_node(new("item", String::from("eggs")));
    let text = root.to_string_compact();
    assert_eq!(text, "<list><item qty=\"2\">milk</item><item>eggs</item></list>");
    let parsed: Node = from_string(&text).unwrap();
    assert_eq!(parsed.to_string_compact(), text);
    let items = parsed.get_nodes("item").unwrap();
    assert_eq!(items[0].get_attribute("qty").map(String::as_str), Some("2"));
    assert_eq!(items[1].content, "eggs");
}
