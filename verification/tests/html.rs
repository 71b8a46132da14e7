use html_parser::{Attribute, Element, ElementVariant, Node, Text};
use std::borrow::Cow;

fn div() -> Element<'static> {
    let mut e = Element::default();
    e.name = Cow::Borrowed("div");
    e.variant = ElementVariant::Normal;
    e
}

#[test]
fn void_element_closes_itself() {
    let mut e = Element::default();
    e.name = Cow::Borrowed("br");
    assert_eq!(e.to_html(), "<br/>");
}

#[test]
fn element_with_classes_id_and_attributes() {
    let mut e = div();
    e.classes.insert("a".into());
    e.classes.insert("b".into());
    e.id = Some("main".into());
    e.attributes.insert(Cow::Borrowed("hidden"), None);
    e.attributes.insert(Cow::Borrowed("title"), Some(Attribute::from("t")));
    e.children.push(Node::Text("hi".into()));
    e.children.push(Node::Comment(" c ".into()));
    assert_eq!(e.to_html(), "<div class=\"a b\" id=\"main\" hidden title=\"t\">hi<!-- c --></div>");
    let mut w = String::from("x");
    e.write_html(&mut w);
    assert_eq!(w, "x<div class=\"a b\" id=\"main\" hidden title=\"t\">hi<!-- c --></div>");
}

#[test]
fn node_to_html_of_each_kind() {
    assert_eq!(Node::Text("a&b".into()).to_html(), "a&b");
    assert_eq!(Node::Comment("x".into()).to_html(), "<!--x-->");
    assert_eq!(Node::Element(div()).to_html(), "<div></div>");
}

#[test]
fn strip_tags_keeps_text_only() {
    let mut outer = div();
    let mut inner = div();
    inner.children.push(Node::Text("b".into()));
    outer.children.push(Node::Text("a".into()));
    outer.children.push(Node::Comment("no".into()));
    outer.children.push(Node::Element(inner));
    outer.children.push(Node::Text("c".into()));
    let n = Node::Element(outer);
    assert_eq!(n.strip_tags().as_str(), "abc");
    assert_eq!(Node::Comment("x".into()).strip_tags().as_str(), "");
    assert_eq!(Node::Text("t".into()).strip_tags().as_str(), "t");
}

#[test]
fn to_text_decodes_entities() {
    let mut e = div();
    e.children.push(Node::Text("a &amp; b &lt;c&gt;".into()));
    assert_eq!(Node::Element(e).to_text(), "a & b <c>");
    assert_eq!(Node::Text("plain".into()).to_text(), "plain");
}

#[test]
fn accessors_of_text_and_comment() {
    let t = Node::Text(Text::from("x"));
    assert_eq!(t.text().map(|t| t.as_str()), Some("x"));
    assert!(t.comment().is_none());
    let c = Node::Comment(Text::from(String::from("y")));
    assert_eq!(c.comment().map(|t| t.as_str()), Some("y"));
    assert!(c.text().is_none());
}

#[test]
fn descendants_in_document_order() {
    let mut a = div();
    let mut b = div();
    b.children.push(Node::Text("b1".into()));
    a.children.push(Node::Text("a1".into()));
    a.children.push(Node::Element(b));
    a.children.push(Node::Text("a2".into()));
    let root = Node::Element(a);
    let mut it = root.into_iter();
    let mut seen = Vec::new();
    while let Some(n) = it.next() {
        seen.push(match n {
            Node::Text(t) => t.as_str().to_string(),
            Node::Element(e) => format!("<{}>", e.name),
            Node::Comment(_) => "comment".to_string(),
        });
    }
    assert_eq!(seen, vec!["a1", "<div>", "b1", "a2"]);
    assert!(it.next().is_none());
}

#[test]
fn text_and_attribute_compare_with_str() {
    let a = Attribute::from("value");
    assert!(a == "value");
    assert!(a == *"value");
    assert!(&a == *"value");
    assert!(a != "other");
    let t = Text::from(String::from("body"));
    assert!(t == "body");
    assert!(t == *"body");
    assert!(&t == *"body");
    assert!(t != "Body");
}

#[test]
fn node_iterates_as_an_iterator() {
    let dom = html_parser::Dom::parse("<div><a href=\"x\">1</a><p><a href=\"y\">2</a><a>3</a></p></div>").unwrap();
    let root = dom.children.first().unwrap();
    let hrefs: Vec<&str> = root
        .into_iter()
        .filter_map(|n| match n {
            Node::Element(e) if e.name == "a" => e.attributes.get("href").and_then(|v| v.as_ref()).map(|v| v.as_str()),
            _ => None,
        })
        .collect();
    assert_eq!(hrefs, vec!["x", "y"]);
    let mut count = 0;
    for _ in root {
        count += 1;
    }
    assert_eq!(count, 7);
}

#[test]
fn source_span_clones_and_defaults() {
    let s = html_parser::dom::span::SourceSpan::new("<p>", 1, 1, 1, 4);
    let c = s.clone();
    assert_eq!(c, s);
    assert_eq!(c.text, "<p>");
    let d = html_parser::dom::span::SourceSpan::default();
    assert_eq!(d.text, "");
    assert_eq!(d.start_line, 0);
}
