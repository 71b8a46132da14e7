use html_parser::{Element, Node};

#[test]
fn node_utillity_functions() {
    let node = Node::Text("test".into());

    assert_eq!(node.text_str(), Some("test"));
    assert_eq!(node.element(), None);
    assert_eq!(node.comment_str(), None);

    let node = Node::Element(Element::default());

    assert_eq!(node.text_str(), None);
    assert_eq!(node.element(), Some(&Element::default()));
    assert_eq!(node.comment_str(), None);

    let node = Node::Comment("test".into());

    assert_eq!(node.text_str(), None);
    assert_eq!(node.element(), None);
    assert_eq!(node.comment_str(), Some("test"));
}
