use html_parser::{Dom, DomVariant, Node};

#[test]
fn parses_fragment_and_writes_it_back() {
    let dom = Dom::parse("<div class=\"a b\" id=\"x\" data-k=\"v\">hello <b>world</b></div>").unwrap();
    assert!(dom.tree_type == DomVariant::DocumentFragment);
    assert_eq!(dom.children.len(), 1);
    assert_eq!(dom.to_html(), "<div class=\"a b\" id=\"x\" data-k=\"v\">hello<b>world</b></div>");
}

#[test]
fn parses_document() {
    let dom = Dom::parse("<!DOCTYPE html><html><head></head><body><p>x</p></body></html>").unwrap();
    assert!(dom.tree_type == DomVariant::Document);
    assert_eq!(dom.children.len(), 1);
    match &dom.children[0] {
        Node::Element(e) => assert_eq!(e.name.as_ref(), "html"),
        _ => panic!("expected an element"),
    }
}

#[test]
fn empty_input_is_empty() {
    let dom = Dom::parse("").unwrap();
    assert!(dom.tree_type == DomVariant::Empty);
    assert!(dom.children.is_empty());
}

#[test]
fn comments_only_is_a_fragment() {
    let dom = Dom::parse("<!-- a --><!-- b -->").unwrap();
    assert!(dom.tree_type == DomVariant::DocumentFragment);
    assert_eq!(dom.children.len(), 2);
    assert_eq!(dom.children[0].comment_str(), Some(" a "));
}

#[test]
fn two_html_elements_in_a_document_fail() {
    assert!(Dom::parse("<!doctype html><html></html><html></html>").is_err());
}

#[test]
fn fragment_with_body_fails() {
    assert!(Dom::parse("<div></div><body></body>").is_err());
}

#[test]
fn void_and_raw_text_elements() {
    let dom = Dom::parse("<img src=a.png><script>if (a < b) {}</script>").unwrap();
    assert_eq!(dom.to_html(), "<img src=\"a.png\"/><script>if (a < b) {}</script>");
}

#[test]
fn processing_instruction_is_recorded_as_error() {
    let dom = Dom::parse("<?xml version=\"1.0\"?><a></a>").unwrap();
    assert_eq!(dom.children.len(), 1);
    assert_eq!(dom.errors, vec![String::from("Failed to create element at rule: el_process_instruct")]);
}

#[test]
fn dangling_end_tag_is_dropped() {
    let dom = Dom::parse("<a></a></b>").unwrap();
    assert_eq!(dom.children.len(), 1);
    assert!(dom.errors.is_empty());
}

#[test]
fn unclosed_comment_fails() {
    assert!(Dom::parse("<!-- never closed").is_err());
}

#[test]
fn attributes_of_all_kinds() {
    let dom = Dom::parse("<input disabled value='x y' name=n class=\" c1  c2 c1 \">").unwrap();
    match &dom.children[0] {
        Node::Element(e) => {
            assert_eq!(e.name.as_ref(), "input");
            assert!(e.attributes.contains_key("disabled"));
            assert_eq!(e.attributes.get("value").unwrap().as_ref().unwrap().as_str(), "x y");
            assert_eq!(e.attributes.get("name").unwrap().as_ref().unwrap().as_str(), "n");
            assert!(e.classes.contains_key("c1"));
            assert!(e.classes.contains_key("c2"));
            assert_eq!(e.classes.0 .0.len(), 2);
        }
        _ => panic!("expected an element"),
    }
}

#[test]
fn unclosed_element_becomes_text() {
    let dom = Dom::parse("<div>").unwrap();
    assert_eq!(dom.children.len(), 1);
    assert_eq!(dom.children[0].text_str(), Some("<div>"));
}

#[test]
fn html_first_in_fragment_makes_a_document() {
    let dom = Dom::parse("<html><body></body></html>").unwrap();
    assert!(dom.tree_type == DomVariant::Document);
}

#[test]
fn element_after_html_in_fragment_fails() {
    assert!(Dom::parse("<html></html><p></p>").is_ok());
    assert!(Dom::parse("<p></p><html></html>").is_err());
}

#[test]
fn blank_input_is_empty() {
    let dom = Dom::parse(" \n\t \r\n").unwrap();
    assert!(dom.tree_type == DomVariant::Empty);
    assert!(dom.children.is_empty());
    assert!(dom.errors.is_empty());
}

#[test]
fn unmatched_input_names_the_failure() {
    match Dom::parse("<p>ok</p><!-- open") {
        Err(html_parser::Error::Parsing(m)) => {
            assert_eq!(m, "The input holds content that no rule of the grammar matches")
        }
        Ok(_) => panic!("expected an error"),
    }
}

#[test]
fn parsed_elements_are_well_formed() {
    let dom = Dom::parse("<div id=a class=\"x  y x\" data-k=1 data-k=2> <p class=\"\">  t  </p>   </div>").unwrap();
    match &dom.children[0] {
        Node::Element(e) => {
            assert!(!e.name.is_empty());
            assert!(!e.attributes.contains_key("id"));
            assert!(!e.attributes.contains_key("class"));
            assert_eq!(e.attributes.0.len(), 1);
            let classes: Vec<&str> = e.classes.iter().map(|c| c.as_str()).collect();
            assert_eq!(classes, vec!["x", "y"]);
            assert_eq!(e.children.len(), 1);
            match &e.children[0] {
                Node::Element(p) => {
                    assert!(p.classes.is_empty());
                    assert_eq!(p.children.len(), 1);
                    assert!(!p.children[0].text_str().unwrap().trim().is_empty());
                }
                _ => panic!("expected an element"),
            }
        }
        _ => panic!("expected an element"),
    }
}

#[test]
fn html_name_in_any_case_makes_a_document() {
    let dom = Dom::parse("<HTML><Body></Body></HTML>").unwrap();
    assert!(dom.tree_type == DomVariant::Document);
    assert!(Dom::parse("<!doctype html><Html></Html><hTmL></hTmL>").is_err());
}
