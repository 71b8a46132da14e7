use html_parser::tokenizer::tokenize;
use html_parser::{Pair, Rule};

fn shape(p: &Pair) -> (Rule, usize, usize, Vec<(Rule, usize, usize)>) {
    (p.rule, p.start, p.end, p.inner.iter().map(|q| (q.rule, q.start, q.end)).collect())
}

#[test]
fn text_and_element_tokens() {
    let v = tokenize("  a b <b>x</b> ").unwrap();
    assert_eq!(v.len(), 3);
    assert_eq!(shape(&v[0]), (Rule::node_text, 2, 5, vec![]));
    assert_eq!(v[0].as_str(), "a b");
    assert_eq!(
        shape(&v[1]),
        (Rule::node_element, 6, 14, vec![(Rule::el_name, 7, 8), (Rule::node_text, 9, 10), (Rule::el_normal_end, 10, 14)])
    );
    assert_eq!(shape(&v[2]), (Rule::EOI, 15, 15, vec![]));
}

#[test]
fn conditional_comment_keeps_its_endif() {
    let v = tokenize("<!--[if IE]>x<![endif]-->").unwrap();
    assert_eq!(v[0].rule, Rule::node_comment);
    assert_eq!(v[0].inner[0].rule, Rule::comment_body);
    assert_eq!(v[0].inner[0].as_str(), "[if IE]>x<![endif]");
    assert_eq!(v[0].inner_text, "[if IE]>x<![endif]");
}

#[test]
fn raw_text_content_is_trimmed() {
    let v = tokenize("<style>\n  p {}  \n</style>").unwrap();
    let inner = &v[0].inner;
    assert_eq!(inner[0].rule, Rule::el_raw_text_name);
    assert_eq!(inner[1].rule, Rule::el_raw_text_content);
    assert_eq!(inner[1].as_str(), "p {}");
    assert_eq!(inner[2].rule, Rule::el_raw_text_end);
    assert_eq!(inner[2].as_str(), "</style>");
}

#[test]
fn unclosed_quote_leaves_the_value_out() {
    let v = tokenize("<a href=\"x>").unwrap();
    // the open quote is not an attribute value, so the element does not close; it is text
    assert_eq!(v[0].rule, Rule::node_text);
    let w = tokenize("<br k= \"v\" >").unwrap();
    let attr = &w[0].inner[1];
    assert_eq!(attr.rule, Rule::attr);
    assert_eq!(attr.inner[0].rule, Rule::attr_key);
    assert_eq!(attr.inner[1].rule, Rule::attr_quoted);
    assert_eq!(attr.inner[1].inner[0].as_str(), "v");
}

#[test]
fn doctype_and_leading_comments() {
    let v = tokenize("<!-- c --> <!DOCTYPE html> <p></p>").unwrap();
    let rules: Vec<Rule> = v.iter().map(|p| p.rule).collect();
    assert_eq!(rules, vec![Rule::node_comment, Rule::doctype, Rule::node_element, Rule::EOI]);
}

#[test]
fn unmatched_content_fails() {
    assert!(tokenize("<!-- open").is_err());
    assert!(tokenize("").unwrap().len() == 1);
}
