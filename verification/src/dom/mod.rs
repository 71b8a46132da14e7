//! The document tree and how it is built from the grammar's tokens.
pub mod element;
pub mod html;
pub mod node;
pub mod span;
pub mod vecmap;
pub mod vecset;

use crate::dom::element::{Element, ElementVariant};
use crate::dom::html::{Attribute, Text, cow_str};
use crate::dom::node::{Node, NodeModel, ElementModel, nodes_model, node_model, attrs_model, opt_model,
    lemma_nodes_model_push, lemma_nodes_model, write_html_list, nodes_html};
use crate::dom::vecmap::{find_from, MapKey};
use crate::error::Error;
use crate::grammar::{Pair, Rule, rule_name, quoted_ok, tokens_in, token_ok, toks, lemma_token_ok_quoted};
use crate::syntax::{document_tokens, is_space, law_blank_document_reads_as_end};
use crate::tokenizer::{tokenize, top_level, unmatched_message};
use crate::strs::{lowercase, trimmed, words, trim, is_blank, str_eq, split_whitespace, to_lowercase, is_word, lemma_words, is_ascii, ascii_lower};
use std::borrow::Cow;
use vstd::prelude::*;

verus! {

/// Document, DocumentFragment or Empty
#[derive(Debug, Clone, Copy, PartialEq, Eq, Structural)]
pub enum DomVariant {
    /// This means that the parsed html had the representation of an html document. The doctype is optional but a document should only have one root node with the name of html.
    Document,
    /// A document fragment means that the parsed html did not have the representation of a document. A fragment can have multiple root children of any name except html, body or head.
    DocumentFragment,
    /// An empty dom means that the input was empty
    Empty,
}

/// **The main struct** & the result of the parsed html
#[derive(Debug, PartialEq)]
pub struct Dom<'a> {
    /// The type of the tree that was parsed
    pub tree_type: DomVariant,
    /// All of the root children in the tree
    pub children: Vec<Node<'a>>,
    /// A collection of all errors during parsing
    pub errors: Vec<String>,
}

/// A dom seen as plain values.
pub struct DomModel {
    pub tree_type: DomVariant,
    pub children: Seq<NodeModel>,
    pub errors: Seq<Seq<char>>,
}

pub open spec fn strings_model(v: Seq<String>) -> Seq<Seq<char>> {
    v.map_values(|s: String| s@)
}

impl<'a> View for Dom<'a> {
    type V = DomModel;

    open spec fn view(&self) -> DomModel {
        DomModel {
            tree_type: self.tree_type,
            children: nodes_model(self.children@),
            errors: strings_model(self.errors@),
        }
    }
}

// ---------------------------------------------------------------------------------------
// What building the tree from tokens yields.
// ---------------------------------------------------------------------------------------

/// The key and value an attribute token's inner tokens describe, or the message of the
/// first token that fits no attribute.
pub open spec fn attr_scan(ps: Seq<Pair>) -> Result<(Seq<char>, Option<Seq<char>>), Seq<char>>
    decreases ps.len(),
{
    if ps.len() == 0 {
        Ok((Seq::empty(), None))
    } else {
        match attr_scan(ps.drop_last()) {
            Err(m) => Err(m),
            Ok((k, v)) => {
                let p = ps.last();
                match p.rule {
                    Rule::attr_key => Ok((trimmed(p.text@), v)),
                    Rule::attr_non_quoted => Ok((k, Some(trimmed(p.text@)))),
                    Rule::attr_quoted => {
                        let q = p.inner@[0];
                        if q.rule == Rule::attr_value {
                            Ok((k, Some(q.text@)))
                        } else {
                            Err("Failed to parse attr value: "@ + rule_name(q.rule))
                        }
                    },
                    _ => Err("Failed to parse attr: "@ + rule_name(p.rule)),
                }
            },
        }
    }
}

/// Index of the first entry at or after `i` with key `k`.
pub open spec fn key_index(s: Seq<(Seq<char>, Option<Seq<char>>)>, k: Seq<char>, i: int) -> Option<int>
    decreases s.len() - i,
{
    if i < 0 || i >= s.len() {
        None
    } else if s[i].0 == k {
        Some(i)
    } else {
        key_index(s, k, i + 1)
    }
}

/// `s` with `k` mapped to `v`: in place when `k` is there, else at the end.
pub open spec fn map_insert(s: Seq<(Seq<char>, Option<Seq<char>>)>, k: Seq<char>, v: Option<Seq<char>>) -> Seq<(Seq<char>, Option<Seq<char>>)> {
    match key_index(s, k, 0) {
        Some(i) => s.update(i, (k, v)),
        None => s.push((k, v)),
    }
}

/// `s` with `w` added at the end unless it is there.
pub open spec fn set_insert(s: Seq<Seq<char>>, w: Seq<char>) -> Seq<Seq<char>> {
    if s.contains(w) {
        s
    } else {
        s.push(w)
    }
}

/// `s` with each of `ws` added in turn.
pub open spec fn set_insert_all(s: Seq<Seq<char>>, ws: Seq<Seq<char>>) -> Seq<Seq<char>>
    decreases ws.len(),
{
    if ws.len() == 0 {
        s
    } else {
        set_insert(set_insert_all(s, ws.drop_last()), ws.last())
    }
}

/// An element under construction.
pub struct ElemBuild {
    pub el: ElementModel,
    /// Messages of the errors met in nested tokens.
    pub errors: Seq<Seq<char>>,
    /// An end tag was met: the remaining tokens are not read.
    pub done: bool,
    /// A token fit no element: its message.
    pub fail: Option<Seq<char>>,
}

/// The element before any token is read.
pub open spec fn elem_start() -> ElemBuild {
    ElemBuild {
        el: ElementModel {
            id: None,
            name: Seq::empty(),
            variant: ElementVariant::Void,
            attributes: Seq::empty(),
            classes: Seq::empty(),
            children: Seq::empty(),
        },
        errors: Seq::empty(),
        done: false,
        fail: None,
    }
}

/// What building an element token gives: the node (none when it has no name), or the
/// message of a token that fit no element; and the messages of errors met on the way.
pub struct ElemOutcome {
    pub result: Result<Option<NodeModel>, Seq<char>>,
    pub errors: Seq<Seq<char>>,
}

/// Takes in the outcome of a nested element token.
pub open spec fn add_child(st: ElemBuild, out: ElemOutcome) -> ElemBuild {
    let st2 = ElemBuild { errors: st.errors + out.errors, ..st };
    match out.result {
        Ok(Some(n)) => ElemBuild { el: ElementModel { children: st2.el.children.push(n), ..st2.el }, ..st2 },
        Ok(None) => st2,
        Err(m) => ElemBuild { errors: st2.errors.push(m), ..st2 },
    }
}

/// Takes in an attribute token.
pub open spec fn add_attr(st: ElemBuild, q: Pair) -> ElemBuild {
    match attr_scan(q.inner@) {
        Ok((k, v)) => if k == "id"@ {
            ElemBuild { el: ElementModel { id: v, ..st.el }, ..st }
        } else if k == "class"@ {
            match v {
                Some(c) => ElemBuild {
                    el: ElementModel { classes: set_insert_all(st.el.classes, words(c)), ..st.el },
                    ..st
                },
                None => st,
            }
        } else {
            ElemBuild { el: ElementModel { attributes: map_insert(st.el.attributes, k, v), ..st.el }, ..st }
        },
        Err(m) => ElemBuild { errors: st.errors.push(m), ..st },
    }
}

/// Reads the tokens inside an element, left to right.
pub open spec fn elem_scan(ps: Seq<Pair>) -> ElemBuild
    decreases ps,
{
    if ps.len() == 0 {
        elem_start()
    } else {
        let st = elem_scan(ps.subrange(0, ps.len() - 1));
        let q = ps[ps.len() - 1];
        if st.done || st.fail is Some {
            st
        } else {
            match q.rule {
                Rule::node_element | Rule::el_raw_text => add_child(st, build_elem(q)),
                Rule::node_text | Rule::el_raw_text_content => if trimmed(q.text@).len() == 0 {
                    st
                } else {
                    ElemBuild {
                        el: ElementModel { children: st.el.children.push(NodeModel::Text(q.text@)), ..st.el },
                        ..st
                    }
                },
                Rule::node_comment => ElemBuild {
                    el: ElementModel { children: st.el.children.push(NodeModel::Comment(q.inner_text@)), ..st.el },
                    ..st
                },
                Rule::el_name | Rule::el_void_name | Rule::el_raw_text_name => ElemBuild {
                    el: ElementModel { name: q.text@, ..st.el },
                    ..st
                },
                Rule::attr => add_attr(st, q),
                Rule::el_normal_end | Rule::el_raw_text_end => ElemBuild {
                    el: ElementModel { variant: ElementVariant::Normal, ..st.el },
                    done: true,
                    ..st
                },
                Rule::el_dangling | Rule::EOI => st,
                _ => ElemBuild { fail: Some("Failed to create element at rule: "@ + rule_name(q.rule)), ..st },
            }
        }
    }
}

/// What building the element token `p` gives.
pub open spec fn build_elem(p: Pair) -> ElemOutcome
    decreases p,
{
    let st = elem_scan(p.inner@);
    ElemOutcome {
        result: match st.fail {
            Some(m) => Err(m),
            None => if st.el.name.len() != 0 {
                Ok(Some(NodeModel::Element(st.el)))
            } else {
                Ok(None)
            },
        },
        errors: st.errors,
    }
}

/// The dom before any token is read.
pub open spec fn dom_start() -> DomModel {
    DomModel { tree_type: DomVariant::Empty, children: Seq::empty(), errors: Seq::empty() }
}

/// Takes in one top-level token.
pub open spec fn dom_step(st: DomModel, q: Pair) -> DomModel {
    match q.rule {
        Rule::doctype => if st.tree_type == DomVariant::Empty {
            DomModel { tree_type: DomVariant::Document, ..st }
        } else {
            st
        },
        Rule::node_element => {
            let out = build_elem(q);
            let st2 = DomModel { errors: st.errors + out.errors, ..st };
            match out.result {
                Ok(Some(n)) => DomModel {
                    tree_type: if st.tree_type == DomVariant::Empty {
                        DomVariant::DocumentFragment
                    } else {
                        st.tree_type
                    },
                    children: st.children.push(n),
                    ..st2
                },
                Ok(None) => st2,
                Err(m) => DomModel { errors: st2.errors.push(m), ..st2 },
            }
        },
        Rule::node_text => {
            let t = if st.tree_type == DomVariant::Empty {
                DomVariant::DocumentFragment
            } else {
                st.tree_type
            };
            if trimmed(q.text@).len() == 0 {
                DomModel { tree_type: t, ..st }
            } else {
                DomModel { tree_type: t, children: st.children.push(NodeModel::Text(q.text@)), ..st }
            }
        },
        Rule::node_comment => DomModel { children: st.children.push(NodeModel::Comment(q.inner_text@)), ..st },
        _ => st,
    }
}

/// Reads the top-level tokens, left to right.
pub open spec fn dom_scan(ps: Seq<Pair>) -> DomModel
    decreases ps.len(),
{
    if ps.len() == 0 {
        dom_start()
    } else {
        dom_step(dom_scan(ps.drop_last()), ps.last())
    }
}

/// Whether a name is `html`, in any case: its lowercase form is `html`. For an ASCII name
/// that form is the name lowered letter by letter.
pub open spec fn is_html(name: Seq<char>) -> bool {
    if is_ascii(name) {
        name.map_values(|c: char| ascii_lower(c)) == "html"@
    } else {
        lowercase(name) == "html"@
    }
}

/// Whether a node is an element named `html`, in any case.
pub open spec fn is_html_node(n: NodeModel) -> bool {
    match n {
        NodeModel::Element(e) => is_html(e.name),
        _ => false,
    }
}

/// How many of the nodes are `html` elements.
pub open spec fn html_count(s: Seq<NodeModel>) -> nat
    decreases s.len(),
{
    if s.len() == 0 {
        0
    } else {
        html_count(s.drop_last()) + if is_html_node(s.last()) {
            1nat
        } else {
            0nat
        }
    }
}

/// Reads the top level of a fragment: whether an `html` element and other elements were
/// seen, and the kind the tree turns out to be; or the message of a misplaced element.
pub open spec fn frag_scan(s: Seq<NodeModel>) -> Result<(bool, bool, DomVariant), Seq<char>>
    decreases s.len(),
{
    if s.len() == 0 {
        Ok((false, false, DomVariant::DocumentFragment))
    } else {
        match frag_scan(s.drop_last()) {
            Err(m) => Err(m),
            Ok((seen_html, seen_elements, t)) => match s.last() {
                NodeModel::Element(e) => if !is_html(e.name) {
                    if e.name == "head"@ || e.name == "body"@ {
                        Err("A document fragment should not include "@ + e.name)
                    } else {
                        Ok((seen_html, true, t))
                    }
                } else if seen_html || seen_elements {
                    Err("A document fragment should not include "@ + e.name)
                } else {
                    Ok((true, seen_elements, DomVariant::Document))
                },
                _ => Ok((seen_html, seen_elements, t)),
            },
        }
    }
}

/// The checks made once all tokens are read; they may change the kind of the tree.
pub open spec fn dom_check(st: DomModel) -> Result<DomModel, Seq<char>> {
    match st.tree_type {
        DomVariant::Empty => Ok(
            DomModel {
                tree_type: if st.children.len() > 0 {
                    DomVariant::DocumentFragment
                } else {
                    DomVariant::Empty
                },
                ..st
            },
        ),
        DomVariant::Document => if html_count(st.children) > 1 {
            Err("Document with multiple HTML tags"@)
        } else {
            Ok(st)
        },
        DomVariant::DocumentFragment => match frag_scan(st.children) {
            Err(m) => Err(m),
            Ok((_, _, t)) => Ok(DomModel { tree_type: t, ..st }),
        },
    }
}

/// The dom that the top-level tokens `ps` describe, or the message of why they describe none.
pub open spec fn dom_result(ps: Seq<Pair>) -> Result<DomModel, Seq<char>> {
    dom_check(dom_scan(ps))
}

/// The rules that can stand at the top level of the token tree.
pub open spec fn top_rule(r: Rule) -> bool {
    r == Rule::doctype || r == Rule::node_element || r == Rule::node_text || r == Rule::node_comment
        || r == Rule::EOI
}


pub open spec fn opt_str(o: Option<&str>) -> Option<Seq<char>> {
    match o {
        Some(s) => Some(s@),
        None => None,
    }
}

pub proof fn lemma_strings_model_push(v: Seq<String>, s: String)
    ensures
        strings_model(v.push(s)) == strings_model(v).push(s@),
{
    assert(strings_model(v.push(s)) =~= strings_model(v).push(s@));
}

pub proof fn lemma_key_index<'a>(entries: Seq<(Cow<'a, str>, Option<Attribute<'a>>)>, k: Seq<char>, i: int)
    requires
        0 <= i <= entries.len(),
    ensures
        find_from(entries, k, i) == key_index(attrs_model(entries), k, i),
    decreases entries.len() - i,
{
    if i < entries.len() {
        lemma_key_index(entries, k, i + 1);
    }
}

/// Once an element's scan has stopped, the tokens after that change nothing.
pub proof fn lemma_elem_scan_stops(ps: Seq<Pair>, k: int)
    requires
        0 <= k <= ps.len(),
        elem_scan(ps.subrange(0, k)).done || elem_scan(ps.subrange(0, k)).fail is Some,
    ensures
        elem_scan(ps) == elem_scan(ps.subrange(0, k)),
    decreases ps.len() - k,
{
    if k < ps.len() {
        let q = ps.subrange(0, k + 1);
        assert(q.subrange(0, q.len() - 1) =~= ps.subrange(0, k));
        lemma_elem_scan_stops(ps, k + 1);
    } else {
        assert(ps.subrange(0, k) =~= ps);
    }
}

/// `a` followed by `b`, as a new string.
fn joined(a: &str, b: &str) -> (s: String)
    ensures
        s@ == a@ + b@,
{
    let mut s = String::new();
    s.append(a);
    s.append(b);
    s
}

/// Whether `name` is `html` in any case (by its Unicode lowercase form).
fn is_html_name(name: &str) -> (b: bool)
    ensures
        b == is_html(name@),
{
    let lower = to_lowercase(name);
    str_eq(lower.as_str(), "html")
}

/// An element's scan with no errors recorded yet.
pub open spec fn fresh(el: ElementModel) -> ElemBuild {
    ElemBuild { el, errors: Seq::empty(), done: false, fail: None }
}

/// Adds each whitespace-separated word of `value` as a class, in order.
fn add_classes<'a>(classes: &mut crate::dom::vecset::VecSet<Attribute<'a>>, value: &'a str)
    ensures
        final(classes).elems() == set_insert_all(old(classes).elems(), words(value@)),
{
    let ws = split_whitespace(value);
    let ghost wm = words(value@);
    let n = ws.len();
    let mut j: usize = 0;
    while j < n
        invariant
            n == ws@.len(),
            n == wm.len(),
            j <= n,
            forall|k: int| 0 <= k < ws@.len() ==> #[trigger] ws@[k]@ == wm[k],
            classes.elems() == set_insert_all(old(classes).elems(), wm.take(j as int)),
        decreases n - j,
    {
        let w = ws[j];
        let ghost before = classes.elems();
        let ghost oldc = *classes;
        let a = Attribute(Cow::Borrowed(w));
        let added = classes.insert(a);
        proof {
            assert(wm.take(j + 1).drop_last() =~= wm.take(j as int));
            assert(wm.take(j + 1).last() == w@);
            classes.0.lemma_find(w@);
            if added {
                assert(classes.elems() =~= before.push(w@));
                assert(!before.contains(w@)) by {
                    if before.contains(w@) {
                        let k = choose|k: int| 0 <= k < before.len() && before[k] == w@;
                        assert(oldc.0.key_at(k) == w@);
                    }
                }
            } else {
                let k = choose|k: int| 0 <= k < before.len() && #[trigger] classes.0.key_at(k) == w@;
                assert(before[k] == w@);
            }
        }
        j = j + 1;
    }
    assert(wm.take(n as int) =~= wm);
}

/// Takes in an attribute token: `id` and `class` go to their own fields, any other key to
/// the attributes; a token that fits no attribute leaves its message in `errors`.
fn add_attribute<'a>(element: &mut Element<'a>, errors: &mut Vec<String>, pair: &Pair<'a>)
    requires
        quoted_ok(*pair),
    ensures
        final(element)@ == add_attr(fresh(old(element)@), *pair).el,
        strings_model(final(errors)@) == strings_model(old(errors)@) + add_attr(fresh(old(element)@), *pair).errors,
{
    proof {
        assert forall|j: int| 0 <= j < pair.inner@.len() implies quoted_ok(#[trigger] pair.inner@[j]) by {}
    }
    match Dom::build_attribute(pair.inner.as_slice()) {
        Ok((attr_key, attr_value)) => {
            if str_eq(attr_key, "id") {
                element.id = match attr_value {
                    Some(s) => Some(Attribute(Cow::Borrowed(s))),
                    None => None,
                };
            } else if str_eq(attr_key, "class") {
                if let Some(classes) = attr_value {
                    add_classes(&mut element.classes, classes);
                }
            } else {
                let ghost old_attrs = element.attributes;
                let v = match attr_value {
                    Some(s) => Some(Attribute(Cow::Borrowed(s))),
                    None => None,
                };
                let key: Cow<'a, str> = Cow::Borrowed(attr_key);
                let _ = element.attributes.insert(key, v);
                proof {
                    old_attrs.lemma_find(attr_key@);
                    lemma_key_index(old_attrs.0@, attr_key@, 0);
                    assert(attrs_model(element.attributes.0@) =~= map_insert(attrs_model(old_attrs.0@), attr_key@, opt_model(v)));
                }
            }
            assert(errors@ == old(errors)@);
            assert(strings_model(errors@) =~= strings_model(old(errors)@) + Seq::<Seq<char>>::empty());
        },
        Err(error) => {
            let m = error.message();
            proof {
                lemma_strings_model_push(errors@, m);
            }
            errors.push(m);
        },
    }
}

impl<'a> Default for Dom<'a> {
    fn default() -> (d: Self)
        ensures
            d.tree_type == DomVariant::Empty,
            d.children@.len() == 0,
            d.errors@.len() == 0,
    {
        Dom { tree_type: DomVariant::Empty, children: Vec::new(), errors: Vec::new() }
    }
}

impl<'a> Dom<'a> {
    /// Parses an html document or fragment: reads it into tokens by the grammar (see
    /// [`document_tokens`]), then builds the tree from them (see [`Dom::build_dom`]).
    pub fn parse(input: &'a str) -> (r: Result<Dom<'a>, Error>)
        ensures
            match document_tokens(input@) {
                None => r matches Err(Error::Parsing(m)) && m@ == unmatched_message(),
                Some(ts) => exists|ps: Seq<Pair<'a>>|
                    #![trigger dom_result(ps)]
                    tokens_in(ps, input@, 0, input@.len() as int) && toks(ps) == ts && match dom_result(ps) {
                        Ok(m) => r matches Ok(d) && d@ == m,
                        Err(msg) => r matches Err(Error::Parsing(s)) && s@ == msg,
                    },
            },
            (forall|k: int| 0 <= k < input@.len() ==> is_space(#[trigger] input@[k])) ==> (r matches Ok(d)
                && d.tree_type == DomVariant::Empty && d.children@.len() == 0 && d.errors@.len() == 0),
            r matches Ok(d) ==> forall|i: int| 0 <= i < d@.children.len() ==> node_ok(#[trigger] d@.children[i]),
    {
        proof {
            if forall|k: int| 0 <= k < input@.len() ==> is_space(#[trigger] input@[k]) {
                law_blank_document_reads_as_end(input@);
            }
        }
        let pairs = match tokenize(input) {
            Ok(pairs) => pairs,
            Err(error) => return Err(error),
        };
        proof {
            assert forall|i: int| 0 <= i < pairs@.len() implies quoted_ok(#[trigger] pairs@[i]) by {
                assert(token_ok(pairs@[i], input@));
                lemma_token_ok_quoted(pairs@[i], input@);
            }
            assert forall|i: int| 0 <= i < pairs@.len() implies top_rule(#[trigger] pairs@[i].rule) by {
                assert(top_level(pairs@[i].rule));
            }
            if forall|k: int| 0 <= k < input@.len() ==> is_space(#[trigger] input@[k]) {
                assert(toks(pairs@)[0].rule == Rule::EOI);
                assert(pairs@.last().rule == Rule::EOI);
                assert(dom_scan(pairs@.drop_last()) == dom_start());
                assert(dom_scan(pairs@) == dom_start());
            }
        }
        let r = Self::build_dom(pairs.as_slice());
        proof {
            law_built_nodes_are_well_formed(pairs@);
            if r is Ok {
                lemma_nodes_model(r->Ok_0.children@);
            }
        }
        r
    }

    pub fn to_html(&self) -> (s: String)
        ensures
            s@ == nodes_html(self.children@),
    {
        let mut result = String::new();
        self.write_html(&mut result);
        result
    }

    /// Appends the markup of the root children, in order.
    pub fn write_html(&self, writer: &mut String)
        ensures
            final(writer)@ == old(writer)@ + nodes_html(self.children@),
    {
        write_html_list(writer, self.children.as_slice());
    }

    /// Builds the tree from the top-level tokens of a document, then checks the kind of
    /// tree against what it holds.
    pub fn build_dom(pairs: &[Pair<'a>]) -> (r: Result<Dom<'a>, Error>)
        requires
            forall|i: int| 0 <= i < pairs@.len() ==> top_rule(#[trigger] pairs@[i].rule),
            forall|i: int| 0 <= i < pairs@.len() ==> quoted_ok(#[trigger] pairs@[i]),
        ensures
            match dom_result(pairs@) {
                Ok(m) => r matches Ok(d) && d@ == m,
                Err(msg) => r matches Err(Error::Parsing(s)) && s@ == msg,
            },
    {
        let mut dom = Dom::default();
        let ghost ps = pairs@;
        proof {
            assert(ps.subrange(0, 0) =~= Seq::<Pair>::empty());
            assert(dom@.children =~= Seq::<NodeModel>::empty());
            assert(dom@.errors =~= Seq::<Seq<char>>::empty());
        }
        let n = pairs.len();
        let mut i: usize = 0;
        while i < n
            invariant
                ps == pairs@,
                n == ps.len(),
                i <= n,
                forall|j: int| 0 <= j < ps.len() ==> top_rule(#[trigger] ps[j].rule),
                forall|j: int| 0 <= j < ps.len() ==> quoted_ok(#[trigger] ps[j]),
                dom@ == dom_scan(ps.subrange(0, i as int)),
            decreases n - i,
        {
            let pair = &pairs[i];
            proof {
                let t = ps.subrange(0, i + 1);
                assert(t.drop_last() =~= ps.subrange(0, i as int));
                assert(t.last() == *pair);
                assert(top_rule(ps[i as int].rule));
                assert(quoted_ok(ps[i as int]));
            }
            let ghost st = dom@;
            match pair.as_rule() {
                Rule::doctype => {
                    if dom.tree_type == DomVariant::Empty {
                        dom.tree_type = DomVariant::Document;
                    }
                },
                Rule::node_element => {
                    match Self::build_node_element(pair, &mut dom) {
                        Ok(el) => {
                            if let Some(node) = el {
                                if dom.tree_type == DomVariant::Empty {
                                    dom.tree_type = DomVariant::DocumentFragment;
                                }
                                proof {
                                    lemma_nodes_model_push(dom.children@, node);
                                }
                                dom.children.push(node);
                            }
                        },
                        Err(error) => {
                            let m = error.message();
                            proof {
                                lemma_strings_model_push(dom.errors@, m);
                            }
                            dom.errors.push(m);
                        },
                    }
                    proof {
                        assert(dom@.errors =~= dom_scan(ps.subrange(0, i + 1)).errors);
                        assert(dom@.children =~= dom_scan(ps.subrange(0, i + 1)).children);
                    }
                },
                Rule::node_text => {
                    if dom.tree_type == DomVariant::Empty {
                        dom.tree_type = DomVariant::DocumentFragment;
                    }
                    let text = pair.as_str();
                    if !is_blank(text) {
                        let t = Node::Text(Text(Cow::Borrowed(text)));
                        proof {
                            lemma_nodes_model_push(dom.children@, t);
                        }
                        dom.children.push(t);
                    }
                },
                Rule::node_comment => {
                    let c = Node::Comment(Text(Cow::Borrowed(pair.inner_text)));
                    proof {
                        lemma_nodes_model_push(dom.children@, c);
                    }
                    dom.children.push(c);
                },
                Rule::EOI => {},
                _ => {
                    proof {
                        assert(false);
                    }
                },
            }
            i = i + 1;
        }
        proof {
            assert(ps.subrange(0, n as int) =~= ps);
            lemma_dom_scan_empty(ps);
            lemma_nodes_model(dom.children@);
        }
        let ghost scanned = dom@;
        match dom.tree_type {
            DomVariant::Empty => {
                let m = dom.children.len();
                let mut k: usize = 0;
                while k < m
                    invariant
                        m == dom.children@.len(),
                        k <= m,
                        scanned.tree_type == DomVariant::Empty,
                        nodes_model(dom.children@) == scanned.children,
                        scanned.children.len() == m,
                        strings_model(dom.errors@) == scanned.errors,
                        forall|j: int| 0 <= j < scanned.children.len() ==> #[trigger] scanned.children[j] is Comment,
                        forall|j: int| 0 <= j < m ==> #[trigger] nodes_model(dom.children@)[j] == node_model(dom.children@[j]),
                        dom.tree_type == if k > 0 { DomVariant::DocumentFragment } else { DomVariant::Empty },
                    decreases m - k,
                {
                    if let Node::Comment(_) = &dom.children[k] {
                        dom.tree_type = DomVariant::DocumentFragment;
                    } else {
                        proof {
                            assert(scanned.children[k as int] is Comment);
                            assert(false);
                        }
                    }
                    k = k + 1;
                }
            },
            DomVariant::Document => {
                let m = dom.children.len();
                let mut count: usize = 0;
                let mut k: usize = 0;
                while k < m
                    invariant
                        m == dom.children@.len(),
                        k <= m,
                        count <= k,
                        nodes_model(dom.children@) == scanned.children,
                        scanned.children.len() == m,
                        forall|j: int| 0 <= j < m ==> #[trigger] nodes_model(dom.children@)[j] == node_model(dom.children@[j]),
                        count == html_count(scanned.children.take(k as int)),
                    decreases m - k,
                {
                    proof {
                        let t = scanned.children.take(k + 1);
                        assert(t.drop_last() =~= scanned.children.take(k as int));
                        assert(t.last() == node_model(dom.children@[k as int]));
                    }
                    if let Node::Element(el) = &dom.children[k] {
                        if is_html_name(cow_str(&el.name)) {
                            count = count + 1;
                        }
                    }
                    k = k + 1;
                }
                proof {
                    assert(scanned.children.take(m as int) =~= scanned.children);
                }
                if count > 1 {
                    return Err(Error::Parsing(String::from_str("Document with multiple HTML tags")));
                }
            },
            DomVariant::DocumentFragment => {
                let mut seen_html = false;
                let mut seen_elements = false;
                let m = dom.children.len();
                let mut k: usize = 0;
                proof {
                    assert(scanned.children.take(0) =~= Seq::<NodeModel>::empty());
                }
                while k < m
                    invariant
                        m == dom.children@.len(),
                        k <= m,
                        nodes_model(dom.children@) == scanned.children,
                        scanned.children.len() == m,
                        strings_model(dom.errors@) == scanned.errors,
                        forall|j: int| 0 <= j < m ==> #[trigger] nodes_model(dom.children@)[j] == node_model(dom.children@[j]),
                        scanned == dom_scan(pairs@),
                        scanned.tree_type == DomVariant::DocumentFragment,
                        frag_scan(scanned.children.take(k as int)) == Ok::<(bool, bool, DomVariant), Seq<char>>((seen_html, seen_elements, dom.tree_type)),
                    decreases m - k,
                {
                    proof {
                        let t = scanned.children.take(k + 1);
                        assert(t.drop_last() =~= scanned.children.take(k as int));
                        assert(t.last() == node_model(dom.children@[k as int]));
                    }
                    if let Node::Element(el) = &dom.children[k] {
                        let name = cow_str(&el.name);
                        if !is_html_name(name) {
                            if str_eq(name, "head") || str_eq(name, "body") {
                                proof {
                                    lemma_frag_scan_err(scanned.children, k as int + 1);
                                }
                                return Err(Error::Parsing(joined("A document fragment should not include ", name)));
                            }
                            seen_elements = true;
                        } else {
                            if seen_html || seen_elements {
                                proof {
                                    lemma_frag_scan_err(scanned.children, k as int + 1);
                                }
                                return Err(Error::Parsing(joined("A document fragment should not include ", name)));
                            }
                            dom.tree_type = DomVariant::Document;
                            seen_html = true;
                        }
                    }
                    k = k + 1;
                }
                proof {
                    assert(scanned.children.take(m as int) =~= scanned.children);
                }
            },
        }
        Ok(dom)
    }

    /// Builds the element that a `node_element` (or raw text element) token describes.
    /// Errors met in nested tokens are left in `dom.errors` and the nested token is dropped;
    /// a token that fits no element fails the whole element. An element without a name
    /// yields no node.
    fn build_node_element(pair: &Pair<'a>, dom: &mut Dom<'a>) -> (r: Result<Option<Node<'a>>, Error>)
        requires
            quoted_ok(*pair),
        ensures
            final(dom).tree_type == old(dom).tree_type,
            final(dom).children@ == old(dom).children@,
            strings_model(final(dom).errors@) == strings_model(old(dom).errors@) + build_elem(*pair).errors,
            match build_elem(*pair).result {
                Ok(Some(n)) => r matches Ok(Some(x)) && x@ == n,
                Ok(None) => r matches Ok(None),
                Err(m) => r matches Err(Error::Parsing(s)) && s@ == m,
            },
        decreases *pair,
    {
        let mut element: Element<'a> = Element::default();
        proof {
            reveal_strlit("");
            assert(element@.attributes =~= Seq::<(Seq<char>, Option<Seq<char>>)>::empty());
            assert(element@.classes =~= Seq::<Seq<char>>::empty());
            assert(element@ == elem_start().el);
        }
        let ghost base = strings_model(dom.errors@);
        let ghost ps = pair.inner@;
        let n = pair.inner.len();
        let mut i: usize = 0;
        let mut ended = false;
        assert(ps.subrange(0, 0) =~= Seq::<Pair>::empty());
        while i < n && !ended
            invariant
                ps == pair.inner@,
                base == strings_model(old(dom).errors@),
                n == ps.len(),
                i <= n,
                quoted_ok(*pair),
                dom.tree_type == old(dom).tree_type,
                dom.children@ == old(dom).children@,
                element@ == elem_scan(ps.subrange(0, i as int)).el,
                strings_model(dom.errors@) == base + elem_scan(ps.subrange(0, i as int)).errors,
                elem_scan(ps.subrange(0, i as int)).done == ended,
                elem_scan(ps.subrange(0, i as int)).fail is None,
            decreases n - i,
        {
            let p = &pair.inner[i];
            let ghost st = elem_scan(ps.subrange(0, i as int));
            proof {
                let t = ps.subrange(0, i + 1);
                assert(t.subrange(0, t.len() - 1) =~= ps.subrange(0, i as int));
                assert(t[t.len() - 1] == *p);
                assert(quoted_ok(ps[i as int]));
                assert(decreases_to!(*pair => pair.inner@[i as int]));
            }
            let ghost e0 = element;
            let ghost d0 = dom.errors@;
            match p.as_rule() {
                Rule::node_element | Rule::el_raw_text => {
                    match Self::build_node_element(p, dom) {
                        Ok(el) => {
                            if let Some(child_element) = el {
                                proof {
                                    lemma_nodes_model_push(element.children@, child_element);
                                }
                                element.children.push(child_element);
                            }
                        },
                        Err(error) => {
                            let m = error.message();
                            proof {
                                lemma_strings_model_push(dom.errors@, m);
                            }
                            dom.errors.push(m);
                        },
                    }
                    proof {
                        assert(strings_model(dom.errors@) =~= base + elem_scan(ps.subrange(0, i + 1)).errors);
                    }
                },
                Rule::node_text | Rule::el_raw_text_content => {
                    let text = p.as_str();
                    if !is_blank(text) {
                        let t = Node::Text(Text(Cow::Borrowed(text)));
                        proof {
                            lemma_nodes_model_push(element.children@, t);
                        }
                        element.children.push(t);
                    }
                },
                Rule::node_comment => {
                    let c = Node::Comment(Text(Cow::Borrowed(p.inner_text)));
                    proof {
                        lemma_nodes_model_push(element.children@, c);
                    }
                    element.children.push(c);
                },
                Rule::el_name | Rule::el_void_name | Rule::el_raw_text_name => {
                    element.name = Cow::Borrowed(p.as_str());
                },
                Rule::attr => {
                    add_attribute(&mut element, &mut dom.errors, p);
                    proof {
                        assert(strings_model(dom.errors@) =~= base + elem_scan(ps.subrange(0, i + 1)).errors);
                    }
                },
                Rule::el_normal_end | Rule::el_raw_text_end => {
                    element.variant = ElementVariant::Normal;
                    ended = true;
                },
                Rule::el_dangling | Rule::EOI => {},
                _ => {
                    proof {
                        assert(elem_scan(ps.subrange(0, i + 1)).errors == st.errors);
                        lemma_elem_scan_stops(ps, i + 1);
                        assert(build_elem(*pair).errors == st.errors);
                    }
                    return Err(
                        Error::Parsing(joined("Failed to create element at rule: ", p.as_rule().name())),
                    );
                },
            }
            i = i + 1;
        }
        proof {
            if ended {
                lemma_elem_scan_stops(ps, i as int);
            } else {
                assert(ps.subrange(0, n as int) =~= ps);
            }
        }
        if !cow_str(&element.name).is_empty() {
            Ok(Some(Node::Element(element)))
        } else {
            Ok(None)
        }
    }

    /// Reads the inner tokens of an attribute: its key, and its value if it has one.
    fn build_attribute(pairs: &[Pair<'a>]) -> (r: Result<(&'a str, Option<&'a str>), Error>)
        requires
            forall|i: int| 0 <= i < pairs@.len() ==> quoted_ok(#[trigger] pairs@[i]),
        ensures
            match attr_scan(pairs@) {
                Ok((k, v)) => r matches Ok((rk, rv)) && rk@ == k && opt_str(rv) == v,
                Err(m) => r matches Err(Error::Parsing(s)) && s@ == m,
            },
    {
        proof {
            reveal_strlit("");
        }
        let mut attribute: (&'a str, Option<&'a str>) = ("", None);
        assert(attribute.0@ =~= Seq::<char>::empty());
        let n = pairs.len();
        let mut i: usize = 0;
        while i < n
            invariant
                n == pairs@.len(),
                i <= n,
                forall|j: int| 0 <= j < pairs@.len() ==> quoted_ok(#[trigger] pairs@[j]),
                attr_scan(pairs@.subrange(0, i as int)) == Ok::<(Seq<char>, Option<Seq<char>>), Seq<char>>((attribute.0@, opt_str(attribute.1))),
            decreases n - i,
        {
            let pair = &pairs[i];
            proof {
                let s = pairs@.subrange(0, i + 1);
                assert(s.drop_last() =~= pairs@.subrange(0, i as int));
                assert(quoted_ok(pairs@[i as int]));
            }
            match pair.as_rule() {
                Rule::attr_key => {
                    attribute.0 = trim(pair.as_str());
                },
                Rule::attr_non_quoted => {
                    attribute.1 = Some(trim(pair.as_str()));
                },
                Rule::attr_quoted => {
                    let inner_pair = &pair.inner[0];
                    match inner_pair.as_rule() {
                        Rule::attr_value => attribute.1 = Some(inner_pair.as_str()),
                        _ => {
                            proof {
                                assert(attr_scan(pairs@.subrange(0, i + 1)) is Err);
                                lemma_attr_scan_err(pairs@, i as int + 1);
                            }
                            return Err(
                                Error::Parsing(joined("Failed to parse attr value: ", inner_pair.as_rule().name())),
                            );
                        },
                    }
                },
                _ => {
                    proof {
                        lemma_attr_scan_err(pairs@, i as int + 1);
                    }
                    return Err(Error::Parsing(joined("Failed to parse attr: ", pair.as_rule().name())));
                },
            }
            i = i + 1;
        }
        assert(pairs@.subrange(0, n as int) =~= pairs@);
        Ok(attribute)
    }
}

/// A tree still of kind `Empty` after the scan holds nothing but comments.
pub proof fn lemma_dom_scan_empty(ps: Seq<Pair>)
    ensures
        dom_scan(ps).tree_type == DomVariant::Empty ==> forall|j: int|
            0 <= j < dom_scan(ps).children.len() ==> #[trigger] dom_scan(ps).children[j] is Comment,
    decreases ps.len(),
{
    if ps.len() > 0 {
        lemma_dom_scan_empty(ps.drop_last());
    }
}

/// Once a fragment's scan has failed, it stays failed with the same message.
pub proof fn lemma_frag_scan_err(s: Seq<NodeModel>, k: int)
    requires
        0 <= k <= s.len(),
        frag_scan(s.take(k)) is Err,
    ensures
        frag_scan(s) == frag_scan(s.take(k)),
    decreases s.len() - k,
{
    if k < s.len() {
        let q = s.take(k + 1);
        assert(q.drop_last() =~= s.take(k));
        lemma_frag_scan_err(s, k + 1);
    } else {
        assert(s.take(k) =~= s);
    }
}

/// What a successful fragment scan tells about the nodes it read.
pub proof fn lemma_frag_scan_ok(s: Seq<NodeModel>)
    ensures
        frag_scan(s) matches Ok((h, e, t)) ==> {
            &&& (t == DomVariant::Document) == h
            &&& (t == DomVariant::Document || t == DomVariant::DocumentFragment)
            &&& html_count(s) == if h { 1nat } else { 0nat }
            &&& forall|j: int| 0 <= j < s.len() ==> (#[trigger] s[j] matches NodeModel::Element(el) ==> (!is_html(el.name) ==> el.name != "head"@ && el.name != "body"@))
        },
    decreases s.len(),
{
    if s.len() > 0 {
        let p = s.drop_last();
        lemma_frag_scan_ok(p);
        if let Ok((h, e, t)) = frag_scan(s) {
            assert forall|j: int| 0 <= j < s.len() implies (#[trigger] s[j] matches NodeModel::Element(el) ==> (!is_html(el.name) ==> el.name != "head"@ && el.name != "body"@)) by {
                if j < s.len() - 1 {
                    assert(s[j] == p[j]);
                }
            }
        }
    }
}

/// A tree of kind `Empty` has no children: an input holding only comments makes a fragment.
pub proof fn law_empty_has_no_children(ps: Seq<Pair>)
    ensures
        dom_result(ps) matches Ok(m) ==> (m.tree_type == DomVariant::Empty ==> m.children.len() == 0),
{
    lemma_frag_scan_ok(dom_scan(ps).children);
}

/// A document has at most one top-level `html` element.
pub proof fn law_document_has_at_most_one_html(ps: Seq<Pair>)
    ensures
        dom_result(ps) matches Ok(m) ==> (m.tree_type == DomVariant::Document ==> html_count(m.children) <= 1),
{
    lemma_frag_scan_ok(dom_scan(ps).children);
}

/// A fragment has no top-level `html`, `head` or `body` element.
pub proof fn law_fragment_has_no_html_head_body(ps: Seq<Pair>)
    ensures
        dom_result(ps) matches Ok(m) ==> (m.tree_type == DomVariant::DocumentFragment ==> forall|j: int|
            0 <= j < m.children.len() ==> (#[trigger] m.children[j] matches NodeModel::Element(el) ==> !is_html(el.name)
                && el.name != "head"@ && el.name != "body"@)),
{
    let st = dom_scan(ps);
    lemma_frag_scan_ok(st.children);
    lemma_dom_scan_empty(ps);
    lemma_html_count_zero(st.children);
}

/// Attribute names are distinct, and none is `id` or `class`.
pub open spec fn attrs_ok(s: Seq<(Seq<char>, Option<Seq<char>>)>) -> bool {
    &&& forall|i: int| 0 <= i < s.len() ==> (#[trigger] s[i]).0 != "id"@ && s[i].0 != "class"@
    &&& forall|i: int, j: int| 0 <= i < j < s.len() ==> (#[trigger] s[i]).0 != (#[trigger] s[j]).0
}

/// Class names are distinct words: non-empty, without whitespace.
pub open spec fn classes_ok(s: Seq<Seq<char>>) -> bool {
    &&& forall|i: int| 0 <= i < s.len() ==> is_word(#[trigger] s[i])
    &&& forall|i: int, j: int| 0 <= i < j < s.len() ==> #[trigger] s[i] != #[trigger] s[j]
}

/// What every node built from tokens is like, at any depth: a text is not blank; an element
/// has a name, its attributes and classes are as `attrs_ok` and `classes_ok` say, and its
/// children are alike.
pub open spec fn node_ok(n: NodeModel) -> bool
    decreases n,
{
    match n {
        NodeModel::Text(t) => trimmed(t).len() > 0,
        NodeModel::Comment(_) => true,
        NodeModel::Element(e) => {
            &&& e.name.len() > 0
            &&& attrs_ok(e.attributes)
            &&& classes_ok(e.classes)
            &&& forall|i: int| 0 <= i < e.children.len() ==> node_ok(#[trigger] e.children[i])
        },
    }
}

pub proof fn lemma_key_index_found(s: Seq<(Seq<char>, Option<Seq<char>>)>, k: Seq<char>, i: int)
    requires
        0 <= i <= s.len(),
    ensures
        match key_index(s, k, i) {
            Some(j) => i <= j < s.len() && s[j].0 == k,
            None => forall|j: int| i <= j < s.len() ==> (#[trigger] s[j]).0 != k,
        },
    decreases s.len() - i,
{
    if i < s.len() && s[i].0 != k {
        lemma_key_index_found(s, k, i + 1);
    }
}

/// Adding an attribute other than `id` or `class` keeps the attributes as `attrs_ok` says.
pub proof fn lemma_map_insert_ok(s: Seq<(Seq<char>, Option<Seq<char>>)>, k: Seq<char>, v: Option<Seq<char>>)
    requires
        attrs_ok(s),
        k != "id"@,
        k != "class"@,
    ensures
        attrs_ok(map_insert(s, k, v)),
{
    lemma_key_index_found(s, k, 0);
    let r = map_insert(s, k, v);
    match key_index(s, k, 0) {
        Some(j) => {
            assert forall|i: int| 0 <= i < r.len() implies (#[trigger] r[i]).0 == s[i].0 by {
            }
            assert forall|i: int, l: int| 0 <= i < l < r.len() implies (#[trigger] r[i]).0 != (#[trigger] r[l]).0 by {
                assert(r[i].0 == s[i].0 && r[l].0 == s[l].0);
            }
        },
        None => {
            assert forall|i: int, l: int| 0 <= i < l < r.len() implies (#[trigger] r[i]).0 != (#[trigger] r[l]).0 by {
                if l == s.len() {
                    assert(s[i].0 != k);
                } else {
                    assert(r[i] == s[i] && r[l] == s[l]);
                }
            }
        },
    }
}

/// Adding words to distinct words keeps them distinct words.
pub proof fn lemma_set_insert_all_ok(s: Seq<Seq<char>>, ws: Seq<Seq<char>>)
    requires
        classes_ok(s),
        forall|k: int| 0 <= k < ws.len() ==> is_word(#[trigger] ws[k]),
    ensures
        classes_ok(set_insert_all(s, ws)),
    decreases ws.len(),
{
    if ws.len() > 0 {
        let p = ws.drop_last();
        assert forall|k: int| 0 <= k < p.len() implies is_word(#[trigger] p[k]) by {
            assert(p[k] == ws[k]);
        }
        lemma_set_insert_all_ok(s, p);
        let r = set_insert_all(s, p);
        let w = ws.last();
        assert(is_word(w));
        if !r.contains(w) {
            let t = r.push(w);
            assert forall|i: int, l: int| 0 <= i < l < t.len() implies #[trigger] t[i] != #[trigger] t[l] by {
                if l == r.len() {
                    assert(t[i] == r[i]);
                    if r[i] == w {
                        assert(r.contains(w));
                    }
                } else {
                    assert(t[i] == r[i] && t[l] == r[l]);
                }
            }
            assert forall|i: int| 0 <= i < t.len() implies is_word(#[trigger] t[i]) by {
                if i < r.len() {
                    assert(t[i] == r[i]);
                }
            }
        }
    }
}

/// What an element under construction keeps: its attributes, classes and children are as
/// [`node_ok`] asks.
pub open spec fn build_ok(st: ElemBuild) -> bool {
    &&& attrs_ok(st.el.attributes)
    &&& classes_ok(st.el.classes)
    &&& forall|i: int| 0 <= i < st.el.children.len() ==> node_ok(#[trigger] st.el.children[i])
}

pub proof fn lemma_children_push(c: Seq<NodeModel>, n: NodeModel)
    requires
        forall|i: int| 0 <= i < c.len() ==> node_ok(#[trigger] c[i]),
        node_ok(n),
    ensures
        forall|i: int| 0 <= i < c.push(n).len() ==> node_ok(#[trigger] c.push(n)[i]),
{
    assert forall|i: int| 0 <= i < c.push(n).len() implies node_ok(#[trigger] c.push(n)[i]) by {
        if i < c.len() {
            assert(c.push(n)[i] == c[i]);
        }
    }
}

/// Reading the tokens inside an element keeps it as [`build_ok`] says.
pub proof fn lemma_elem_scan_ok(ps: Seq<Pair>)
    ensures
        build_ok(elem_scan(ps)),
    decreases ps,
{
    if ps.len() > 0 {
        let init = ps.subrange(0, ps.len() - 1);
        lemma_elem_scan_ok(init);
        let st = elem_scan(init);
        let q = ps[ps.len() - 1];
        if !(st.done || st.fail is Some) {
            match q.rule {
                Rule::node_element | Rule::el_raw_text => {
                    lemma_build_elem_ok(q);
                    if let Ok(Some(n)) = build_elem(q).result {
                        lemma_children_push(st.el.children, n);
                    }
                },
                Rule::node_text | Rule::el_raw_text_content => {
                    if trimmed(q.text@).len() != 0 {
                        lemma_children_push(st.el.children, NodeModel::Text(q.text@));
                    }
                },
                Rule::node_comment => {
                    lemma_children_push(st.el.children, NodeModel::Comment(q.inner_text@));
                },
                Rule::attr => {
                    if let Ok((k, v)) = attr_scan(q.inner@) {
                        if k == "id"@ {
                        } else if k == "class"@ {
                            if let Some(c) = v {
                                lemma_words(c);
                                lemma_set_insert_all_ok(st.el.classes, words(c));
                            }
                        } else {
                            lemma_map_insert_ok(st.el.attributes, k, v);
                        }
                    }
                },
                _ => {},
            }
        }
    }
}

/// An element built from a token is as [`node_ok`] says.
pub proof fn lemma_build_elem_ok(p: Pair)
    ensures
        build_elem(p).result matches Ok(Some(n)) ==> node_ok(n),
    decreases p,
{
    lemma_elem_scan_ok(p.inner@);
}

/// Reading the top-level tokens keeps every child as [`node_ok`] says.
pub proof fn lemma_dom_scan_ok(ps: Seq<Pair>)
    ensures
        forall|i: int| 0 <= i < dom_scan(ps).children.len() ==> node_ok(#[trigger] dom_scan(ps).children[i]),
    decreases ps.len(),
{
    if ps.len() > 0 {
        lemma_dom_scan_ok(ps.drop_last());
        let st = dom_scan(ps.drop_last());
        let q = ps.last();
        match q.rule {
            Rule::node_element => {
                lemma_build_elem_ok(q);
                if let Ok(Some(n)) = build_elem(q).result {
                    lemma_children_push(st.children, n);
                }
            },
            Rule::node_text => {
                if trimmed(q.text@).len() != 0 {
                    lemma_children_push(st.children, NodeModel::Text(q.text@));
                }
            },
            Rule::node_comment => {
                lemma_children_push(st.children, NodeModel::Comment(q.inner_text@));
            },
            _ => {},
        }
    }
}

/// Every node of a tree built from tokens, at any depth, is well formed: no text is blank;
/// every element has a name; its attributes have distinct names, none of them `id` or
/// `class`; and its classes are distinct, non-empty and without whitespace.
pub proof fn law_built_nodes_are_well_formed(ps: Seq<Pair>)
    ensures
        dom_result(ps) matches Ok(m) ==> forall|i: int| 0 <= i < m.children.len() ==> node_ok(#[trigger] m.children[i]),
{
    lemma_dom_scan_ok(ps);
}

/// The first pass finds a fragment whose top level is text and comments, then one `html`
/// element, then elements that are neither `html`, `head` nor `body` (with text and comments
/// anywhere among them): the check makes it a document with those children.
pub proof fn law_html_after_text_and_comments_is_a_document(st: DomModel, h: int)
    requires
        st.tree_type == DomVariant::DocumentFragment,
        0 <= h < st.children.len(),
        is_html_node(st.children[h]),
        forall|j: int| 0 <= j < h ==> !(#[trigger] st.children[j] is Element),
        forall|j: int|
            h < j < st.children.len() ==> (#[trigger] st.children[j] matches NodeModel::Element(el) ==> !is_html(el.name)
                && el.name != "head"@ && el.name != "body"@),
    ensures
        dom_check(st) == Ok::<DomModel, Seq<char>>(DomModel { tree_type: DomVariant::Document, ..st }),
{
    let c = st.children;
    assert forall|k: int| 0 <= k <= c.len() implies (#[trigger] frag_scan(c.take(k))) == if k <= h {
        Ok::<(bool, bool, DomVariant), Seq<char>>((false, false, DomVariant::DocumentFragment))
    } else {
        Ok::<(bool, bool, DomVariant), Seq<char>>((true, exists|j: int| h < j < k && #[trigger] c[j] is Element, DomVariant::Document))
    } by {
        lemma_frag_scan_prefix(c, h, k);
    }
    assert(c.take(c.len() as int) =~= c);
}

proof fn lemma_frag_scan_prefix(c: Seq<NodeModel>, h: int, k: int)
    requires
        0 <= h < c.len(),
        0 <= k <= c.len(),
        is_html_node(c[h]),
        forall|j: int| 0 <= j < h ==> !(#[trigger] c[j] is Element),
        forall|j: int|
            h < j < c.len() ==> (#[trigger] c[j] matches NodeModel::Element(el) ==> !is_html(el.name) && el.name
                != "head"@ && el.name != "body"@),
    ensures
        frag_scan(c.take(k)) == if k <= h {
            Ok::<(bool, bool, DomVariant), Seq<char>>((false, false, DomVariant::DocumentFragment))
        } else {
            Ok::<(bool, bool, DomVariant), Seq<char>>((true, exists|j: int| h < j < k && #[trigger] c[j] is Element, DomVariant::Document))
        },
    decreases k,
{
    if k > 0 {
        lemma_frag_scan_prefix(c, h, k - 1);
        let t = c.take(k);
        assert(t.drop_last() =~= c.take(k - 1));
        assert(t.last() == c[k - 1]);
        if k - 1 > h {
            if c[k - 1] is Element {
                assert(h < k - 1 < k && c[k - 1] is Element);
            }
            assert((exists|j: int| h < j < k && #[trigger] c[j] is Element) == ((exists|j: int| h < j < k - 1
                && #[trigger] c[j] is Element) || c[k - 1] is Element));
        }
        if k - 1 == h {
            assert(!(exists|j: int| h < j < k && #[trigger] c[j] is Element));
        }
    } else {
        assert(c.take(0) =~= Seq::<NodeModel>::empty());
    }
}

/// An attribute token's value token as the grammar makes it: a quoted value whose one
/// inner token spans everything strictly between the quotes.
pub open spec fn quoted_shaped(q: Pair) -> bool {
    &&& q.rule == Rule::attr_quoted
    &&& q.inner@.len() == 1
    &&& q.inner@[0].rule == Rule::attr_value
    &&& q.inner@[0].start == q.start + 1
    &&& q.inner@[0].end + 1 == q.end
}

/// The value of a quoted attribute is every character strictly between its quotes, as it
/// stands in the input (spaces kept); its key is the key token's text without the
/// whitespace around it.
pub proof fn law_quoted_value_is_verbatim(key: Pair, q: Pair, s: Seq<char>)
    requires
        token_ok(key, s),
        token_ok(q, s),
        key.rule == Rule::attr_key,
        quoted_shaped(q),
    ensures
        attr_scan(seq![key, q]) == Ok::<(Seq<char>, Option<Seq<char>>), Seq<char>>(
            (trimmed(s.subrange(key.start as int, key.end as int)), Some(s.subrange(q.start + 1, q.end - 1))),
        ),
{
    let ps = seq![key, q];
    assert(ps.drop_last() =~= seq![key]);
    assert(seq![key].drop_last() =~= Seq::<Pair>::empty());
    assert(attr_scan(Seq::<Pair>::empty()) == Ok::<(Seq<char>, Option<Seq<char>>), Seq<char>>((Seq::empty(), None)));
    assert(attr_scan(seq![key]) == Ok::<(Seq<char>, Option<Seq<char>>), Seq<char>>((trimmed(key.text@), None)));
    assert(token_ok(q.inner@[0], s));
    assert(q.inner@[0].text@ == s.subrange(q.start + 1, q.end - 1));
    assert(ps.last() == q);
}

/// A comment token as the grammar makes it: one inner token, the body, which starts right
/// after the `<!--` and ends right before the `-->`.
pub open spec fn comment_shaped(q: Pair) -> bool {
    &&& q.inner@.len() == 1
    &&& q.inner@[0].start == q.start + 4
    &&& q.inner@[0].end + 3 == q.end
}

/// The text of a comment token without its first four and last three characters (its
/// `<!--` and `-->`).
pub open spec fn comment_text(q: Pair) -> Seq<char> {
    q.text@.subrange(4, q.text@.len() - 3)
}

/// Each comment among `children` is the text of one of the comment tokens of `ps` without
/// its delimiters.
pub open spec fn comments_from_tokens(children: Seq<NodeModel>, ps: Seq<Pair>) -> bool {
    forall|j: int|
        0 <= j < children.len() ==> (#[trigger] children[j] matches NodeModel::Comment(c) ==> exists|i: int|
            0 <= i < ps.len() && ps[i].rule == Rule::node_comment && c == #[trigger] comment_text(ps[i]))
}

/// The tokens `ps` lie in `s` and their comments are shaped as the grammar makes them.
pub open spec fn tokens_shaped(ps: Seq<Pair>, s: Seq<char>) -> bool {
    &&& forall|i: int| 0 <= i < ps.len() ==> token_ok(#[trigger] ps[i], s)
    &&& forall|i: int| 0 <= i < ps.len() && (#[trigger] ps[i]).rule == Rule::node_comment ==> comment_shaped(ps[i])
}

proof fn lemma_comment_node(q: Pair, s: Seq<char>)
    requires
        token_ok(q, s),
        comment_shaped(q),
    ensures
        q.inner_text@ == comment_text(q),
{
    assert(token_ok(q.inner@[0], s));
    assert(q.inner_text@ =~= comment_text(q));
}

proof fn lemma_comments_push(children: Seq<NodeModel>, ps: Seq<Pair>, n: NodeModel, q: Pair)
    requires
        comments_from_tokens(children, ps.drop_last()),
        ps.len() > 0,
        ps.last() == q,
        n matches NodeModel::Comment(c) ==> q.rule == Rule::node_comment && c == comment_text(q),
    ensures
        comments_from_tokens(children.push(n), ps),
{
    let d = ps.drop_last();
    assert forall|j: int| 0 <= j < children.push(n).len() implies (#[trigger] children.push(n)[j] matches NodeModel::Comment(c)
        ==> exists|i: int| 0 <= i < ps.len() && ps[i].rule == Rule::node_comment && c == #[trigger] comment_text(ps[i])) by {
        if j < children.len() {
            assert(children.push(n)[j] == children[j]);
            if let NodeModel::Comment(c) = children[j] {
                let i = choose|i: int| 0 <= i < d.len() && d[i].rule == Rule::node_comment && c == #[trigger] comment_text(d[i]);
                assert(ps[i] == d[i]);
            }
        } else {
            if let NodeModel::Comment(c) = n {
                assert(ps[ps.len() - 1] == q);
                assert(c == comment_text(ps[ps.len() - 1]));
            }
        }
    }
}

proof fn lemma_comments_widen(children: Seq<NodeModel>, ps: Seq<Pair>)
    requires
        ps.len() > 0,
        comments_from_tokens(children, ps.drop_last()),
    ensures
        comments_from_tokens(children, ps),
{
    let d = ps.drop_last();
    assert forall|j: int| 0 <= j < children.len() implies (#[trigger] children[j] matches NodeModel::Comment(c)
        ==> exists|i: int| 0 <= i < ps.len() && ps[i].rule == Rule::node_comment && c == #[trigger] comment_text(ps[i])) by {
        if let NodeModel::Comment(c) = children[j] {
            let i = choose|i: int| 0 <= i < d.len() && d[i].rule == Rule::node_comment && c == #[trigger] comment_text(d[i]);
            assert(ps[i] == d[i]);
        }
    }
}

/// Reading the tokens inside an element: each comment child is the text of a comment
/// token without its delimiters.
proof fn lemma_elem_scan_comments(ps: Seq<Pair>, s: Seq<char>)
    requires
        tokens_shaped(ps, s),
    ensures
        comments_from_tokens(elem_scan(ps).el.children, ps),
    decreases ps.len(),
{
    if ps.len() > 0 {
        let init = ps.subrange(0, ps.len() - 1);
        assert(init =~= ps.drop_last());
        assert forall|i: int| 0 <= i < init.len() implies token_ok(#[trigger] init[i], s) by {
            assert(init[i] == ps[i]);
        }
        assert forall|i: int| 0 <= i < init.len() && (#[trigger] init[i]).rule == Rule::node_comment implies comment_shaped(init[i]) by {
            assert(init[i] == ps[i]);
        }
        lemma_elem_scan_comments(init, s);
        let st = elem_scan(init);
        let q = ps[ps.len() - 1];
        assert(token_ok(q, s));
        let c0 = st.el.children;
        if st.el.children != elem_scan(ps).el.children {
            if q.rule == Rule::node_comment {
                lemma_comment_node(q, s);
                lemma_comments_push(c0, ps, NodeModel::Comment(q.inner_text@), q);
            } else if q.rule == Rule::node_element || q.rule == Rule::el_raw_text {
                let n = build_elem(q).result->Ok_0->0;
                lemma_build_elem_is_element(q);
                lemma_comments_push(c0, ps, n, q);
            } else {
                lemma_comments_push(c0, ps, NodeModel::Text(q.text@), q);
            }
        } else {
            lemma_comments_widen(c0, ps);
        }
    }
}

proof fn lemma_build_elem_is_element(p: Pair)
    ensures
        build_elem(p).result matches Ok(Some(n)) ==> n is Element,
{
}

/// A comment inside an element becomes a comment node holding the comment's text without
/// its `<!--` and `-->`, as a comment at the top level does.
pub proof fn law_comment_in_element_keeps_its_body(p: Pair, s: Seq<char>)
    requires
        tokens_shaped(p.inner@, s),
    ensures
        build_elem(p).result matches Ok(Some(NodeModel::Element(el))) ==> comments_from_tokens(el.children, p.inner@),
{
    lemma_elem_scan_comments(p.inner@, s);
}

/// A comment at the top level becomes a comment node holding the comment's text without
/// its `<!--` and `-->`.
pub proof fn law_top_comment_keeps_its_body(ps: Seq<Pair>, s: Seq<char>)
    requires
        tokens_shaped(ps, s),
    ensures
        dom_result(ps) matches Ok(m) ==> comments_from_tokens(m.children, ps),
    decreases ps.len(),
{
    if ps.len() > 0 {
        let d = ps.drop_last();
        assert forall|i: int| 0 <= i < d.len() implies token_ok(#[trigger] d[i], s) by {
            assert(d[i] == ps[i]);
        }
        assert forall|i: int| 0 <= i < d.len() && (#[trigger] d[i]).rule == Rule::node_comment implies comment_shaped(d[i]) by {
            assert(d[i] == ps[i]);
        }
        lemma_dom_scan_comments(ps, s);
    } else {
        lemma_dom_scan_comments(ps, s);
    }
}

proof fn lemma_dom_scan_comments(ps: Seq<Pair>, s: Seq<char>)
    requires
        tokens_shaped(ps, s),
    ensures
        comments_from_tokens(dom_scan(ps).children, ps),
    decreases ps.len(),
{
    if ps.len() > 0 {
        let d = ps.drop_last();
        assert forall|i: int| 0 <= i < d.len() implies token_ok(#[trigger] d[i], s) by {
            assert(d[i] == ps[i]);
        }
        assert forall|i: int| 0 <= i < d.len() && (#[trigger] d[i]).rule == Rule::node_comment implies comment_shaped(d[i]) by {
            assert(d[i] == ps[i]);
        }
        lemma_dom_scan_comments(d, s);
        let st = dom_scan(d);
        let q = ps.last();
        assert(token_ok(q, s));
        let c0 = st.children;
        if c0 != dom_scan(ps).children {
            if q.rule == Rule::node_comment {
                lemma_comment_node(q, s);
                lemma_comments_push(c0, ps, NodeModel::Comment(q.inner_text@), q);
            } else if q.rule == Rule::node_element {
                let n = build_elem(q).result->Ok_0->0;
                lemma_build_elem_is_element(q);
                lemma_comments_push(c0, ps, n, q);
            } else {
                lemma_comments_push(c0, ps, NodeModel::Text(q.text@), q);
            }
        } else {
            lemma_comments_widen(c0, ps);
        }
    }
}

/// No `html` element among nodes that count none.
pub proof fn lemma_html_count_zero(s: Seq<NodeModel>)
    ensures
        html_count(s) == 0 ==> forall|j: int| 0 <= j < s.len() ==> !is_html_node(#[trigger] s[j]),
    decreases s.len(),
{
    if s.len() > 0 {
        let p = s.drop_last();
        lemma_html_count_zero(p);
        if html_count(s) == 0 {
            assert forall|j: int| 0 <= j < s.len() implies !is_html_node(#[trigger] s[j]) by {
                if j < s.len() - 1 {
                    assert(s[j] == p[j]);
                }
            }
        }
    }
}

/// Once an attribute's scan has failed, it stays failed with the same message.
pub proof fn lemma_attr_scan_err(ps: Seq<Pair>, k: int)
    requires
        0 <= k <= ps.len(),
        attr_scan(ps.subrange(0, k)) is Err,
    ensures
        attr_scan(ps) == attr_scan(ps.subrange(0, k)),
    decreases ps.len() - k,
{
    if k < ps.len() {
        let q = ps.subrange(0, k + 1);
        assert(q.drop_last() =~= ps.subrange(0, k));
        lemma_attr_scan_err(ps, k + 1);
    } else {
        assert(ps.subrange(0, k) =~= ps);
    }
}

} // verus!
