//! The tokens that the HTML grammar produces, as a tree.
use vstd::prelude::*;

verus! {

/// The kinds of token of the HTML grammar.
#[allow(non_camel_case_types)]
#[derive(Debug, Clone, Copy, PartialEq, Eq, Structural)]
pub enum Rule {
    html,
    doctype,
    node_comment,
    comment_body,
    node_text,
    node_element,
    el_void_name,
    el_name,
    el_normal_end,
    el_raw_text,
    el_raw_text_name,
    el_raw_text_content,
    el_raw_text_end,
    el_process_instruct,
    el_dangling,
    attr,
    attr_key,
    attr_value,
    attr_quoted,
    attr_non_quoted,
    EOI,
}

/// The name of a rule, as it is written in the grammar.
pub open spec fn rule_name(r: Rule) -> Seq<char> {
    match r {
        Rule::html => "html"@,
        Rule::doctype => "doctype"@,
        Rule::node_comment => "node_comment"@,
        Rule::comment_body => "comment_body"@,
        Rule::node_text => "node_text"@,
        Rule::node_element => "node_element"@,
        Rule::el_void_name => "el_void_name"@,
        Rule::el_name => "el_name"@,
        Rule::el_normal_end => "el_normal_end"@,
        Rule::el_raw_text => "el_raw_text"@,
        Rule::el_raw_text_name => "el_raw_text_name"@,
        Rule::el_raw_text_content => "el_raw_text_content"@,
        Rule::el_raw_text_end => "el_raw_text_end"@,
        Rule::el_process_instruct => "el_process_instruct"@,
        Rule::el_dangling => "el_dangling"@,
        Rule::attr => "attr"@,
        Rule::attr_key => "attr_key"@,
        Rule::attr_value => "attr_value"@,
        Rule::attr_quoted => "attr_quoted"@,
        Rule::attr_non_quoted => "attr_non_quoted"@,
        Rule::EOI => "EOI"@,
    }
}

impl Rule {
    pub fn name(&self) -> (s: &'static str)
        ensures
            s@ == rule_name(*self),
    {
        match self {
            Rule::html => "html",
            Rule::doctype => "doctype",
            Rule::node_comment => "node_comment",
            Rule::comment_body => "comment_body",
            Rule::node_text => "node_text",
            Rule::node_element => "node_element",
            Rule::el_void_name => "el_void_name",
            Rule::el_name => "el_name",
            Rule::el_normal_end => "el_normal_end",
            Rule::el_raw_text => "el_raw_text",
            Rule::el_raw_text_name => "el_raw_text_name",
            Rule::el_raw_text_content => "el_raw_text_content",
            Rule::el_raw_text_end => "el_raw_text_end",
            Rule::el_process_instruct => "el_process_instruct",
            Rule::el_dangling => "el_dangling",
            Rule::attr => "attr",
            Rule::attr_key => "attr_key",
            Rule::attr_value => "attr_value",
            Rule::attr_quoted => "attr_quoted",
            Rule::attr_non_quoted => "attr_non_quoted",
            Rule::EOI => "EOI",
        }
    }
}

/// A token matched by a rule: where it starts and ends (in characters of the input), the
/// text it spans, the text spanned by its inner tokens, and those inner tokens.
#[derive(Debug)]
pub struct Pair<'a> {
    pub rule: Rule,
    pub start: usize,
    pub end: usize,
    pub text: &'a str,
    pub inner_text: &'a str,
    pub inner: Vec<Pair<'a>>,
}

impl<'a> Pair<'a> {
    pub fn as_rule(&self) -> (r: Rule)
        ensures
            r == self.rule,
    {
        self.rule
    }

    pub fn as_str(&self) -> (s: &'a str)
        ensures
            s == self.text,
    {
        self.text
    }
}

/// A token as a value: its rule, where it starts and ends, and its inner tokens.
pub struct Tok {
    pub rule: Rule,
    pub start: int,
    pub end: int,
    pub inner: Seq<Tok>,
}

/// The token `p` as a value.
pub open spec fn tok(p: Pair) -> Tok
    decreases p,
{
    Tok {
        rule: p.rule,
        start: p.start as int,
        end: p.end as int,
        inner: Seq::new(p.inner@.len(), |i: int| if 0 <= i < p.inner@.len() { tok(p.inner@[i]) } else { tok_leaf(Rule::EOI, 0, 0) }),
    }
}

/// The tokens of `v` as values.
pub open spec fn toks(v: Seq<Pair>) -> Seq<Tok> {
    Seq::new(v.len(), |i: int| tok(v[i]))
}

/// A token with no inner tokens.
pub open spec fn tok_leaf(rule: Rule, start: int, end: int) -> Tok {
    Tok { rule, start, end, inner: Seq::empty() }
}

pub proof fn lemma_tok(p: Pair)
    ensures
        tok(p) == (Tok { rule: p.rule, start: p.start as int, end: p.end as int, inner: toks(p.inner@) }),
{
    assert(tok(p).inner =~= toks(p.inner@));
}

pub proof fn lemma_toks_push(v: Seq<Pair>, p: Pair)
    ensures
        toks(v.push(p)) == toks(v).push(tok(p)),
{
    assert(toks(v.push(p)) =~= toks(v).push(tok(p)));
}

pub proof fn lemma_toks_concat(v: Seq<Pair>, w: Seq<Pair>)
    ensures
        toks(v + w) == toks(v) + toks(w),
{
    assert(toks(v + w) =~= toks(v) + toks(w));
}

pub proof fn lemma_toks_one(p: Pair)
    ensures
        toks(seq![p]) == seq![tok(p)],
{
    assert(toks(seq![p]) =~= seq![tok(p)]);
}

/// Every quoted attribute value in the tree has an inner token.
pub open spec fn quoted_ok(p: Pair) -> bool
    decreases p,
{
    &&& (p.rule == Rule::attr_quoted ==> p.inner@.len() > 0)
    &&& forall|i: int| 0 <= i < p.inner@.len() ==> quoted_ok(#[trigger] p.inner@[i])
}


/// Each token lies within `[a, b]` of `input` and is well formed, and they follow one
/// another in order.
pub open spec fn tokens_in(v: Seq<Pair>, input: Seq<char>, a: int, b: int) -> bool
    decreases v, 0nat,
{
    &&& forall|i: int| 0 <= i < v.len() ==> token_ok(#[trigger] v[i], input)
    &&& forall|i: int| 0 <= i < v.len() ==> a <= (#[trigger] v[i]).start && v[i].end <= b
    &&& forall|i: int, j: int| 0 <= i < j < v.len() ==> (#[trigger] v[i]).end <= (#[trigger] v[j]).start
}

/// A token spans `input[start..end]`, its inner tokens lie within that span in order, its
/// `inner_text` is what they span, and a quoted attribute value has its inner token.
pub open spec fn token_ok(p: Pair, input: Seq<char>) -> bool
    decreases p, 1nat,
{
    &&& p.start <= p.end <= input.len()
    &&& p.text@ == input.subrange(p.start as int, p.end as int)
    &&& tokens_in(p.inner@, input, p.start as int, p.end as int)
    &&& p.inner_text@ == if p.inner@.len() == 0 {
        Seq::<char>::empty()
    } else {
        input.subrange(p.inner@[0].start as int, p.inner@.last().end as int)
    }
    &&& (p.rule == Rule::attr_quoted ==> p.inner@.len() > 0)
}

pub proof fn lemma_token_ok_quoted(p: Pair, input: Seq<char>)
    requires
        token_ok(p, input),
    ensures
        quoted_ok(p),
    decreases p,
{
    assert forall|i: int| 0 <= i < p.inner@.len() implies quoted_ok(#[trigger] p.inner@[i]) by {
        assert(token_ok(p.inner@[i], input));
        lemma_token_ok_quoted(p.inner@[i], input);
    }
}

} // verus!
