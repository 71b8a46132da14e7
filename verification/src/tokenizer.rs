//! The HTML grammar: reads a document into a tree of tokens.
//!
//! ```text
//! html         = node_comment* doctype? node* EOI        (whitespace between them skipped)
//! node         = node_comment | node_element | node_text
//! node_comment = "<!--" comment_body "-->"               ("<!--[if" bodies end at "<![endif]-->")
//! doctype      = "<!" ^"doctype" attr* (">" | "/>" | "?>")
//! node_element = void | void_xml | el_process_instruct | raw_text | normal | el_dangling
//! void         = "<" el_void_name attr* chevron_right
//! void_xml     = "<" el_name attr* "/>"
//! raw_text     = "<" el_raw_text_name attr* chevron_right el_raw_text_content el_raw_text_end
//! normal       = "<" el_name attr* chevron_right node* el_normal_end
//! el_dangling  = "</" el_name chevron_right
//! attr         = attr_key ("=" (attr_quoted | attr_non_quoted))?
//! node_text    = a run of characters up to the next element or comment, without the
//!                whitespace that ends it
//! ```
use crate::error::Error;
use crate::grammar::{Pair, Rule, Tok, tok, toks, tokens_in, token_ok, tok_leaf, lemma_tok, lemma_toks_push, lemma_toks_concat, lemma_toks_one};
use crate::strs::chars_of;
use crate::syntax::{ci_eq, is_alpha, is_name_char, is_space, space_end, lit_at, name_run, name_at, chevron_at, find_from, unquoted_end, attr_at, attrs_from, endif_close, comment_at, doctype_at, word_at, first_word_at, void_names, raw_names, same_at, end_tag_at, lemma_space_end, void_at, self_closed_at, process_instruct_at, raw_end_from, trim_back, raw_text_at, dangling_at, normal_at, children_from, element_at, text_char, text_run, text_at, node_token_at, comments_from, nodes_from, document_tokens};
use vstd::prelude::*;

verus! {

broadcast use vstd::string::group_string_axioms;

/// The input, with its characters laid out for indexing.
struct Input<'a> {
    text: &'a str,
    cs: Vec<char>,
}

impl<'a> Input<'a> {
    spec fn wf(&self) -> bool {
        self.cs@ == self.text@ && self.cs@.len() <= usize::MAX
    }

    spec fn len(&self) -> int {
        self.cs@.len() as int
    }
}

/// An optional token and where it ends, as values.
pub open spec fn opt_tok(r: Option<(usize, Pair)>) -> Option<(int, Tok)> {
    match r {
        Some((e, p)) => Some((e as int, tok(p))),
        None => None,
    }
}

/// An optional position, as an integer.
pub open spec fn opt_int(r: Option<usize>) -> Option<int> {
    match r {
        Some(e) => Some(e as int),
        None => None,
    }
}

pub proof fn lemma_tokens_widen(v: Seq<Pair>, input: Seq<char>, a: int, c: int, a2: int, c2: int)
    requires
        tokens_in(v, input, a, c),
        a2 <= a,
        c <= c2,
    ensures
        tokens_in(v, input, a2, c2),
{
}

pub proof fn lemma_tokens_push(v: Seq<Pair>, p: Pair, input: Seq<char>, a: int, c: int)
    requires
        tokens_in(v, input, a, c),
        token_ok(p, input),
        a <= c <= p.start,
    ensures
        tokens_in(v.push(p), input, a, p.end as int),
{
    let w = v.push(p);
    assert forall|i: int| 0 <= i < w.len() implies token_ok(#[trigger] w[i], input) by {
        if i < v.len() {
            assert(w[i] == v[i]);
        }
    }
    assert forall|i: int, j: int| 0 <= i < j < w.len() implies (#[trigger] w[i]).end <= (#[trigger] w[j]).start by {
        if j < v.len() {
            assert(w[i] == v[i] && w[j] == v[j]);
        } else {
            assert(w[i] == v[i]);
        }
    }
}

pub proof fn lemma_tokens_concat(v: Seq<Pair>, w: Seq<Pair>, input: Seq<char>, a: int, c: int, d: int)
    requires
        tokens_in(v, input, a, c),
        tokens_in(w, input, c, d),
        a <= c <= d,
    ensures
        tokens_in(v + w, input, a, d),
{
    let u = v + w;
    assert forall|i: int| 0 <= i < u.len() implies token_ok(#[trigger] u[i], input) by {
        if i < v.len() {
            assert(u[i] == v[i]);
        } else {
            assert(u[i] == w[i - v.len()]);
        }
    }
    assert forall|i: int| 0 <= i < u.len() implies a <= (#[trigger] u[i]).start && u[i].end <= d by {
        if i < v.len() {
            assert(u[i] == v[i]);
        } else {
            assert(u[i] == w[i - v.len()]);
        }
    }
    assert forall|i: int, j: int| 0 <= i < j < u.len() implies (#[trigger] u[i]).end <= (#[trigger] u[j]).start by {
        if j < v.len() {
            assert(u[i] == v[i] && u[j] == v[j]);
        } else if i < v.len() {
            assert(u[i] == v[i] && u[j] == w[j - v.len()]);
            assert(w[j - v.len()].start >= c);
        } else {
            assert(u[i] == w[i - v.len()] && u[j] == w[j - v.len()]);
        }
    }
}

/// Makes the token `rule` over `input[a..b]` with the inner tokens `inner`.
fn mk<'a>(inp: &Input<'a>, rule: Rule, a: usize, b: usize, inner: Vec<Pair<'a>>) -> (p: Pair<'a>)
    requires
        inp.wf(),
        a <= b <= inp.len(),
        tokens_in(inner@, inp.text@, a as int, b as int),
        rule == Rule::attr_quoted ==> inner@.len() > 0,
    ensures
        token_ok(p, inp.text@),
        p.rule == rule,
        p.start == a,
        p.end == b,
        p.inner@ == inner@,
        tok(p) == (Tok { rule, start: a as int, end: b as int, inner: toks(inner@) }),
        inner@.len() == 0 ==> tok(p) == tok_leaf(rule, a as int, b as int),
{
    let text = inp.text.substring_char(a, b);
    let n = inner.len();
    let inner_text = if n == 0 {
        inp.text.substring_char(a, a)
    } else {
        let s = inner[0].start;
        let e = inner[n - 1].end;
        proof {
            assert(token_ok(inner@[0], inp.text@));
            assert(token_ok(inner@[n - 1], inp.text@));
            if n > 1 {
                assert(inner@[0].end <= inner@[n - 1].start);
            }
        }
        inp.text.substring_char(s, e)
    };
    let p = Pair { rule, start: a, end: b, text, inner_text, inner };
    proof {
        lemma_tok(p);
        if n == 0 {
            assert(toks(inner@) =~= Seq::<Tok>::empty());
        }
        if n == 0 {
            assert(inner_text@ =~= Seq::<char>::empty());
        }
    }
    p
}

fn skip_space(inp: &Input, pos: usize) -> (r: usize)
    requires
        inp.wf(),
        pos <= inp.len(),
    ensures
        pos <= r <= inp.len(),
        forall|k: int| pos <= k < r ==> is_space(#[trigger] inp.cs@[k]),
        r < inp.len() ==> !is_space(inp.cs@[r as int]),
        r == space_end(inp.cs@, pos as int),
{
    let n = inp.cs.len();
    let mut r = pos;
    while r < n && (inp.cs[r] == ' ' || inp.cs[r] == '\t' || inp.cs[r] == '\n' || inp.cs[r] == '\r')
        invariant
            n == inp.cs@.len(),
            pos <= r <= n,
            forall|k: int| pos <= k < r ==> is_space(#[trigger] inp.cs@[k]),
            space_end(inp.cs@, r as int) == space_end(inp.cs@, pos as int),
        decreases n - r,
    {
        r = r + 1;
    }
    r
}

/// Whether the characters of `lit` stand at `pos`; with `fold`, ASCII letters of the input
/// are compared in lowercase (`lit` being lowercase).
fn at(inp: &Input, pos: usize, lit: &str, fold: bool) -> (b: bool)
    requires
        inp.wf(),
        pos <= inp.len(),
    ensures
        b == (pos + lit@.len() <= inp.len() && forall|k: int|
            0 <= k < lit@.len() ==> if fold {
                ci_eq(inp.cs@[pos + k], #[trigger] lit@[k])
            } else {
                inp.cs@[pos + k] == lit@[k]
            }),
        b == lit_at(inp.cs@, pos as int, lit@, fold),
{
    let l = chars_of(lit);
    let n = inp.cs.len();
    if l.len() > n - pos {
        return false;
    }
    let mut k: usize = 0;
    while k < l.len()
        invariant
            l@ == lit@,
            n == inp.cs@.len(),
            pos + l@.len() <= n,
            k <= l@.len(),
            forall|j: int| 0 <= j < k ==> if fold {
                ci_eq(inp.cs@[pos + j], #[trigger] lit@[j])
            } else {
                inp.cs@[pos + j] == lit@[j]
            },
        decreases l@.len() - k,
    {
        let c = inp.cs[pos + k];
        let d = l[k];
        let same = if fold {
            c == d || ('A' <= c && c <= 'Z' && (c as u32) + 32 == (d as u32))
        } else {
            c == d
        };
        if !same {
            return false;
        }
        k = k + 1;
    }
    true
}

/// The end of the name (a letter, then letters, digits, `_`, `-` or `:`) at `pos`, if one
/// stands there.
fn name_end(inp: &Input, pos: usize) -> (r: Option<usize>)
    requires
        inp.wf(),
        pos <= inp.len(),
    ensures
        r matches Some(e) ==> pos < e <= inp.len(),
        opt_int(r) == name_at(inp.cs@, pos as int),
{
    let n = inp.cs.len();
    if pos >= n {
        return None;
    }
    let c = inp.cs[pos];
    if !(('a' <= c && c <= 'z') || ('A' <= c && c <= 'Z')) {
        return None;
    }
    let mut e = pos + 1;
    while name_char_at(inp, e)
        invariant
            inp.wf(),
            n == inp.cs@.len(),
            pos < e <= n,
            name_run(inp.cs@, e as int) == name_run(inp.cs@, pos + 1),
        decreases n - e,
    {
        e = e + 1;
    }
    Some(e)
}

/// Whether a name character stands at `pos`.
fn name_char_at(inp: &Input, pos: usize) -> (b: bool)
    requires
        inp.wf(),
        pos <= inp.len(),
    ensures
        b == (pos < inp.len() && is_name_char(inp.cs@[pos as int])),
{
    if pos >= inp.cs.len() {
        return false;
    }
    let d = inp.cs[pos];
    ('a' <= d && d <= 'z') || ('A' <= d && d <= 'Z') || ('0' <= d && d <= '9') || d == '_' || d
        == '-' || d == ':'
}

/// The end of `>`, `/>` or `?>` at `pos`.
fn chevron_right(inp: &Input, pos: usize) -> (r: Option<usize>)
    requires
        inp.wf(),
        pos <= inp.len(),
    ensures
        r matches Some(e) ==> pos < e <= inp.len(),
        opt_int(r) == chevron_at(inp.cs@, pos as int),
{
    proof {
        reveal_strlit(">");
        reveal_strlit("/>");
        reveal_strlit("?>");
    }
    proof {
        assert(">"@[0] == '>');
        assert("/>"@[0] == '/' && "/>"@[1] == '>');
        assert("?>"@[0] == '?' && "?>"@[1] == '>');
    }
    if at(inp, pos, ">", false) {
        Some(pos + 1)
    } else if at(inp, pos, "/>", false) || at(inp, pos, "?>", false) {
        Some(pos + 2)
    } else {
        None
    }
}

/// The first position at or after `from` where `lit` stands.
fn find(inp: &Input, from: usize, lit: &str) -> (r: Option<usize>)
    requires
        inp.wf(),
        from <= inp.len(),
        lit@.len() > 0,
    ensures
        r matches Some(q) ==> from <= q && q + lit@.len() <= inp.len(),
        opt_int(r) == find_from(inp.cs@, from as int, lit@),
{
    let n = inp.cs.len();
    let mut q = from;
    while q < n
        invariant
            inp.wf(),
            n == inp.cs@.len(),
            from <= q <= n,
            find_from(inp.cs@, q as int, lit@) == find_from(inp.cs@, from as int, lit@),
        decreases n - q,
    {
        if at(inp, q, lit, false) {
            return Some(q);
        }
        q = q + 1;
    }
    None
}

/// An attribute at `pos`: its key, then `=` and a quoted or unquoted value if they follow.
fn parse_attr<'a>(inp: &Input<'a>, pos: usize) -> (r: Option<(usize, Pair<'a>)>)
    requires
        inp.wf(),
        pos <= inp.len(),
    ensures
        r matches Some((e, p)) ==> pos < e <= inp.len() && token_ok(p, inp.text@) && p.start == pos && p.end
            == e && p.rule == Rule::attr,
        opt_tok(r) == attr_at(inp.cs@, pos as int),
{
    let k1 = match name_end(inp, pos) {
        Some(k) => k,
        None => return None,
    };
    let k2 = skip_space(inp, k1);
    let key = mk(inp, Rule::attr_key, pos, k2, Vec::new());
    let mut inner: Vec<Pair<'a>> = Vec::new();
    proof {
        lemma_tokens_push(inner@, key, inp.text@, pos as int, pos as int);
        lemma_toks_push(inner@, key);
        assert(toks(inner@) =~= Seq::<Tok>::empty());
        reveal_strlit("=");
        assert("="@ =~= seq!['=']);
    }
    inner.push(key);
    let ghost key_tok = tok(key);
    let n = inp.cs.len();
    let mut end = k2;
    if at(inp, k2, "=", false) {
        let p = skip_space(inp, k2 + 1);
        if p < n && (inp.cs[p] == '"' || inp.cs[p] == '\'') {
            let quote = if inp.cs[p] == '"' { "\"" } else { "'" };
            proof {
                reveal_strlit("\"");
                reveal_strlit("'");
                assert(quote@ =~= seq![inp.cs@[p as int]]);
            }
            if let Some(q) = find(inp, p + 1, quote) {
                let value = mk(inp, Rule::attr_value, p + 1, q, Vec::new());
                let mut vi: Vec<Pair<'a>> = Vec::new();
                proof {
                    lemma_tokens_push(vi@, value, inp.text@, p as int, p + 1);
                    lemma_toks_push(vi@, value);
                    assert(toks(vi@) =~= Seq::<Tok>::empty());
                }
                vi.push(value);
                let quoted = mk(inp, Rule::attr_quoted, p, q + 1, vi);
                proof {
                    lemma_tokens_push(inner@, quoted, inp.text@, pos as int, k2 as int);
                    lemma_toks_push(inner@, quoted);
                    assert(toks(vi@) =~= seq![tok_leaf(Rule::attr_value, p + 1, q as int)]);
                }
                inner.push(quoted);
                end = q + 1;
                proof {
                    assert(toks(inner@) =~= seq![key_tok, tok(quoted)]);
                }
            }
        } else {
            let mut r = p;
            while r < n && !(inp.cs[r] == ' ' || inp.cs[r] == '\t' || inp.cs[r] == '\n' || inp.cs[r]
                == '\r') && chevron_right(inp, r).is_none()
                invariant
                    n == inp.cs@.len(),
                    inp.wf(),
                    p <= r <= n,
                    unquoted_end(inp.cs@, r as int) == unquoted_end(inp.cs@, p as int),
                decreases n - r,
            {
                r = r + 1;
            }
            let value = mk(inp, Rule::attr_non_quoted, p, r, Vec::new());
            proof {
                lemma_tokens_push(inner@, value, inp.text@, pos as int, k2 as int);
                lemma_toks_push(inner@, value);
            }
            inner.push(value);
            end = r;
            proof {
                assert(toks(inner@) =~= seq![key_tok, tok(value)]);
            }
        }
    }
    proof {
        lemma_tokens_widen(inner@, inp.text@, pos as int, inner@.last().end as int, pos as int, end as int);
    }
    Some((end, mk(inp, Rule::attr, pos, end, inner)))
}

/// The attributes that follow one another from `pos` on, with whitespace before each.
fn parse_attrs<'a>(inp: &Input<'a>, pos: usize) -> (r: (usize, Vec<Pair<'a>>))
    requires
        inp.wf(),
        pos <= inp.len(),
    ensures
        pos <= r.0 <= inp.len(),
        tokens_in(r.1@, inp.text@, pos as int, r.0 as int),
        r.0 == attrs_from(inp.cs@, pos as int).0,
        toks(r.1@) == attrs_from(inp.cs@, pos as int).1,
{
    let mut v: Vec<Pair<'a>> = Vec::new();
    let mut cur = pos;
    proof {
        assert(toks(v@) + attrs_from(inp.cs@, pos as int).1 =~= attrs_from(inp.cs@, pos as int).1);
    }
    loop
        invariant
            inp.wf(),
            pos <= cur <= inp.len(),
            tokens_in(v@, inp.text@, pos as int, cur as int),
            attrs_from(inp.cs@, pos as int).0 == attrs_from(inp.cs@, cur as int).0,
            attrs_from(inp.cs@, pos as int).1 == toks(v@) + attrs_from(inp.cs@, cur as int).1,
        ensures
            attrs_from(inp.cs@, cur as int) == (cur as int, Seq::<Tok>::empty()),
        decreases inp.len() - cur,
    {
        let p = skip_space(inp, cur);
        match parse_attr(inp, p) {
            Some((e, t)) => {
                proof {
                    lemma_tokens_push(v@, t, inp.text@, pos as int, cur as int);
                    lemma_toks_push(v@, t);
                    let rest = attrs_from(inp.cs@, e as int).1;
                    assert(toks(v@) + (seq![tok(t)] + rest) =~= toks(v@).push(tok(t)) + rest);
                }
                v.push(t);
                cur = e;
            },
            None => {
                proof {
                    assert(attr_at(inp.cs@, p as int) is None);
                }
                break;
            },
        }
    }
    proof {
        assert(toks(v@) + Seq::<Tok>::empty() =~= toks(v@));
    }
    (cur, v)
}

/// A comment at `pos` (where `<!--` stands), with its body as the inner token.
fn parse_comment<'a>(inp: &Input<'a>, pos: usize) -> (r: Option<(usize, Pair<'a>)>)
    requires
        inp.wf(),
        pos + 4 <= inp.len(),
    ensures
        r matches Some((e, p)) ==> pos < e <= inp.len() && token_ok(p, inp.text@) && p.start == pos && p.end
            == e && p.rule == Rule::node_comment,
        opt_tok(r) == comment_at(inp.cs@, pos as int),
{
    proof {
        reveal_strlit("<![endif]-->");
        reveal_strlit("-->");
        reveal_strlit("[if");
        assert("<![endif]-->"@ =~= endif_close());
        assert("-->"@ =~= seq!['-', '-', '>']);
        assert("[if"@ =~= seq!['[', 'i', 'f']);
    }
    let b0 = pos + 4;
    let (b1, end) = if at(inp, b0, "[if", true) {
        match find(inp, b0, "<![endif]-->") {
            Some(q) => (q + 9, q + 12),
            None => return None,
        }
    } else {
        match find(inp, b0, "-->") {
            Some(q) => (q, q + 3),
            None => return None,
        }
    };
    let body = mk(inp, Rule::comment_body, b0, b1, Vec::new());
    let mut inner: Vec<Pair<'a>> = Vec::new();
    proof {
        lemma_tokens_push(inner@, body, inp.text@, pos as int, b0 as int);
        lemma_tokens_widen(inner@.push(body), inp.text@, pos as int, b1 as int, pos as int, end as int);
    }
    proof {
        lemma_toks_push(inner@, body);
        assert(toks(inner@) =~= Seq::<Tok>::empty());
    }
    inner.push(body);
    Some((end, mk(inp, Rule::node_comment, pos, end, inner)))
}

/// A doctype at `pos`: `<!`, `doctype` in any case, attributes, and a closing chevron.
fn parse_doctype<'a>(inp: &Input<'a>, pos: usize) -> (r: Option<(usize, Pair<'a>)>)
    requires
        inp.wf(),
        pos <= inp.len(),
    ensures
        r matches Some((e, p)) ==> pos < e <= inp.len() && token_ok(p, inp.text@) && p.start == pos && p.end
            == e && p.rule == Rule::doctype,
        opt_tok(r) == doctype_at(inp.cs@, pos as int),
{
    proof {
        reveal_strlit("<!");
        reveal_strlit("doctype");
        assert("<!"@ =~= seq!['<', '!']);
        assert("doctype"@ =~= seq!['d', 'o', 'c', 't', 'y', 'p', 'e']);
    }
    if !at(inp, pos, "<!", false) {
        return None;
    }
    let a = skip_space(inp, pos + 2);
    if !at(inp, a, "doctype", true) {
        return None;
    }
    let (k, attrs) = parse_attrs(inp, a + 7);
    let k2 = skip_space(inp, k);
    match chevron_right(inp, k2) {
        Some(end) => {
            proof {
                lemma_tokens_widen(attrs@, inp.text@, a + 7, k as int, pos as int, end as int);
            }
            Some((end, mk(inp, Rule::doctype, pos, end, attrs)))
        },
        None => None,
    }
}

/// The end of the word `w` (compared in ASCII lowercase) at `a`, when no name character
/// follows it.
fn read_word(inp: &Input, a: usize, w: &str) -> (r: Option<usize>)
    requires
        inp.wf(),
        a <= inp.len(),
        w@.len() > 0,
    ensures
        r matches Some(e) ==> a < e <= inp.len(),
        opt_int(r) == word_at(inp.cs@, a as int, w@),
{
    if at(inp, a, w, true) {
        let e = a + w.unicode_len();
        if !name_char_at(inp, e) {
            return Some(e);
        }
    }
    None
}

/// The end of the name of a void element at `a`.
fn read_void_name(inp: &Input, a: usize) -> (r: Option<usize>)
    requires
        inp.wf(),
        a <= inp.len(),
    ensures
        r matches Some(e) ==> a < e <= inp.len(),
        opt_int(r) == first_word_at(inp.cs@, a as int, void_names(), 0),
{
    let names = [
        "area", "base", "br", "col", "command", "embed", "hr", "img", "input", "keygen", "link",
        "meta", "param", "source", "track", "wbr", "path", "polygon", "rect", "circle",
    ];
    proof {
        reveal_strlit("area");
        reveal_strlit("base");
        reveal_strlit("br");
        reveal_strlit("col");
        reveal_strlit("command");
        reveal_strlit("embed");
        reveal_strlit("hr");
        reveal_strlit("img");
        reveal_strlit("input");
        reveal_strlit("keygen");
        reveal_strlit("link");
        reveal_strlit("meta");
        reveal_strlit("param");
        reveal_strlit("source");
        reveal_strlit("track");
        reveal_strlit("wbr");
        reveal_strlit("path");
        reveal_strlit("polygon");
        reveal_strlit("rect");
        reveal_strlit("circle");
    }
    let mut i: usize = 0;
    assert(forall|k: int| 0 <= k < 20 ==> (#[trigger] names@[k])@ == void_names()[k]);
    while i < 20
        invariant
            inp.wf(),
            a <= inp.len(),
            names@.len() == 20,
            void_names().len() == 20,
            forall|k: int| 0 <= k < 20 ==> (#[trigger] names@[k])@.len() > 0,
            forall|k: int| 0 <= k < 20 ==> (#[trigger] names@[k])@ == void_names()[k],
            first_word_at(inp.cs@, a as int, void_names(), i as int) == first_word_at(inp.cs@, a as int, void_names(), 0),
        decreases 20 - i,
    {
        if let Some(e) = read_word(inp, a, names[i]) {
            return Some(e);
        }
        i = i + 1;
    }
    None
}

/// The end of the name of a raw text element at `a`.
fn read_raw_name(inp: &Input, a: usize) -> (r: Option<usize>)
    requires
        inp.wf(),
        a <= inp.len(),
    ensures
        r matches Some(e) ==> a < e <= inp.len(),
        opt_int(r) == first_word_at(inp.cs@, a as int, raw_names(), 0),
{
    let names = ["style", "script", "title", "textarea"];
    proof {
        reveal_strlit("style");
        reveal_strlit("script");
        reveal_strlit("title");
        reveal_strlit("textarea");
    }
    let mut i: usize = 0;
    assert(forall|k: int| 0 <= k < 4 ==> (#[trigger] names@[k])@ == raw_names()[k]);
    while i < 4
        invariant
            inp.wf(),
            a <= inp.len(),
            names@.len() == 4,
            raw_names().len() == 4,
            forall|k: int| 0 <= k < 4 ==> (#[trigger] names@[k])@.len() > 0,
            forall|k: int| 0 <= k < 4 ==> (#[trigger] names@[k])@ == raw_names()[k],
            first_word_at(inp.cs@, a as int, raw_names(), i as int) == first_word_at(inp.cs@, a as int, raw_names(), 0),
        decreases 4 - i,
    {
        if let Some(e) = read_word(inp, a, names[i]) {
            return Some(e);
        }
        i = i + 1;
    }
    None
}

/// The end of the end tag `</name>` at `p`, where the name is the text of `input[a..b]`.
fn read_end_tag(inp: &Input, p: usize, a: usize, b: usize) -> (r: Option<usize>)
    requires
        inp.wf(),
        p <= inp.len(),
        a <= b <= inp.len(),
    ensures
        r matches Some(e) ==> p < e <= inp.len(),
        opt_int(r) == end_tag_at(inp.cs@, p as int, a as int, b as int),
{
    proof {
        reveal_strlit("</");
        assert("</"@ =~= seq!['<', '/']);
    }
    if !at(inp, p, "</", false) {
        return None;
    }
    let n = inp.cs.len();
    let q = skip_space(inp, p + 2);
    let l = b - a;
    if l > n - q {
        return None;
    }
    let mut k: usize = 0;
    while k < l
        invariant
            inp.wf(),
            n == inp.cs@.len(),
            l == b - a,
            b <= n,
            q + l <= n,
            k <= l,
            q == space_end(inp.cs@, p + 2),
            same_at(inp.cs@, q as int, a as int, k as int),
        decreases l - k,
    {
        if inp.cs[q + k] != inp.cs[a + k] {
            return None;
        }
        k = k + 1;
    }
    let r = skip_space(inp, q + l);
    chevron_right(inp, r)
}

/// `v` followed by the tokens of `w`.
fn append_tokens<'a>(v: &mut Vec<Pair<'a>>, w: Vec<Pair<'a>>)
    ensures
        final(v)@ == old(v)@ + w@,
{
    let mut w = w;
    v.append(&mut w);
}

/// Whether a text character may stand at `q`: not where an element or a comment starts.
fn text_char_at(inp: &Input, q: usize) -> (b: bool)
    requires
        inp.wf(),
        q <= inp.len(),
    ensures
        b ==> q < inp.len(),
        b == text_char(inp.cs@, q as int),
    decreases inp.len() - q, 2nat,
{
    proof {
        reveal_strlit("<!--");
        assert("<!--"@ =~= seq!['<', '!', '-', '-']);
    }
    if q >= inp.cs.len() {
        return false;
    }
    if inp.cs[q] == '<' {
        if at(inp, q, "<!--", false) {
            return false;
        }
        if parse_element(inp, q).is_some() {
            return false;
        }
    }
    true
}

/// A run of text at `pos`: up to the next element or comment, without the whitespace that
/// ends it.
fn parse_text<'a>(inp: &Input<'a>, pos: usize) -> (r: Option<(usize, Pair<'a>)>)
    requires
        inp.wf(),
        pos <= inp.len(),
    ensures
        r matches Some((e, p)) ==> pos < e <= inp.len() && token_ok(p, inp.text@) && p.start == pos && p.end
            == e && p.rule == Rule::node_text,
        opt_tok(r) == text_at(inp.cs@, pos as int),
    decreases inp.len() - pos, 3nat,
{
    if !text_char_at(inp, pos) {
        return None;
    }
    let n = inp.cs.len();
    let mut last = pos + 1;
    loop
        invariant
            inp.wf(),
            n == inp.cs@.len(),
            pos < last <= n,
            text_run(inp.cs@, last as int) == text_run(inp.cs@, pos + 1),
        ensures
            text_run(inp.cs@, last as int) == last,
        decreases n - last,
    {
        let r = skip_space(inp, last);
        if r < n && text_char_at(inp, r) {
            last = r + 1;
        } else {
            break;
        }
    }
    Some((last, mk(inp, Rule::node_text, pos, last, Vec::new())))
}

/// A node at `pos`: a comment, an element, or text.
fn parse_node<'a>(inp: &Input<'a>, pos: usize) -> (r: Option<(usize, Pair<'a>)>)
    requires
        inp.wf(),
        pos <= inp.len(),
    ensures
        r matches Some((e, p)) ==> pos < e <= inp.len() && token_ok(p, inp.text@) && p.start == pos && p.end
            == e && (p.rule == Rule::node_comment || p.rule == Rule::node_element || p.rule == Rule::node_text),
        opt_tok(r) == node_token_at(inp.cs@, pos as int),
    decreases inp.len() - pos, 4nat,
{
    proof {
        reveal_strlit("<!--");
        assert("<!--"@ =~= seq!['<', '!', '-', '-']);
    }
    if at(inp, pos, "<!--", false) {
        return parse_comment(inp, pos);
    }
    if let Some(x) = parse_element(inp, pos) {
        return Some(x);
    }
    parse_text(inp, pos)
}

/// An element at `pos`: void, self-closed, a processing instruction, raw text, a normal
/// element with its children and end tag, or a dangling end tag; tried in that order.
fn parse_element<'a>(inp: &Input<'a>, pos: usize) -> (r: Option<(usize, Pair<'a>)>)
    requires
        inp.wf(),
        pos <= inp.len(),
    ensures
        r matches Some((e, p)) ==> pos < e <= inp.len() && token_ok(p, inp.text@) && p.start == pos && p.end
            == e && p.rule == Rule::node_element,
        opt_tok(r) == element_at(inp.cs@, pos as int),
    decreases inp.len() - pos, 1nat,
{
    let n = inp.cs.len();
    if pos >= n || inp.cs[pos] != '<' {
        return None;
    }
    let a = skip_space(inp, pos + 1);
    if let Some(x) = parse_void(inp, pos, a) {
        return Some(x);
    }
    if let Some(x) = parse_self_closed(inp, pos, a) {
        return Some(x);
    }
    if let Some(x) = parse_process_instruct(inp, pos) {
        return Some(x);
    }
    if let Some(x) = parse_raw_text(inp, pos, a) {
        return Some(x);
    }
    if let Some(x) = parse_normal(inp, pos, a) {
        return Some(x);
    }
    parse_dangling(inp, pos)
}

/// A void element whose name stands at `a`.
fn parse_void<'a>(inp: &Input<'a>, pos: usize, a: usize) -> (r: Option<(usize, Pair<'a>)>)
    requires
        inp.wf(),
        pos < a <= inp.len(),
    ensures
        r matches Some((e, p)) ==> pos < e <= inp.len() && token_ok(p, inp.text@) && p.start == pos && p.end
            == e && p.rule == Rule::node_element,
        opt_tok(r) == void_at(inp.cs@, pos as int, a as int),
{
    if let Some(b) = read_void_name(inp, a) {
        let (k, attrs) = parse_attrs(inp, b);
        let k2 = skip_space(inp, k);
        if let Some(e) = chevron_right(inp, k2) {
            let mut inner: Vec<Pair<'a>> = Vec::new();
            let nm = mk(inp, Rule::el_void_name, a, b, Vec::new());
            proof {
                lemma_tokens_push(inner@, nm, inp.text@, pos as int, pos as int);
                lemma_tokens_concat(inner@.push(nm), attrs@, inp.text@, pos as int, b as int, k as int);
                lemma_tokens_widen(inner@.push(nm) + attrs@, inp.text@, pos as int, k as int, pos as int, e as int);
                assert(inner@.push(nm) =~= seq![nm]);
                lemma_toks_one(nm);
                lemma_toks_concat(seq![nm], attrs@);
            }
            inner.push(nm);
            append_tokens(&mut inner, attrs);
            return Some((e, mk(inp, Rule::node_element, pos, e, inner)));
        }
    }
    None
}

/// A self-closed element (`<name ... />`) whose name stands at `a`.
fn parse_self_closed<'a>(inp: &Input<'a>, pos: usize, a: usize) -> (r: Option<(usize, Pair<'a>)>)
    requires
        inp.wf(),
        pos < a <= inp.len(),
    ensures
        r matches Some((e, p)) ==> pos < e <= inp.len() && token_ok(p, inp.text@) && p.start == pos && p.end
            == e && p.rule == Rule::node_element,
        opt_tok(r) == self_closed_at(inp.cs@, pos as int, a as int),
{
    proof {
        reveal_strlit("/>");
        assert("/>"@ =~= seq!['/', '>']);
    }
    if let Some(b) = name_end(inp, a) {
        let (k, attrs) = parse_attrs(inp, b);
        let k2 = skip_space(inp, k);
        if at(inp, k2, "/>", false) {
            let e = k2 + 2;
            let mut inner: Vec<Pair<'a>> = Vec::new();
            let nm = mk(inp, Rule::el_name, a, b, Vec::new());
            proof {
                lemma_tokens_push(inner@, nm, inp.text@, pos as int, pos as int);
                lemma_tokens_concat(inner@.push(nm), attrs@, inp.text@, pos as int, b as int, k as int);
                lemma_tokens_widen(inner@.push(nm) + attrs@, inp.text@, pos as int, k as int, pos as int, e as int);
                assert(inner@.push(nm) =~= seq![nm]);
                lemma_toks_one(nm);
                lemma_toks_concat(seq![nm], attrs@);
            }
            inner.push(nm);
            append_tokens(&mut inner, attrs);
            return Some((e, mk(inp, Rule::node_element, pos, e, inner)));
        }
    }
    None
}

/// A processing instruction (`<?name ... ?>`) at `pos`.
fn parse_process_instruct<'a>(inp: &Input<'a>, pos: usize) -> (r: Option<(usize, Pair<'a>)>)
    requires
        inp.wf(),
        pos < inp.len(),
    ensures
        r matches Some((e, p)) ==> pos < e <= inp.len() && token_ok(p, inp.text@) && p.start == pos && p.end
            == e && p.rule == Rule::node_element,
        opt_tok(r) == process_instruct_at(inp.cs@, pos as int),
{
    proof {
        reveal_strlit("?>");
        reveal_strlit("<?");
        assert("?>"@ =~= seq!['?', '>']);
        assert("<?"@ =~= seq!['<', '?']);
    }
    if at(inp, pos, "<?", false) {
        let a2 = skip_space(inp, pos + 2);
        let mut inner: Vec<Pair<'a>> = Vec::new();
        let mut c = a2;
        if let Some(b2) = name_end(inp, a2) {
            let nm = mk(inp, Rule::el_name, a2, b2, Vec::new());
            proof {
                lemma_tokens_push(inner@, nm, inp.text@, pos as int, pos as int);
                assert(inner@.push(nm) =~= seq![nm]);
                lemma_toks_one(nm);
            }
            inner.push(nm);
            c = b2;
        } else {
            proof {
                assert(toks(inner@) =~= Seq::<Tok>::empty());
            }
        }
        let (k, attrs) = parse_attrs(inp, c);
        let k2 = skip_space(inp, k);
        if at(inp, k2, "?>", false) {
            let e = k2 + 2;
            proof {
                lemma_tokens_concat(inner@, attrs@, inp.text@, pos as int, c as int, k as int);
                lemma_tokens_widen(inner@ + attrs@, inp.text@, pos as int, k as int, pos as int, e as int);
                lemma_toks_concat(inner@, attrs@);
            }
            append_tokens(&mut inner, attrs);
            let pi = mk(inp, Rule::el_process_instruct, pos, e, inner);
            let mut outer: Vec<Pair<'a>> = Vec::new();
            proof {
                lemma_tokens_push(outer@, pi, inp.text@, pos as int, pos as int);
                assert(outer@.push(pi) =~= seq![pi]);
                lemma_toks_one(pi);
            }
            outer.push(pi);
            return Some((e, mk(inp, Rule::node_element, pos, e, outer)));
        }
    }
    None
}

/// A raw text element (`style`, `script`, `title`, `textarea`) whose name stands at `a`:
/// its content runs to the first end tag of the same name.
fn parse_raw_text<'a>(inp: &Input<'a>, pos: usize, a: usize) -> (r: Option<(usize, Pair<'a>)>)
    requires
        inp.wf(),
        pos < a <= inp.len(),
    ensures
        r matches Some((e, p)) ==> pos < e <= inp.len() && token_ok(p, inp.text@) && p.start == pos && p.end
            == e && p.rule == Rule::node_element,
        opt_tok(r) == raw_text_at(inp.cs@, pos as int, a as int),
{
    let n = inp.cs.len();
    if let Some(b) = read_raw_name(inp, a) {
        let (k, attrs) = parse_attrs(inp, b);
        let k2 = skip_space(inp, k);
        if let Some(c0) = chevron_right(inp, k2) {
            let cs0 = skip_space(inp, c0);
            let mut q = cs0;
            let mut found: Option<usize> = None;
            while q < n
                invariant
                    inp.wf(),
                    n == inp.cs@.len(),
                    cs0 <= q <= n,
                    a < b <= n,
                    found matches Some(e) ==> q < e <= n,
                    raw_end_from(inp.cs@, q as int, a as int, b as int) == raw_end_from(inp.cs@, cs0 as int, a as int, b as int),
                    found matches Some(e) ==> raw_end_from(inp.cs@, q as int, a as int, b as int) == Some((q as int, e as int)),
                ensures
                    found is None ==> q == n,
                decreases n - q,
            {
                found = read_end_tag(inp, q, a, b);
                if found.is_some() {
                    break;
                }
                q = q + 1;
            }
            proof {
                if found is None {
                    assert(raw_end_from(inp.cs@, q as int, a as int, b as int) is None);
                }
            }
            if let Some(e) = found {
                let mut ce = q;
                while ce > cs0 && (inp.cs[ce - 1] == ' ' || inp.cs[ce - 1] == '\t' || inp.cs[ce - 1] == '\n'
                    || inp.cs[ce - 1] == '\r')
                    invariant
                        inp.wf(),
                        n == inp.cs@.len(),
                        q <= n,
                        cs0 <= ce <= q,
                        trim_back(inp.cs@, cs0 as int, ce as int) == trim_back(inp.cs@, cs0 as int, q as int),
                    decreases ce,
                {
                    ce = ce - 1;
                }
                let mut inner: Vec<Pair<'a>> = Vec::new();
                let nm = mk(inp, Rule::el_raw_text_name, a, b, Vec::new());
                let content = mk(inp, Rule::el_raw_text_content, cs0, ce, Vec::new());
                let end = mk(inp, Rule::el_raw_text_end, q, e, Vec::new());
                proof {
                    lemma_tokens_push(inner@, nm, inp.text@, pos as int, pos as int);
                    lemma_tokens_concat(inner@.push(nm), attrs@, inp.text@, pos as int, b as int, k as int);
                    lemma_tokens_push(inner@.push(nm) + attrs@, content, inp.text@, pos as int, k as int);
                    lemma_tokens_push((inner@.push(nm) + attrs@).push(content), end, inp.text@, pos as int, ce as int);
                    assert(inner@.push(nm) =~= seq![nm]);
                    lemma_toks_one(nm);
                    lemma_toks_concat(seq![nm], attrs@);
                    lemma_toks_push(seq![nm] + attrs@, content);
                    lemma_toks_push((seq![nm] + attrs@).push(content), end);
                    assert((toks(seq![nm]) + toks(attrs@)).push(tok(content)).push(tok(end)) =~= seq![tok(nm)] + toks(
                        attrs@,
                    ) + seq![tok(content), tok(end)]);
                }
                inner.push(nm);
                append_tokens(&mut inner, attrs);
                inner.push(content);
                inner.push(end);
                return Some((e, mk(inp, Rule::node_element, pos, e, inner)));
            }
        }
    }
    None
}

/// A normal element whose name stands at `a`, its children, and its end tag.
fn parse_normal<'a>(inp: &Input<'a>, pos: usize, a: usize) -> (r: Option<(usize, Pair<'a>)>)
    requires
        inp.wf(),
        pos < a <= inp.len(),
    ensures
        r matches Some((e, p)) ==> pos < e <= inp.len() && token_ok(p, inp.text@) && p.start == pos && p.end
            == e && p.rule == Rule::node_element,
        opt_tok(r) == normal_at(inp.cs@, pos as int, a as int),
    decreases inp.len() - pos, 0nat,
{
    let n = inp.cs.len();
    if let Some(b) = name_end(inp, a) {
        let (k, attrs) = parse_attrs(inp, b);
        let k2 = skip_space(inp, k);
        if let Some(c0) = chevron_right(inp, k2) {
            let mut inner: Vec<Pair<'a>> = Vec::new();
            let nm = mk(inp, Rule::el_name, a, b, Vec::new());
            proof {
                lemma_tokens_push(inner@, nm, inp.text@, pos as int, pos as int);
                lemma_tokens_concat(inner@.push(nm), attrs@, inp.text@, pos as int, b as int, k as int);
                lemma_tokens_widen(inner@.push(nm) + attrs@, inp.text@, pos as int, k as int, pos as int, c0 as int);
                assert(inner@.push(nm) =~= seq![nm]);
                lemma_toks_one(nm);
                lemma_toks_concat(seq![nm], attrs@);
            }
            inner.push(nm);
            append_tokens(&mut inner, attrs);
            let mut c = c0;
            loop
                invariant
                    inp.wf(),
                    n == inp.cs@.len(),
                    pos < c <= n,
                    a < b <= n,
                    tokens_in(inner@, inp.text@, pos as int, c as int),
                    normal_at(inp.cs@, pos as int, a as int) == match children_from(inp.cs@, a as int, b as int, c as int) {
                        Some((e, cs)) => Some((e, Tok { rule: Rule::node_element, start: pos as int, end: e, inner: toks(inner@) + cs })),
                        None => None,
                    },
                ensures
                    children_from(inp.cs@, a as int, b as int, c as int) is None,
                decreases n - c,
            {
                let p = skip_space(inp, c);
                if let Some(e) = read_end_tag(inp, p, a, b) {
                    let end = mk(inp, Rule::el_normal_end, p, e, Vec::new());
                    proof {
                        lemma_tokens_push(inner@, end, inp.text@, pos as int, c as int);
                        lemma_toks_push(inner@, end);
                        assert(toks(inner@) + seq![tok(end)] =~= toks(inner@).push(tok(end)));
                    }
                    inner.push(end);
                    return Some((e, mk(inp, Rule::node_element, pos, e, inner)));
                }
                match parse_node(inp, p) {
                    Some((e, t)) => {
                        proof {
                            lemma_tokens_push(inner@, t, inp.text@, pos as int, c as int);
                            lemma_toks_push(inner@, t);
                            if let Some((f, ts)) = children_from(inp.cs@, a as int, b as int, e as int) {
                                assert(toks(inner@) + (seq![tok(t)] + ts) =~= toks(inner@).push(tok(t)) + ts);
                            }
                        }
                        inner.push(t);
                        c = e;
                    },
                    None => {
                        break;
                    },
                }
            }
        }
    }
    None
}

/// An end tag with no element to close (`</name>`) at `pos`.
fn parse_dangling<'a>(inp: &Input<'a>, pos: usize) -> (r: Option<(usize, Pair<'a>)>)
    requires
        inp.wf(),
        pos < inp.len(),
    ensures
        r matches Some((e, p)) ==> pos < e <= inp.len() && token_ok(p, inp.text@) && p.start == pos && p.end
            == e && p.rule == Rule::node_element,
        opt_tok(r) == dangling_at(inp.cs@, pos as int),
{
    proof {
        reveal_strlit("</");
        assert("</"@ =~= seq!['<', '/']);
    }
    if at(inp, pos, "</", false) {
        let a3 = skip_space(inp, pos + 2);
        if let Some(b3) = name_end(inp, a3) {
            let k = skip_space(inp, b3);
            if let Some(e) = chevron_right(inp, k) {
                let nm = mk(inp, Rule::el_name, a3, b3, Vec::new());
                let mut di: Vec<Pair<'a>> = Vec::new();
                proof {
                    lemma_tokens_push(di@, nm, inp.text@, pos as int, pos as int);
                    lemma_tokens_widen(di@.push(nm), inp.text@, pos as int, b3 as int, pos as int, e as int);
                    assert(di@.push(nm) =~= seq![nm]);
                    lemma_toks_one(nm);
                }
                di.push(nm);
                let dangling = mk(inp, Rule::el_dangling, pos, e, di);
                let mut outer: Vec<Pair<'a>> = Vec::new();
                proof {
                    lemma_tokens_push(outer@, dangling, inp.text@, pos as int, pos as int);
                    assert(outer@.push(dangling) =~= seq![dangling]);
                    lemma_toks_one(dangling);
                }
                outer.push(dangling);
                return Some((e, mk(inp, Rule::node_element, pos, e, outer)));
            }
        }
    }
    None
}

/// The rules that stand at the top level of a document's tokens.
pub open spec fn top_level(r: Rule) -> bool {
    r == Rule::doctype || r == Rule::node_element || r == Rule::node_text || r == Rule::node_comment
        || r == Rule::EOI
}

/// The message of the error for an input that the grammar does not match.
pub open spec fn unmatched_message() -> Seq<char> {
    "The input holds content that no rule of the grammar matches"@
}

/// Reads `input` into its top-level tokens (see [`document_tokens`]): leading comments, an
/// optional doctype, the nodes, and the end of input, with the whitespace between them
/// skipped. Fails when something that no rule matches is left (such as an unclosed comment).
pub fn tokenize<'a>(input: &'a str) -> (r: Result<Vec<Pair<'a>>, Error>)
    ensures
        r matches Ok(v) ==> tokens_in(v@, input@, 0, input@.len() as int) && forall|i: int|
            0 <= i < v@.len() ==> top_level(#[trigger] v@[i].rule),
        r matches Ok(v) ==> v@.len() > 0 && v@.last().rule == Rule::EOI,
        match r {
            Ok(v) => document_tokens(input@) == Some(toks(v@)),
            Err(Error::Parsing(m)) => document_tokens(input@) is None && m@ == unmatched_message(),
        },
{
    let cs = chars_of(input);
    let n = cs.len();
    let inp = Input { text: input, cs };
    let mut v: Vec<Pair<'a>> = Vec::new();
    let mut pos = skip_space(&inp, 0);
    let ghost s = inp.cs@;
    let ghost p0 = pos as int;
    proof {
        reveal_strlit("<!--");
        assert("<!--"@ =~= seq!['<', '!', '-', '-']);
        assert(toks(v@) + comments_from(s, p0).1 =~= comments_from(s, p0).1);
    }
    loop
        invariant
            inp.wf(),
            inp.text == input,
            s == inp.cs@,
            n == inp.cs@.len(),
            pos <= n,
            "<!--"@ == seq!['<', '!', '-', '-'],
            tokens_in(v@, input@, 0, pos as int),
            forall|i: int| 0 <= i < v@.len() ==> top_level(#[trigger] v@[i].rule),
            comments_from(s, p0).0 == comments_from(s, pos as int).0,
            comments_from(s, p0).1 == toks(v@) + comments_from(s, pos as int).1,
        ensures
            comments_from(s, pos as int) == (pos as int, Seq::<Tok>::empty()),
        decreases n - pos,
    {
        if !at(&inp, pos, "<!--", false) {
            break;
        }
        match parse_comment(&inp, pos) {
            Some((e, t)) => {
                proof {
                    lemma_tokens_push(v@, t, input@, 0, pos as int);
                    lemma_toks_push(v@, t);
                    lemma_space_end(s, e as int);
                    let rest = comments_from(s, space_end(s, e as int)).1;
                    assert(toks(v@) + (seq![tok(t)] + rest) =~= toks(v@).push(tok(t)) + rest);
                }
                v.push(t);
                pos = skip_space(&inp, e);
            },
            None => {
                break;
            },
        }
    }
    let ghost cs_toks = toks(v@);
    let ghost p1 = pos as int;
    proof {
        assert(cs_toks =~= comments_from(s, p0).1);
    }
    if let Some((e, t)) = parse_doctype(&inp, pos) {
        proof {
            lemma_tokens_push(v@, t, input@, 0, pos as int);
            lemma_toks_push(v@, t);
        }
        v.push(t);
        pos = skip_space(&inp, e);
    }
    let ghost p2 = pos as int;
    let ghost pre = toks(v@);
    proof {
        assert(toks(v@) + nodes_from(s, pos as int).1 == pre + nodes_from(s, p2).1);
    }
    loop
        invariant
            inp.wf(),
            inp.text == input,
            s == inp.cs@,
            n == inp.cs@.len(),
            pos <= n,
            tokens_in(v@, input@, 0, pos as int),
            forall|i: int| 0 <= i < v@.len() ==> top_level(#[trigger] v@[i].rule),
            nodes_from(s, p2).0 == nodes_from(s, pos as int).0,
            toks(v@) + nodes_from(s, pos as int).1 == pre + nodes_from(s, p2).1,
        ensures
            nodes_from(s, pos as int) == (pos as int, Seq::<Tok>::empty()),
        decreases n - pos,
    {
        match parse_node(&inp, pos) {
            Some((e, t)) => {
                proof {
                    lemma_tokens_push(v@, t, input@, 0, pos as int);
                    lemma_toks_push(v@, t);
                    lemma_space_end(s, e as int);
                    let rest = nodes_from(s, space_end(s, e as int)).1;
                    assert(toks(v@) + (seq![tok(t)] + rest) =~= toks(v@).push(tok(t)) + rest);
                }
                v.push(t);
                pos = skip_space(&inp, e);
            },
            None => {
                break;
            },
        }
    }
    proof {
        assert(toks(v@) =~= toks(v@) + nodes_from(s, pos as int).1);
    }
    if pos < n {
        let mut m = String::new();
        m.append("The input holds content that no rule of the grammar matches");
        proof {
            assert(m@ =~= unmatched_message());
        }
        return Err(Error::Parsing(m));
    }
    let eoi = mk(&inp, Rule::EOI, n, n, Vec::new());
    proof {
        lemma_tokens_push(v@, eoi, input@, 0, pos as int);
        lemma_toks_push(v@, eoi);
    }
    v.push(eoi);
    Ok(v)
}

} // verus!
