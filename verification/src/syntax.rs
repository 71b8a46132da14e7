//! The grammar as spec functions: what the tokenizer reads at each position of the input,
//! alternatives tried in order, each taking the longest run its rule allows. Where a rule
//! recurses, it also checks bounds that always hold (a match ends after it starts), which
//! keeps the recursion visibly finite.
use crate::grammar::{Rule, Tok, tok_leaf};
use vstd::prelude::*;

verus! {

/// The whitespace that the grammar skips between tokens.
pub open spec fn is_space(c: char) -> bool {
    c == ' ' || c == '\t' || c == '\n' || c == '\r'
}

pub open spec fn is_alpha(c: char) -> bool {
    ('a' <= c <= 'z') || ('A' <= c <= 'Z')
}

/// The characters that may follow the first letter of a name.
pub open spec fn is_name_char(c: char) -> bool {
    is_alpha(c) || ('0' <= c <= '9') || c == '_' || c == '-' || c == ':'
}

/// Whether `c` is `l`, or the ASCII uppercase form of it.
pub open spec fn ci_eq(c: char, l: char) -> bool {
    c == l || ('A' <= c <= 'Z' && (c as u32) + 32 == l as u32)
}

/// The end of the whitespace that starts at `pos`.
pub open spec fn space_end(s: Seq<char>, pos: int) -> int
    decreases s.len() - pos,
{
    if 0 <= pos < s.len() && is_space(s[pos]) {
        space_end(s, pos + 1)
    } else {
        pos
    }
}

/// Whether the characters of `lit` stand at `pos`; with `fold`, ASCII letters of the input
/// are compared in lowercase.
pub open spec fn lit_at(s: Seq<char>, pos: int, lit: Seq<char>, fold: bool) -> bool {
    &&& 0 <= pos
    &&& pos + lit.len() <= s.len()
    &&& forall|k: int| 0 <= k < lit.len() ==> if fold {
        ci_eq(s[pos + k], #[trigger] lit[k])
    } else {
        s[pos + k] == lit[k]
    }
}

/// The end of the run of name characters that starts at `pos`.
pub open spec fn name_run(s: Seq<char>, pos: int) -> int
    decreases s.len() - pos,
{
    if 0 <= pos < s.len() && is_name_char(s[pos]) {
        name_run(s, pos + 1)
    } else {
        pos
    }
}

/// The end of the name (a letter, then name characters) at `pos`.
pub open spec fn name_at(s: Seq<char>, pos: int) -> Option<int> {
    if 0 <= pos < s.len() && is_alpha(s[pos]) {
        Some(name_run(s, pos + 1))
    } else {
        None
    }
}

/// The end of `>`, `/>` or `?>` at `pos`.
pub open spec fn chevron_at(s: Seq<char>, pos: int) -> Option<int> {
    if 0 <= pos < s.len() && s[pos] == '>' {
        Some(pos + 1)
    } else if 0 <= pos && pos + 1 < s.len() && (s[pos] == '/' || s[pos] == '?') && s[pos + 1] == '>' {
        Some(pos + 2)
    } else {
        None
    }
}

/// The first position at or after `from` where `lit` stands.
pub open spec fn find_from(s: Seq<char>, from: int, lit: Seq<char>) -> Option<int>
    decreases s.len() - from,
{
    if 0 <= from < s.len() {
        if lit_at(s, from, lit, false) {
            Some(from)
        } else {
            find_from(s, from + 1, lit)
        }
    } else {
        None
    }
}

/// The end of an unquoted attribute value that starts at `pos`: up to whitespace or a
/// closing chevron.
pub open spec fn unquoted_end(s: Seq<char>, pos: int) -> int
    decreases s.len() - pos,
{
    if 0 <= pos < s.len() && !is_space(s[pos]) && chevron_at(s, pos) is None {
        unquoted_end(s, pos + 1)
    } else {
        pos
    }
}

/// The attribute at `pos`: its key (with the whitespace after it), then `=` and a quoted or
/// unquoted value if they follow; a quote that is never closed leaves the value out.
pub open spec fn attr_at(s: Seq<char>, pos: int) -> Option<(int, Tok)> {
    match name_at(s, pos) {
        None => None,
        Some(k1) => {
            let k2 = space_end(s, k1);
            let key = tok_leaf(Rule::attr_key, pos, k2);
            let bare = Tok { rule: Rule::attr, start: pos, end: k2, inner: seq![key] };
            if lit_at(s, k2, seq!['='], false) {
                let p = space_end(s, k2 + 1);
                if p < s.len() && (s[p] == '"' || s[p] == '\'') {
                    match find_from(s, p + 1, seq![s[p]]) {
                        Some(q) => {
                            let value = tok_leaf(Rule::attr_value, p + 1, q);
                            let quoted = Tok { rule: Rule::attr_quoted, start: p, end: q + 1, inner: seq![value] };
                            Some((q + 1, Tok { rule: Rule::attr, start: pos, end: q + 1, inner: seq![key, quoted] }))
                        },
                        None => Some((k2, bare)),
                    }
                } else {
                    let r = unquoted_end(s, p);
                    let value = tok_leaf(Rule::attr_non_quoted, p, r);
                    Some((r, Tok { rule: Rule::attr, start: pos, end: r, inner: seq![key, value] }))
                }
            } else {
                Some((k2, bare))
            }
        },
    }
}

/// The attributes that follow one another from `pos` on, with whitespace before each: where
/// they end, and their tokens.
pub open spec fn attrs_from(s: Seq<char>, pos: int) -> (int, Seq<Tok>)
    decreases s.len() - pos,
{
    match attr_at(s, space_end(s, pos)) {
        Some((e, t)) => if pos < e <= s.len() {
            let (f, ts) = attrs_from(s, e);
            (f, seq![t] + ts)
        } else {
            (pos, Seq::empty())
        },
        None => (pos, Seq::empty()),
    }
}

/// `<![endif]-->`, which ends a conditional comment.
pub open spec fn endif_close() -> Seq<char> {
    seq!['<', '!', '[', 'e', 'n', 'd', 'i', 'f', ']', '-', '-', '>']
}

/// The comment at `pos`, where `<!--` stands: its body runs to the first `-->`, or, when it
/// starts with `[if` (in any case), to the first `<![endif]-->`, which it keeps but for the
/// final `-->`.
pub open spec fn comment_at(s: Seq<char>, pos: int) -> Option<(int, Tok)> {
    let b0 = pos + 4;
    let found: Option<(int, int)> = if lit_at(s, b0, seq!['[', 'i', 'f'], true) {
        match find_from(s, b0, endif_close()) {
            Some(q) => Some((q + 9, q + 12)),
            None => None,
        }
    } else {
        match find_from(s, b0, seq!['-', '-', '>']) {
            Some(q) => Some((q, q + 3)),
            None => None,
        }
    };
    match found {
        Some((b1, end)) => Some(
            (end, Tok { rule: Rule::node_comment, start: pos, end, inner: seq![tok_leaf(Rule::comment_body, b0, b1)] }),
        ),
        None => None,
    }
}

/// The doctype at `pos`: `<!`, whitespace, `doctype` in any case, attributes, and a closing
/// chevron after whitespace.
pub open spec fn doctype_at(s: Seq<char>, pos: int) -> Option<(int, Tok)> {
    if !lit_at(s, pos, seq!['<', '!'], false) {
        None
    } else {
        let a = space_end(s, pos + 2);
        if !lit_at(s, a, seq!['d', 'o', 'c', 't', 'y', 'p', 'e'], true) {
            None
        } else {
            let (k, attrs) = attrs_from(s, a + 7);
            match chevron_at(s, space_end(s, k)) {
                Some(end) => Some((end, Tok { rule: Rule::doctype, start: pos, end, inner: attrs })),
                None => None,
            }
        }
    }
}

/// The end of the word `w` (compared with ASCII letters of the input in lowercase) at `pos`,
/// when no name character follows it.
pub open spec fn word_at(s: Seq<char>, pos: int, w: Seq<char>) -> Option<int> {
    if lit_at(s, pos, w, true) && !(pos + w.len() < s.len() && is_name_char(s[pos + w.len()])) {
        Some(pos + w.len())
    } else {
        None
    }
}

/// The end of the first of `words`, from the `i`-th on, that stands at `pos`.
pub open spec fn first_word_at(s: Seq<char>, pos: int, words: Seq<Seq<char>>, i: int) -> Option<int>
    decreases words.len() - i,
{
    if 0 <= i < words.len() {
        match word_at(s, pos, words[i]) {
            Some(e) => Some(e),
            None => first_word_at(s, pos, words, i + 1),
        }
    } else {
        None
    }
}

/// The names of the void elements, in the order they are tried.
pub open spec fn void_names() -> Seq<Seq<char>> {
    seq![
        "area"@, "base"@, "br"@, "col"@, "command"@, "embed"@, "hr"@, "img"@, "input"@, "keygen"@,
        "link"@, "meta"@, "param"@, "source"@, "track"@, "wbr"@, "path"@, "polygon"@, "rect"@,
        "circle"@,
    ]
}

/// The names of the raw text elements, in the order they are tried.
pub open spec fn raw_names() -> Seq<Seq<char>> {
    seq!["style"@, "script"@, "title"@, "textarea"@]
}

/// The `l` characters at `q` are those at `a`.
pub open spec fn same_at(s: Seq<char>, q: int, a: int, l: int) -> bool {
    forall|k: int| 0 <= k < l ==> #[trigger] s[q + k] == s[a + k]
}

/// The end of the end tag `</name>` at `p`, where the name is `s[a..b]`: `</`, whitespace,
/// the name, whitespace, and a closing chevron.
pub open spec fn end_tag_at(s: Seq<char>, p: int, a: int, b: int) -> Option<int> {
    if !lit_at(s, p, seq!['<', '/'], false) {
        None
    } else {
        let q = space_end(s, p + 2);
        if q + (b - a) > s.len() || !same_at(s, q, a, b - a) {
            None
        } else {
            chevron_at(s, space_end(s, q + (b - a)))
        }
    }
}

pub proof fn lemma_space_end(s: Seq<char>, pos: int)
    ensures
        pos <= space_end(s, pos),
        pos <= s.len() ==> space_end(s, pos) <= s.len(),
    decreases s.len() - pos,
{
    if 0 <= pos < s.len() && is_space(s[pos]) {
        lemma_space_end(s, pos + 1);
    }
}

/// The void element at `pos`, whose name stands at `a`: the name, attributes, and a closing
/// chevron after whitespace.
pub open spec fn void_at(s: Seq<char>, pos: int, a: int) -> Option<(int, Tok)> {
    match first_word_at(s, a, void_names(), 0) {
        None => None,
        Some(b) => {
            let (k, attrs) = attrs_from(s, b);
            match chevron_at(s, space_end(s, k)) {
                Some(e) => Some(
                    (e, Tok { rule: Rule::node_element, start: pos, end: e, inner: seq![tok_leaf(Rule::el_void_name, a, b)] + attrs }),
                ),
                None => None,
            }
        },
    }
}

/// The self-closed element (`<name ... />`) at `pos`, whose name stands at `a`.
pub open spec fn self_closed_at(s: Seq<char>, pos: int, a: int) -> Option<(int, Tok)> {
    match name_at(s, a) {
        None => None,
        Some(b) => {
            let (k, attrs) = attrs_from(s, b);
            let k2 = space_end(s, k);
            if lit_at(s, k2, seq!['/', '>'], false) {
                Some(
                    (k2 + 2, Tok { rule: Rule::node_element, start: pos, end: k2 + 2, inner: seq![tok_leaf(Rule::el_name, a, b)] + attrs }),
                )
            } else {
                None
            }
        },
    }
}

/// The processing instruction (`<?name ... ?>`, the name optional) at `pos`.
pub open spec fn process_instruct_at(s: Seq<char>, pos: int) -> Option<(int, Tok)> {
    if !lit_at(s, pos, seq!['<', '?'], false) {
        None
    } else {
        let a2 = space_end(s, pos + 2);
        let (c, name) = match name_at(s, a2) {
            Some(b2) => (b2, seq![tok_leaf(Rule::el_name, a2, b2)]),
            None => (a2, Seq::<Tok>::empty()),
        };
        let (k, attrs) = attrs_from(s, c);
        let k2 = space_end(s, k);
        if lit_at(s, k2, seq!['?', '>'], false) {
            let e = k2 + 2;
            let pi = Tok { rule: Rule::el_process_instruct, start: pos, end: e, inner: name + attrs };
            Some((e, Tok { rule: Rule::node_element, start: pos, end: e, inner: seq![pi] }))
        } else {
            None
        }
    }
}

/// Where the first end tag of the name `s[a..b]` at or after `q` starts and ends.
pub open spec fn raw_end_from(s: Seq<char>, q: int, a: int, b: int) -> Option<(int, int)>
    decreases s.len() - q,
{
    if 0 <= q < s.len() {
        match end_tag_at(s, q, a, b) {
            Some(e) => Some((q, e)),
            None => raw_end_from(s, q + 1, a, b),
        }
    } else {
        None
    }
}

/// `q`, moved back over the whitespace that ends `s[lo..q]`.
pub open spec fn trim_back(s: Seq<char>, lo: int, q: int) -> int
    decreases q - lo,
{
    if lo < q && is_space(s[q - 1]) {
        trim_back(s, lo, q - 1)
    } else {
        q
    }
}

/// The raw text element (`style`, `script`, `title`, `textarea`) at `pos`, whose name stands
/// at `a`: its content, without the whitespace around it, runs to the first end tag of the
/// same name.
pub open spec fn raw_text_at(s: Seq<char>, pos: int, a: int) -> Option<(int, Tok)> {
    match first_word_at(s, a, raw_names(), 0) {
        None => None,
        Some(b) => {
            let (k, attrs) = attrs_from(s, b);
            match chevron_at(s, space_end(s, k)) {
                None => None,
                Some(c0) => {
                    let cs0 = space_end(s, c0);
                    match raw_end_from(s, cs0, a, b) {
                        None => None,
                        Some((q, e)) => {
                            let content = tok_leaf(Rule::el_raw_text_content, cs0, trim_back(s, cs0, q));
                            let end = tok_leaf(Rule::el_raw_text_end, q, e);
                            Some(
                                (e, Tok {
                                    rule: Rule::node_element,
                                    start: pos,
                                    end: e,
                                    inner: seq![tok_leaf(Rule::el_raw_text_name, a, b)] + attrs + seq![content, end],
                                }),
                            )
                        },
                    }
                },
            }
        },
    }
}

/// The end tag with no element to close (`</name>`) at `pos`.
pub open spec fn dangling_at(s: Seq<char>, pos: int) -> Option<(int, Tok)> {
    if !lit_at(s, pos, seq!['<', '/'], false) {
        None
    } else {
        let a3 = space_end(s, pos + 2);
        match name_at(s, a3) {
            None => None,
            Some(b3) => match chevron_at(s, space_end(s, b3)) {
                None => None,
                Some(e) => {
                    let d = Tok { rule: Rule::el_dangling, start: pos, end: e, inner: seq![tok_leaf(Rule::el_name, a3, b3)] };
                    Some((e, Tok { rule: Rule::node_element, start: pos, end: e, inner: seq![d] }))
                },
            },
        }
    }
}

/// The normal element at `pos`, whose name stands at `a`: the name, attributes, a closing
/// chevron, then its children up to its end tag.
pub open spec fn normal_at(s: Seq<char>, pos: int, a: int) -> Option<(int, Tok)>
    decreases s.len() - pos, 0nat,
{
    match name_at(s, a) {
        None => None,
        Some(b) => {
            let (k, attrs) = attrs_from(s, b);
            match chevron_at(s, space_end(s, k)) {
                None => None,
                Some(c0) => if pos < c0 <= s.len() && a < b {
                    match children_from(s, a, b, c0) {
                        Some((e, cs)) => Some(
                            (e, Tok { rule: Rule::node_element, start: pos, end: e, inner: seq![tok_leaf(Rule::el_name, a, b)] + attrs + cs }),
                        ),
                        None => None,
                    }
                } else {
                    None
                },
            }
        },
    }
}

/// The children from `c` on of an element named `s[a..b]`, each after whitespace, up to and
/// with its end tag: where they end, and their tokens.
pub open spec fn children_from(s: Seq<char>, a: int, b: int, c: int) -> Option<(int, Seq<Tok>)>
    decreases s.len() - c, 5nat,
{
    let p = space_end(s, c);
    match end_tag_at(s, p, a, b) {
        Some(e) => Some((e, seq![tok_leaf(Rule::el_normal_end, p, e)])),
        None => if c <= p <= s.len() {
            match node_token_at(s, p) {
                Some((e, t)) => if p < e <= s.len() {
                    match children_from(s, a, b, e) {
                        Some((f, ts)) => Some((f, seq![t] + ts)),
                        None => None,
                    }
                } else {
                    None
                },
                None => None,
            }
        } else {
            None
        },
    }
}

/// The element at `pos`: void, self-closed, a processing instruction, raw text, normal, or
/// a dangling end tag; the first of these that matches.
pub open spec fn element_at(s: Seq<char>, pos: int) -> Option<(int, Tok)>
    decreases s.len() - pos, 1nat,
{
    if !(0 <= pos < s.len() && s[pos] == '<') {
        None
    } else {
        let a = space_end(s, pos + 1);
        if void_at(s, pos, a) is Some {
            void_at(s, pos, a)
        } else if self_closed_at(s, pos, a) is Some {
            self_closed_at(s, pos, a)
        } else if process_instruct_at(s, pos) is Some {
            process_instruct_at(s, pos)
        } else if raw_text_at(s, pos, a) is Some {
            raw_text_at(s, pos, a)
        } else if normal_at(s, pos, a) is Some {
            normal_at(s, pos, a)
        } else {
            dangling_at(s, pos)
        }
    }
}

/// Whether a text character stands at `q`: one that starts no element and no comment.
pub open spec fn text_char(s: Seq<char>, q: int) -> bool
    decreases s.len() - q, 2nat,
{
    &&& 0 <= q < s.len()
    &&& !(s[q] == '<' && (lit_at(s, q, seq!['<', '!', '-', '-'], false) || element_at(s, q) is Some))
}

/// The end of a run of text whose last character so far ends at `last`: the run goes on
/// over whitespace to each further text character.
pub open spec fn text_run(s: Seq<char>, last: int) -> int
    decreases s.len() - last, 3nat,
{
    let r = space_end(s, last);
    if last <= r < s.len() && text_char(s, r) {
        text_run(s, r + 1)
    } else {
        last
    }
}

/// The text at `pos`: up to the next element or comment, without the whitespace that ends
/// it.
pub open spec fn text_at(s: Seq<char>, pos: int) -> Option<(int, Tok)>
    decreases s.len() - pos, 3nat,
{
    if 0 <= pos < s.len() && text_char(s, pos) {
        let e = text_run(s, pos + 1);
        Some((e, tok_leaf(Rule::node_text, pos, e)))
    } else {
        None
    }
}

/// The node at `pos`: a comment, an element, or text.
pub open spec fn node_token_at(s: Seq<char>, pos: int) -> Option<(int, Tok)>
    decreases s.len() - pos, 4nat,
{
    if lit_at(s, pos, seq!['<', '!', '-', '-'], false) {
        comment_at(s, pos)
    } else if element_at(s, pos) is Some {
        element_at(s, pos)
    } else {
        text_at(s, pos)
    }
}

/// The comments from `pos` on, with whitespace after each: where they end, and their tokens.
pub open spec fn comments_from(s: Seq<char>, pos: int) -> (int, Seq<Tok>)
    decreases s.len() - pos,
{
    if lit_at(s, pos, seq!['<', '!', '-', '-'], false) {
        match comment_at(s, pos) {
            Some((e, t)) => {
                let p = space_end(s, e);
                if pos < p <= s.len() {
                    let (f, ts) = comments_from(s, p);
                    (f, seq![t] + ts)
                } else {
                    (pos, Seq::empty())
                }
            },
            None => (pos, Seq::empty()),
        }
    } else {
        (pos, Seq::empty())
    }
}

/// The nodes from `pos` on, with whitespace after each: where they end, and their tokens.
pub open spec fn nodes_from(s: Seq<char>, pos: int) -> (int, Seq<Tok>)
    decreases s.len() - pos,
{
    match node_token_at(s, pos) {
        Some((e, t)) => {
            let p = space_end(s, e);
            if pos < p <= s.len() {
                let (f, ts) = nodes_from(s, p);
                (f, seq![t] + ts)
            } else {
                (pos, Seq::empty())
            }
        },
        None => (pos, Seq::empty()),
    }
}

/// The top-level tokens of the document `s`: after leading whitespace, its comments, an
/// optional doctype, its nodes, and the end of input; none when something that no rule
/// matches is left.
pub open spec fn document_tokens(s: Seq<char>) -> Option<Seq<Tok>> {
    let (p1, cs) = comments_from(s, space_end(s, 0));
    let (p2, dt) = match doctype_at(s, p1) {
        Some((e, t)) => (space_end(s, e), seq![t]),
        None => (p1, Seq::<Tok>::empty()),
    };
    let (p3, ns) = nodes_from(s, p2);
    if p3 < s.len() {
        None
    } else {
        Some(cs + dt + ns + seq![tok_leaf(Rule::EOI, s.len() as int, s.len() as int)])
    }
}

pub proof fn lemma_space_end_blank(s: Seq<char>, pos: int)
    requires
        0 <= pos <= s.len(),
        forall|k: int| 0 <= k < s.len() ==> is_space(#[trigger] s[k]),
    ensures
        space_end(s, pos) == s.len(),
    decreases s.len() - pos,
{
    if pos < s.len() {
        lemma_space_end_blank(s, pos + 1);
    }
}

/// A document of nothing but whitespace reads as the end of input alone.
pub proof fn law_blank_document_reads_as_end(s: Seq<char>)
    requires
        forall|k: int| 0 <= k < s.len() ==> is_space(#[trigger] s[k]),
    ensures
        document_tokens(s) == Some(seq![tok_leaf(Rule::EOI, s.len() as int, s.len() as int)]),
{
    let n = s.len() as int;
    lemma_space_end_blank(s, 0);
    assert(comments_from(s, n) == (n, Seq::<Tok>::empty()));
    assert(doctype_at(s, n) is None);
    assert(node_token_at(s, n) is None);
    assert(nodes_from(s, n) == (n, Seq::<Tok>::empty()));
    assert(Seq::<Tok>::empty() + Seq::<Tok>::empty() + Seq::<Tok>::empty() + seq![tok_leaf(Rule::EOI, n, n)]
        =~= seq![tok_leaf(Rule::EOI, n, n)]);
}

pub proof fn lemma_name_run(s: Seq<char>, pos: int)
    ensures
        pos <= name_run(s, pos),
    decreases s.len() - pos,
{
    if 0 <= pos < s.len() && is_name_char(s[pos]) {
        lemma_name_run(s, pos + 1);
    }
}

pub proof fn lemma_find_from_found(s: Seq<char>, from: int, lit: Seq<char>)
    ensures
        find_from(s, from, lit) matches Some(q) ==> from <= q && lit_at(s, q, lit, false),
    decreases s.len() - from,
{
    if 0 <= from < s.len() && !lit_at(s, from, lit, false) {
        lemma_find_from_found(s, from + 1, lit);
    }
}

/// A comment as the grammar reads it at `pos`: its body token starts after `<!--` and stops
/// right before the `-->` that ends the comment.
pub proof fn law_comment_body_between_delimiters(s: Seq<char>, pos: int)
    ensures
        comment_at(s, pos) matches Some((e, t)) ==> {
            &&& t.inner == seq![tok_leaf(Rule::comment_body, pos + 4, e - 3)]
            &&& t.start == pos
            &&& t.end == e
            &&& pos + 4 <= e - 3
            &&& s.subrange(e - 3, e) == seq!['-', '-', '>']
        },
{
    let b0 = pos + 4;
    lemma_find_from_found(s, b0, endif_close());
    lemma_find_from_found(s, b0, seq!['-', '-', '>']);
    if let Some((e, t)) = comment_at(s, pos) {
        if lit_at(s, b0, seq!['[', 'i', 'f'], true) {
            let q = find_from(s, b0, endif_close())->0;
            assert(s.subrange(q + 9, q + 12) =~= seq!['-', '-', '>']) by {
                assert(endif_close()[9] == '-' && endif_close()[10] == '-' && endif_close()[11] == '>');
            }
        } else {
            let q = find_from(s, b0, seq!['-', '-', '>'])->0;
            assert(s.subrange(q, q + 3) =~= seq!['-', '-', '>']);
        }
    }
}

/// A quoted attribute value as the grammar reads it: it starts and ends with the same
/// quote, and its value token holds everything between the two.
pub proof fn law_quoted_value_between_quotes(s: Seq<char>, pos: int)
    ensures
        attr_at(s, pos) matches Some((e, t)) ==> (t.inner.len() == 2 && t.inner[1].rule == Rule::attr_quoted ==> {
            let q = t.inner[1];
            &&& q.inner == seq![tok_leaf(Rule::attr_value, q.start + 1, q.end - 1)]
            &&& 0 <= q.start < q.end - 1 < s.len()
            &&& (s[q.start] == '"' || s[q.start] == '\'')
            &&& s[q.end - 1] == s[q.start]
        }),
{
    if let Some(k1) = name_at(s, pos) {
        let k2 = space_end(s, k1);
        let p = space_end(s, k2 + 1);
        lemma_name_run(s, pos + 1);
        lemma_space_end(s, k1);
        lemma_space_end(s, k2 + 1);
        if 0 <= p < s.len() {
            lemma_find_from_found(s, p + 1, seq![s[p]]);
            if let Some(q) = find_from(s, p + 1, seq![s[p]]) {
                assert(seq![s[p]][0] == s[p]);
                assert(s[q + 0] == seq![s[p]][0]);
                if lit_at(s, k2, seq!['='], false) && (s[p] == '"' || s[p] == '\'') {
                    let (e, t) = attr_at(s, pos)->0;
                    assert(t.inner[1].start == p);
                    assert(t.inner[1].end == q + 1);
                    assert(s[q] == s[p]);
                }
            }
        }
    }
}

} // verus!
