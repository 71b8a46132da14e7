//! Nodes of the tree, and the markup they stand for.
use crate::dom::element::{Element, ElementVariant};
use crate::dom::html::{Attribute, Text, cow_str};
use std::borrow::Cow;
use vstd::prelude::*;

verus! {

/// A node of the tree: text, an element, or a comment.
#[derive(Debug, PartialEq)]
pub enum Node<'a> {
    Text(Text<'a>),
    Element(Element<'a>),
    Comment(Text<'a>),
}

/// A node seen as plain values: what the tree holds, without how its strings are stored.
pub enum NodeModel {
    Text(Seq<char>),
    Element(ElementModel),
    Comment(Seq<char>),
}

/// An element seen as plain values.
pub struct ElementModel {
    pub id: Option<Seq<char>>,
    pub name: Seq<char>,
    pub variant: ElementVariant,
    /// Attribute names and values, in order.
    pub attributes: Seq<(Seq<char>, Option<Seq<char>>)>,
    /// Class names, in order.
    pub classes: Seq<Seq<char>>,
    pub children: Seq<NodeModel>,
}

pub open spec fn opt_model(a: Option<Attribute>) -> Option<Seq<char>> {
    match a {
        Some(x) => Some(x@),
        None => None,
    }
}

pub open spec fn attrs_model<'a>(s: Seq<(Cow<'a, str>, Option<Attribute<'a>>)>) -> Seq<(Seq<char>, Option<Seq<char>>)> {
    s.map_values(|kv: (Cow<'a, str>, Option<Attribute<'a>>)| (kv.0@, opt_model(kv.1)))
}

pub open spec fn element_model(e: Element) -> ElementModel
    decreases e,
{
    ElementModel {
        id: opt_model(e.id),
        name: e.name@,
        variant: e.variant,
        attributes: attrs_model(e.attributes.0@),
        classes: e.classes.elems(),
        children: nodes_model(e.children@),
    }
}

pub open spec fn node_model(n: Node) -> NodeModel
    decreases n,
{
    match n {
        Node::Text(t) => NodeModel::Text(t@),
        Node::Element(e) => NodeModel::Element(element_model(e)),
        Node::Comment(c) => NodeModel::Comment(c@),
    }
}

pub open spec fn nodes_model(s: Seq<Node>) -> Seq<NodeModel>
    decreases s,
{
    if s.len() == 0 {
        Seq::empty()
    } else {
        nodes_model(s.subrange(0, s.len() - 1)).push(node_model(s[s.len() - 1]))
    }
}

pub proof fn lemma_nodes_model(s: Seq<Node>)
    ensures
        nodes_model(s).len() == s.len(),
        forall|i: int| 0 <= i < s.len() ==> #[trigger] nodes_model(s)[i] == node_model(s[i]),
    decreases s.len(),
{
    if s.len() > 0 {
        let t = s.subrange(0, s.len() - 1);
        lemma_nodes_model(t);
        assert forall|i: int| 0 <= i < s.len() implies #[trigger] nodes_model(s)[i] == node_model(s[i]) by {
            if i < s.len() - 1 {
                assert(t[i] == s[i]);
            }
        }
    }
}

pub proof fn lemma_nodes_model_push(s: Seq<Node>, n: Node)
    ensures
        nodes_model(s.push(n)) == nodes_model(s).push(node_model(n)),
{
    let t = s.push(n);
    assert(t.subrange(0, t.len() - 1) =~= s);
}

impl<'a> View for Node<'a> {
    type V = NodeModel;

    open spec fn view(&self) -> NodeModel {
        node_model(*self)
    }
}

impl<'a> View for Element<'a> {
    type V = ElementModel;

    open spec fn view(&self) -> ElementModel {
        element_model(*self)
    }
}

/// Words joined by single spaces.
pub open spec fn join_words(ws: Seq<Seq<char>>) -> Seq<char>
    decreases ws.len(),
{
    if ws.len() == 0 {
        Seq::empty()
    } else if ws.len() == 1 {
        ws[0]
    } else {
        join_words(ws.drop_last()) + " "@ + ws.last()
    }
}

/// ` key` or ` key="value"`.
pub open spec fn attr_html(k: Seq<char>, v: Option<Attribute>) -> Seq<char> {
    " "@ + k + match v {
        Some(a) => "=\""@ + a@ + "\""@,
        None => Seq::empty(),
    }
}

/// The attributes, each written by [`attr_html`], in order.
pub open spec fn attrs_html<'a>(s: Seq<(Cow<'a, str>, Option<Attribute<'a>>)>) -> Seq<char>
    decreases s.len(),
{
    if s.len() == 0 {
        Seq::empty()
    } else {
        attrs_html(s.drop_last()) + attr_html(s.last().0@, s.last().1)
    }
}

/// ` class="a b c"`, or nothing when there are no classes.
pub open spec fn classes_html(e: Element) -> Seq<char> {
    if e.classes.0.0@.len() == 0 {
        Seq::empty()
    } else {
        " class=\""@ + join_words(e.classes.elems()) + "\""@
    }
}

/// ` id="x"`, or nothing.
pub open spec fn id_html(id: Option<Attribute>) -> Seq<char> {
    match id {
        Some(a) => " id=\""@ + a@ + "\""@,
        None => Seq::empty(),
    }
}

/// The markup of an element: its start tag, then, for a normal element, its children and
/// end tag; a void element closes itself.
pub open spec fn element_html(e: Element) -> Seq<char>
    decreases e,
{
    "<"@ + e.name@ + classes_html(e) + id_html(e.id) + attrs_html(e.attributes.0@) + if e.variant
        == ElementVariant::Normal {
        ">"@ + nodes_html(e.children@) + "</"@ + e.name@ + ">"@
    } else {
        "/>"@
    }
}

/// The markup of an element with classes starts with its name, then ` class="`, its
/// classes joined by single spaces, and the closing quote.
pub proof fn law_classes_are_written(e: Element)
    requires
        e.classes.0.0@.len() > 0,
    ensures
        ({
            let head = "<"@ + e.name@ + " class=\""@ + join_words(e.classes.elems()) + "\""@;
            &&& head.len() <= element_html(e).len()
            &&& element_html(e).subrange(0, head.len() as int) == head
        }),
{
    let head = "<"@ + e.name@ + " class=\""@ + join_words(e.classes.elems()) + "\""@;
    let rest = id_html(e.id) + attrs_html(e.attributes.0@) + if e.variant == ElementVariant::Normal {
        ">"@ + nodes_html(e.children@) + "</"@ + e.name@ + ">"@
    } else {
        "/>"@
    };
    assert(element_html(e) =~= head + rest);
    assert((head + rest).subrange(0, head.len() as int) =~= head);
}

/// Joining words that are not empty gives text that is not empty.
pub proof fn law_joined_words_not_empty(ws: Seq<Seq<char>>)
    requires
        ws.len() > 0,
        forall|i: int| 0 <= i < ws.len() ==> (#[trigger] ws[i]).len() > 0,
    ensures
        join_words(ws).len() > 0,
    decreases ws.len(),
{
    if ws.len() > 1 {
        let p = ws.drop_last();
        assert(p[0] == ws[0]);
        law_joined_words_not_empty(p);
    }
}

/// The markup of a node.
pub open spec fn node_html(n: Node) -> Seq<char>
    decreases n,
{
    match n {
        Node::Text(t) => t@,
        Node::Element(e) => element_html(e),
        Node::Comment(c) => "<!--"@ + c@ + "-->"@,
    }
}

/// The markup of a list of nodes, one after the other.
pub open spec fn nodes_html(s: Seq<Node>) -> Seq<char>
    decreases s,
{
    if s.len() == 0 {
        Seq::empty()
    } else {
        nodes_html(s.subrange(0, s.len() - 1)) + node_html(s[s.len() - 1])
    }
}

impl<'a> Node<'a> {
    pub fn to_html(&self) -> (s: String)
        ensures
            s@ == node_html(*self),
    {
        let mut result = String::new();
        self.write_html(&mut result);
        result
    }

    /// Appends the markup of this node to `writer`.
    pub fn write_html(&self, writer: &mut String)
        ensures
            final(writer)@ == old(writer)@ + node_html(*self),
        decreases *self,
    {
        match self {
            Node::Text(s) => {
                writer.append(s.as_str());
            },
            Node::Element(e) => e.write_html(writer),
            Node::Comment(c) => {
                writer.append("<!--");
                writer.append(c.as_str());
                writer.append("-->");
            },
        }
    }
}

/// The descendants of `n`, in document order (depth first, parents before children).
pub open spec fn descendants(n: Node) -> Seq<Node>
    decreases n,
{
    match n {
        Node::Element(e) => forest(e.children@),
        _ => Seq::empty(),
    }
}

/// The nodes of a list of trees, in document order: each root followed by its descendants.
pub open spec fn forest(s: Seq<Node>) -> Seq<Node>
    decreases s,
{
    if s.len() == 0 {
        Seq::empty()
    } else {
        seq![s[0]] + descendants(s[0]) + forest(s.subrange(1, s.len() as int))
    }
}

/// The text of a node with all tags taken out: text as it is, the texts of an element's
/// descendants one after the other, and nothing of comments.
pub open spec fn stripped(n: Node) -> Seq<char>
    decreases n,
{
    match n {
        Node::Text(t) => t@,
        Node::Element(e) => stripped_list(e.children@),
        Node::Comment(_) => Seq::empty(),
    }
}

/// The stripped texts of a list of nodes, one after the other.
pub open spec fn stripped_list(s: Seq<Node>) -> Seq<char>
    decreases s,
{
    if s.len() == 0 {
        Seq::empty()
    } else {
        stripped_list(s.subrange(0, s.len() - 1)) + stripped(s[s.len() - 1])
    }
}

impl<'a> Node<'a> {
    pub fn text(&self) -> (r: Option<&Text<'a>>)
        ensures
            match *self {
                Node::Text(t) => r == Some(&t),
                _ => r is None,
            },
    {
        match self {
            Node::Text(t) => Some(t),
            _ => None,
        }
    }

    pub fn text_str(&self) -> (r: Option<&str>)
        ensures
            match *self {
                Node::Text(t) => r is Some && r->0@ == t@,
                _ => r is None,
            },
    {
        match self {
            Node::Text(t) => Some(t.as_str()),
            _ => None,
        }
    }

    pub fn element(&self) -> (r: Option<&Element<'a>>)
        ensures
            match *self {
                Node::Element(e) => r == Some(&e),
                _ => r is None,
            },
    {
        match self {
            Node::Element(e) => Some(e),
            _ => None,
        }
    }

    pub fn comment(&self) -> (r: Option<&Text<'a>>)
        ensures
            match *self {
                Node::Comment(t) => r == Some(&t),
                _ => r is None,
            },
    {
        match self {
            Node::Comment(t) => Some(t),
            _ => None,
        }
    }

    pub fn comment_str(&self) -> (r: Option<&str>)
        ensures
            match *self {
                Node::Comment(t) => r is Some && r->0@ == t@,
                _ => r is None,
            },
    {
        match self {
            Node::Comment(t) => Some(t.as_str()),
            _ => None,
        }
    }

    /// Strip all tags.
    ///
    /// Note that html entities are not removed, only tags.
    /// Use [`Self::to_text`] to decode them as well.
    pub fn strip_tags(&self) -> (r: Text<'_>)
        ensures
            r@ == stripped(*self),
        decreases *self,
    {
        match self {
            Node::Text(t) => Text(Cow::Borrowed(t.as_str())),
            Node::Element(e) => e.strip_tags(),
            Node::Comment(_) => {
                proof {
                    reveal_strlit("");
                }
                Text(Cow::Borrowed(""))
            },
        }
    }

    /// Strip tags and decode html-entities.
    pub fn to_text(&self) -> (r: Cow<'_, str>)
        ensures
            r@ == decoded_entities(stripped(*self)),
    {
        let t = self.strip_tags().0;
        match decode_html_entities(cow_str(&t)) {
            Cow::Borrowed(_) => t,
            Cow::Owned(o) => Cow::Owned(o),
        }
    }

}

impl<'a> Element<'a> {
    /// The texts of the descendants, one after the other, without any tag.
    pub fn strip_tags(&self) -> (r: Text<'_>)
        ensures
            r@ == stripped_list(self.children@),
        decreases *self,
    {
        let list = self.children.as_slice();
        let mut out = String::new();
        let n = list.len();
        let mut i: usize = 0;
        while i < n
            invariant
                n == list@.len(),
                list@ == self.children@,
                i <= n,
                out@ == stripped_list(list@.subrange(0, i as int)),
            decreases n - i,
        {
            proof {
                assert(decreases_to!(*self => self.children@[i as int]));
            }
            let part = list[i].strip_tags();
            out.append(part.as_str());
            proof {
                let s = list@.subrange(0, i + 1);
                assert(s.subrange(0, s.len() - 1) =~= list@.subrange(0, i as int));
            }
            i = i + 1;
        }
        assert(list@.subrange(0, n as int) =~= list@);
        Text(Cow::Owned(out))
    }
}

/// What `html_escape::decode_html_entities` makes of a text: its character references
/// (named and numeric, each ending with `;`) replaced by the characters they stand for.
pub uninterp spec fn decoded_entities(s: Seq<char>) -> Seq<char>;

/// Calls `html_escape::decode_html_entities`. Claimed: the result is `decoded_entities` of
/// the argument; a text without `&` comes back as it is, and a borrowed result is the whole
/// argument. Which references it decodes is left to that crate.
#[verifier::external_body]
fn decode_html_entities<'b>(text: &'b str) -> (r: Cow<'b, str>)
    ensures
        r@ == decoded_entities(text@),
        !text@.contains('&') ==> r@ == text@,
        r is Borrowed ==> r@ == text@,
{
    html_escape::decode_html_entities(text)
}

/// A cursor that walks the descendants of a node in document order.
pub struct NodeIntoIterator<'a> {
    node: &'a Node<'a>,
    // One entry per level above `node`: the index of the child taken and its parent.
    index: Vec<(usize, &'a Node<'a>)>,
}

/// The nodes that follow child `i` of `p` among its siblings, each with its descendants.
pub open spec fn following_siblings(i: usize, p: Node) -> Seq<Node> {
    match p {
        Node::Element(e) => if i + 1 < e.children@.len() {
            forest(e.children@.subrange(i + 1, e.children@.len() as int))
        } else {
            Seq::empty()
        },
        _ => Seq::empty(),
    }
}

/// What is left to visit above the current node, innermost level first.
pub open spec fn pending<'a>(frames: Seq<(usize, &'a Node<'a>)>) -> Seq<Node<'a>>
    decreases frames.len(),
{
    if frames.len() == 0 {
        Seq::empty()
    } else {
        following_siblings(frames.last().0, *frames.last().1) + pending(frames.drop_last())
    }
}

/// Every level points at an existing child of an element.
pub open spec fn frames_ok<'a>(frames: Seq<(usize, &'a Node<'a>)>) -> bool {
    forall|k: int|
        0 <= k < frames.len() ==> match *(#[trigger] frames[k]).1 {
            Node::Element(e) => frames[k].0 < e.children@.len(),
            _ => false,
        }
}

/// The nodes left to visit from `node`, with the levels `frames` above it: the descendants
/// of `node`, then what follows at each level, innermost first.
pub open spec fn remaining_from<'a>(node: &'a Node<'a>, frames: Seq<(usize, &'a Node<'a>)>) -> Seq<Node<'a>> {
    descendants(*node) + pending(frames)
}

impl<'a> NodeIntoIterator<'a> {
    #[verifier::type_invariant]
    closed spec fn wf(&self) -> bool {
        frames_ok(self.index@)
    }

    /// The nodes this cursor has yet to hand out, in order.
    pub closed spec fn left(&self) -> Seq<Node<'a>> {
        remaining_from(self.node, self.index@)
    }

    /// The next node after `node`, in document order, with the levels above it updated;
    /// none when the walk is over.
    fn step(node: &'a Node<'a>, index: &mut Vec<(usize, &'a Node<'a>)>) -> (r: Option<&'a Node<'a>>)
        requires
            frames_ok(old(index)@),
        ensures
            frames_ok(final(index)@),
            remaining_from(node, old(index)@).len() == 0 ==> r is None && final(index)@.len() == 0,
            remaining_from(node, old(index)@).len() > 0 ==> r is Some && *r->0 == remaining_from(node, old(index)@)[0]
                && remaining_from(r->0, final(index)@) == remaining_from(node, old(index)@).drop_first(),
    {
        let child = match node {
            Node::Element(e) => e.children.first(),
            _ => None,
        };
        match child {
            Some(child) => {
                let ghost old_index = index@;
                let ghost parent = *node;
                proof {
                    if let Node::Element(e) = node {
                        let s = e.children@;
                        assert(*child == s[0]);
                        assert(forest(s) == seq![s[0]] + descendants(s[0]) + forest(s.subrange(1, s.len() as int)));
                        if s.len() == 1 {
                            assert(s.subrange(1, 1) =~= Seq::<Node>::empty());
                            assert(forest(s.subrange(1, 1)) == Seq::<Node>::empty());
                        }
                        assert(following_siblings(0, parent) == forest(s.subrange(1, s.len() as int)));
                    }
                }
                index.push((0, node));
                proof {
                    assert(index@.drop_last() == old_index);
                    assert(pending(index@) == following_siblings(0, parent) + pending(old_index));
                    assert(remaining_from(child, index@) =~= remaining_from(node, old_index).drop_first());
                }
                Some(child)
            },
            None => {
                assert(descendants(*node) == Seq::<Node>::empty());
                let ghost rem0 = remaining_from(node, index@);
                let mut next_node: Option<&'a Node<'a>> = None;
                let mut has_finished = false;
                while !has_finished
                    invariant
                        frames_ok(index@),
                        descendants(*node) == Seq::<Node>::empty(),
                        rem0 == remaining_from(node, old(index)@),
                        !has_finished ==> remaining_from(node, index@) == rem0 && next_node is None,
                        has_finished ==> match next_node {
                            Some(n) => rem0.len() > 0 && *n == rem0[0] && remaining_from(n, index@) == rem0.drop_first(),
                            None => rem0.len() == 0 && index@.len() == 0,
                        },
                    decreases index@.len() + if has_finished { 0int } else { 1int },
                {
                    let ghost frames = index@;
                    if let Some((sibling_index, parent)) = index.pop() {
                        proof {
                            assert(frames.last() == (sibling_index, parent));
                            assert(index@ == frames.drop_last());
                            assert(pending(frames) == following_siblings(sibling_index, *parent) + pending(index@));
                        }
                        let ghost w = frames.len() - 1;
                        assert(match *(frames[w]).1 {
                            Node::Element(e) => frames[w].0 < e.children@.len(),
                            _ => false,
                        });
                        let sibling = if let Node::Element(e) = parent {
                            proof {
                                assert(e.children@.len() == e.children.len());
                            }
                            let next_sibling = sibling_index + 1;
                            match e.children.get(next_sibling) {
                                Some(c) => Some((next_sibling, c)),
                                None => None,
                            }
                        } else {
                            None
                        };
                        if let Some((next_sibling, sibling)) = sibling {
                            proof {
                                if let Node::Element(e) = parent {
                                    let s = e.children@.subrange(next_sibling as int, e.children@.len() as int);
                                    assert(s[0] == e.children@[next_sibling as int]);
                                    assert(forest(s) == seq![s[0]] + descendants(s[0]) + forest(s.subrange(1, s.len() as int)));
                                    assert(s.subrange(1, s.len() as int) =~= e.children@.subrange(next_sibling + 1, e.children@.len() as int));
                                    if next_sibling + 1 >= e.children@.len() {
                                        assert(s.subrange(1, s.len() as int) =~= Seq::<Node>::empty());
                                        assert(forest(s.subrange(1, s.len() as int)) == Seq::<Node>::empty());
                                    }
                                }
                            }
                            has_finished = true;
                            let ghost before = index@;
                            index.push((next_sibling, parent));
                            next_node = Some(sibling);
                            proof {
                                assert(index@.drop_last() == before);
                                assert(rem0 == pending(frames));
                                assert(remaining_from(sibling, index@) =~= rem0.drop_first());
                            }
                        } else {
                            proof {
                                if let Node::Element(e) = parent {
                                    assert(sibling_index + 1 >= e.children@.len());
                                }
                                assert(following_siblings(sibling_index, *parent) == Seq::<Node>::empty());
                                assert(remaining_from(node, index@) =~= rem0);
                            }
                            continue;
                        }
                    } else {
                        has_finished = true;
                    }
                }
                next_node
            },
        }
    }
}

impl<'a> Iterator for NodeIntoIterator<'a> {
    type Item = &'a Node<'a>;

    /// Hands out the next descendant in document order: the first child of the node last
    /// handed out, else the next sibling of it or of its nearest ancestor that has one.
    fn next(&mut self) -> (r: Option<&'a Node<'a>>) {
        proof {
            use_type_invariant(&*self);
        }
        let mut index: Vec<(usize, &'a Node<'a>)> = Vec::new();
        std::mem::swap(&mut index, &mut self.index);
        let r = Self::step(self.node, &mut index);
        if let Some(n) = r {
            self.node = n;
        }
        self.index = index;
        r
    }
}

impl<'a> vstd::std_specs::iter::IteratorSpecImpl for NodeIntoIterator<'a> {
    open spec fn obeys_prophetic_iter_laws(&self) -> bool {
        true
    }

    open spec fn remaining(&self) -> Seq<&'a Node<'a>> {
        Seq::new(self.left().len(), |i: int| &self.left()[i])
    }

    open spec fn will_return_none(&self) -> bool {
        true
    }

    open spec fn decrease(&self) -> Option<nat> {
        Some(self.left().len())
    }

    open spec fn initial_value_relation(&self, init: &Self) -> bool {
        self.left() == init.left()
    }

    open spec fn peek(&self, index: int) -> Option<&'a Node<'a>> {
        if 0 <= index < self.left().len() {
            Some(&self.left()[index])
        } else {
            None
        }
    }
}

impl<'a> IntoIterator for &'a Node<'a> {
    type Item = &'a Node<'a>;
    type IntoIter = NodeIntoIterator<'a>;

    /// Iterates the descendants of this node in document order (see
    /// [`NodeIntoIterator::next`]).
    fn into_iter(self) -> (it: NodeIntoIterator<'a>)
        ensures
            it.left() == descendants(*self),
    {
        let it = NodeIntoIterator { node: self, index: Vec::new() };
        proof {
            assert(pending(it.index@) == Seq::<Node<'a>>::empty());
            assert(it.left() =~= descendants(*self));
        }
        it
    }
}

/// Appends the markup of each node of `list`, in order.
pub fn write_html_list(writer: &mut String, list: &[Node])
    ensures
        final(writer)@ == old(writer)@ + nodes_html(list@),
    decreases list@,
{
    let ghost w0 = writer@;
    let n = list.len();
    let mut i: usize = 0;
    while i < n
        invariant
            n == list@.len(),
            i <= n,
            writer@ == w0 + nodes_html(list@.subrange(0, i as int)),
        decreases n - i,
    {
        proof {
            assert(decreases_to!(list@ => list@[i as int]));
        }
        list[i].write_html(writer);
        proof {
            let s = list@.subrange(0, i + 1);
            assert(s.subrange(0, s.len() - 1) =~= list@.subrange(0, i as int));
        }
        i = i + 1;
    }
    assert(list@.subrange(0, n as int) =~= list@);
}

} // verus!
