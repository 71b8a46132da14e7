//! Elements of the tree.
use crate::dom::html::{Attribute, cow_str};
use crate::dom::node::{Node, write_html_list, element_html, join_words, attrs_html, attr_html, classes_html, id_html};
use crate::dom::vecmap::VecMap;
use crate::dom::vecset::VecSet;
use std::borrow::Cow;
use vstd::prelude::*;

verus! {

/// Normal: `<div></div>` or Void: `<meta/>`and `<meta>`
#[derive(Debug, Clone, Copy, PartialEq, Eq, Structural)]
pub enum ElementVariant {
    /// A normal element can have children, ex: <div></div>.
    Normal,
    /// A void element can't have children, ex: <meta /> and <meta>
    Void,
}

/// The attributes of an element other than `id` and `class`, in the order they came.
pub type Attributes<'a> = VecMap<Cow<'a, str>, Option<Attribute<'a>>>;

/// Most of the parsed html nodes are elements, except for text
#[derive(Debug, PartialEq)]
pub struct Element<'a> {
    /// The id of the element
    pub id: Option<Attribute<'a>>,
    /// The name / tag of the element
    pub name: Cow<'a, str>,
    /// The element variant, if it is of type void or not
    pub variant: ElementVariant,
    /// All of the elements attributes, except id and class
    pub attributes: Attributes<'a>,
    /// All of the elements classes
    pub classes: VecSet<Attribute<'a>>,
    /// All of the elements child nodes
    pub children: Vec<Node<'a>>,
}

impl Default for Element<'static> {
    fn default() -> (e: Self)
        ensures
            e.id is None,
            e.name@ == Seq::<char>::empty(),
            e.variant == ElementVariant::Void,
            e.attributes.0@.len() == 0,
            e.classes.0.0@.len() == 0,
            e.children@.len() == 0,
    {
        proof {
            reveal_strlit("");
        }
        Element {
            id: None,
            name: Cow::Borrowed(""),
            variant: ElementVariant::Void,
            classes: VecSet(VecMap(Vec::new())),
            attributes: VecMap(Vec::new()),
            children: Vec::new(),
        }
    }
}

impl<'a> Element<'a> {
    pub fn to_html(&self) -> (s: String)
        ensures
            s@ == element_html(*self),
    {
        let mut result = String::new();
        self.write_html(&mut result);
        result
    }

    /// Appends ` class="a b c"` when there are classes.
    fn write_classes(&self, writer: &mut String)
        ensures
            final(writer)@ == old(writer)@ + classes_html(*self),
    {
        let e = self;
        if !e.classes.is_empty() {
            let ghost w0 = writer@;
            writer.append(" class=\"");
            let ghost w1 = writer@;
            let ghost words = e.classes.elems();
            let n = e.classes.0.0.len();
            let mut i: usize = 0;
            while i < n
                invariant
                    n == e.classes.0.0@.len(),
                    words == e.classes.elems(),
                    i <= n,
                    writer@ == w1 + join_words(words.take(i as int)),
                decreases n - i,
            {
                if i > 0 {
                    writer.append(" ");
                }
                writer.append(e.classes.0.0[i].0.as_str());
                proof {
                    assert(words.take(i + 1).drop_last() =~= words.take(i as int));
                    if i == 0 {
                        assert(words.take(1) =~= seq![words[0]]);
                    }
                }
                i = i + 1;
            }
            assert(words.take(n as int) =~= words);
            writer.append("\"");
            assert(writer@ =~= w0 + classes_html(*self));
        } else {
            assert(writer@ =~= writer@ + classes_html(*self));
        }
    }

    /// Appends ` id="x"` when there is an id.
    fn write_id(&self, writer: &mut String)
        ensures
            final(writer)@ == old(writer)@ + id_html(self.id),
    {
        let ghost w0 = writer@;
        if let Some(id) = &self.id {
            writer.append(" id=\"");
            writer.append(id.as_str());
            writer.append("\"");
            assert(writer@ =~= w0 + id_html(self.id));
        } else {
            assert(writer@ =~= w0 + id_html(self.id));
        }
    }

    /// Appends each attribute, in order.
    fn write_attributes(&self, writer: &mut String)
        ensures
            final(writer)@ == old(writer)@ + attrs_html(self.attributes.0@),
    {
        let e = self;
        let ghost w2 = writer@;
        let m = e.attributes.0.len();
        let mut j: usize = 0;
        while j < m
            invariant
                m == e.attributes.0@.len(),
                j <= m,
                writer@ == w2 + attrs_html(e.attributes.0@.take(j as int)),
            decreases m - j,
        {
            let (k, v) = &e.attributes.0[j];
            let ghost w3 = writer@;
            writer.append(" ");
            writer.append(cow_str(k));
            if let Some(v) = v {
                writer.append("=\"");
                writer.append(v.as_str());
                writer.append("\"");
            }
            assert(writer@ =~= w3 + attr_html(k@, *v));
            assert(e.attributes.0@.take(j + 1).drop_last() =~= e.attributes.0@.take(j as int));
            j = j + 1;
        }
        assert(e.attributes.0@.take(m as int) =~= e.attributes.0@);
    }

    /// Appends the markup of this element and its descendants to `writer`.
    pub fn write_html(&self, writer: &mut String)
        ensures
            final(writer)@ == old(writer)@ + element_html(*self),
        decreases *self,
    {
        let e = self;
        let ghost w0 = writer@;
        writer.append("<");
        writer.append(cow_str(&e.name));
        e.write_classes(writer);
        e.write_id(writer);
        e.write_attributes(writer);
        let ghost w1 = writer@;
        match e.variant {
            ElementVariant::Normal => {
                writer.append(">");
                write_html_list(writer, e.children.as_slice());
                writer.append("</");
                writer.append(cow_str(&e.name));
                writer.append(">");
            },
            ElementVariant::Void => {
                writer.append("/>");
            },
        }
        assert(writer@ =~= w0 + element_html(*self));
    }
}

} // verus!
