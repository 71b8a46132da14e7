//! String values held by the tree: attribute values and text.
use crate::dom::vecmap::MapKey;
use crate::strs::str_eq;
use std::borrow::Cow;
use vstd::prelude::*;

verus! {

/// The characters of a borrowed-or-owned string.
pub fn cow_str<'b>(c: &'b Cow<'_, str>) -> (s: &'b str)
    ensures
        s@ == c@,
{
    match c {
        Cow::Borrowed(b) => b,
        Cow::Owned(o) => o.as_str(),
    }
}

/// The value of an attribute (or a class name).
#[derive(Default, Debug, PartialEq, Eq)]
pub struct Attribute<'a>(pub Cow<'a, str>);

impl<'a> View for Attribute<'a> {
    type V = Seq<char>;

    open spec fn view(&self) -> Seq<char> {
        self.0@
    }
}

impl<'a> Attribute<'a> {
    pub fn as_str(&self) -> (s: &str)
        ensures
            s@ == self@,
    {
        cow_str(&self.0)
    }
}

impl<'a> std::ops::Deref for Attribute<'a> {
    type Target = str;

    fn deref(&self) -> (s: &str)
        ensures
            s@ == self@,
    {
        self.as_str()
    }
}

impl<'a> MapKey for Attribute<'a> {
    open spec fn key_view(&self) -> Seq<char> {
        self@
    }

    fn key_str(&self) -> (s: &str) {
        self.as_str()
    }
}


impl<'a> PartialEq<str> for Attribute<'a> {
    fn eq(&self, other: &str) -> (r: bool) {
        str_eq(self.as_str(), other)
    }
}

impl<'a> vstd::std_specs::cmp::PartialEqSpecImpl<str> for Attribute<'a> {
    open spec fn obeys_eq_spec() -> bool {
        true
    }

    open spec fn eq_spec(&self, other: &str) -> bool {
        self@ == other@
    }
}

impl<'a, 'b> PartialEq<&'b str> for Attribute<'a> {
    fn eq(&self, other: &&'b str) -> (r: bool) {
        str_eq(self.as_str(), *other)
    }
}

impl<'a, 'b> vstd::std_specs::cmp::PartialEqSpecImpl<&'b str> for Attribute<'a> {
    open spec fn obeys_eq_spec() -> bool {
        true
    }

    open spec fn eq_spec(&self, other: &&'b str) -> bool {
        self@ == (*other)@
    }
}

impl<'a, 'b> PartialEq<str> for &'b Attribute<'a> {
    fn eq(&self, other: &str) -> (r: bool) {
        str_eq(self.as_str(), other)
    }
}

impl<'a, 'b> vstd::std_specs::cmp::PartialEqSpecImpl<str> for &'b Attribute<'a> {
    open spec fn obeys_eq_spec() -> bool {
        true
    }

    open spec fn eq_spec(&self, other: &str) -> bool {
        (**self)@ == other@
    }
}

impl From<&'static str> for Attribute<'static> {
    fn from(value: &'static str) -> (r: Self) {
        Attribute(Cow::Borrowed(value))
    }
}

impl vstd::std_specs::convert::FromSpecImpl<&'static str> for Attribute<'static> {
    open spec fn obeys_from_spec() -> bool {
        true
    }

    open spec fn from_spec(v: &'static str) -> Self {
        Attribute(Cow::Borrowed(v))
    }
}

impl From<String> for Attribute<'static> {
    fn from(value: String) -> (r: Self) {
        Attribute(Cow::Owned(value))
    }
}

impl vstd::std_specs::convert::FromSpecImpl<String> for Attribute<'static> {
    open spec fn obeys_from_spec() -> bool {
        true
    }

    open spec fn from_spec(v: String) -> Self {
        Attribute(Cow::Owned(v))
    }
}

/// A run of text, or the body of a comment.
#[derive(Default, Debug, PartialEq, Eq)]
pub struct Text<'a>(pub Cow<'a, str>);

impl<'a> View for Text<'a> {
    type V = Seq<char>;

    open spec fn view(&self) -> Seq<char> {
        self.0@
    }
}

impl<'a> Text<'a> {
    pub fn as_str(&self) -> (s: &str)
        ensures
            s@ == self@,
    {
        cow_str(&self.0)
    }
}

impl<'a> std::ops::Deref for Text<'a> {
    type Target = str;

    fn deref(&self) -> (s: &str)
        ensures
            s@ == self@,
    {
        self.as_str()
    }
}


impl<'a> PartialEq<str> for Text<'a> {
    fn eq(&self, other: &str) -> (r: bool) {
        str_eq(self.as_str(), other)
    }
}

impl<'a> vstd::std_specs::cmp::PartialEqSpecImpl<str> for Text<'a> {
    open spec fn obeys_eq_spec() -> bool {
        true
    }

    open spec fn eq_spec(&self, other: &str) -> bool {
        self@ == other@
    }
}

impl<'a, 'b> PartialEq<&'b str> for Text<'a> {
    fn eq(&self, other: &&'b str) -> (r: bool) {
        str_eq(self.as_str(), *other)
    }
}

impl<'a, 'b> vstd::std_specs::cmp::PartialEqSpecImpl<&'b str> for Text<'a> {
    open spec fn obeys_eq_spec() -> bool {
        true
    }

    open spec fn eq_spec(&self, other: &&'b str) -> bool {
        self@ == (*other)@
    }
}

impl<'a, 'b> PartialEq<str> for &'b Text<'a> {
    fn eq(&self, other: &str) -> (r: bool) {
        str_eq(self.as_str(), other)
    }
}

impl<'a, 'b> vstd::std_specs::cmp::PartialEqSpecImpl<str> for &'b Text<'a> {
    open spec fn obeys_eq_spec() -> bool {
        true
    }

    open spec fn eq_spec(&self, other: &str) -> bool {
        (**self)@ == other@
    }
}

impl From<&'static str> for Text<'static> {
    fn from(value: &'static str) -> (r: Self) {
        Text(Cow::Borrowed(value))
    }
}

impl vstd::std_specs::convert::FromSpecImpl<&'static str> for Text<'static> {
    open spec fn obeys_from_spec() -> bool {
        true
    }

    open spec fn from_spec(v: &'static str) -> Self {
        Text(Cow::Borrowed(v))
    }
}

impl From<String> for Text<'static> {
    fn from(value: String) -> (r: Self) {
        Text(Cow::Owned(value))
    }
}

impl vstd::std_specs::convert::FromSpecImpl<String> for Text<'static> {
    open spec fn obeys_from_spec() -> bool {
        true
    }

    open spec fn from_spec(v: String) -> Self {
        Text(Cow::Owned(v))
    }
}

} // verus!
