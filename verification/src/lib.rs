pub mod dom;
pub mod error;
pub mod for_each;
pub mod grammar;
pub mod strs;
pub mod syntax;
pub mod tokenizer;

pub use dom::element::{Element, ElementVariant};
pub use dom::html::{Attribute, Text};
pub use dom::node::Node;
pub use dom::vecmap::VecMap;
pub use dom::vecset::VecSet;
pub use dom::{Dom, DomVariant};
pub use error::Error;
pub use grammar::{Pair, Rule};

use vstd::prelude::*;

verus! {

/// The result of the library's fallible operations.
pub type Result<T> = std::result::Result<T, Error>;

} // verus!
