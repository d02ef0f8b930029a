//! Identifiers of categories and resources: non-empty strings.

use vstd::prelude::*;
use crate::text::{chars_of, str_eq};

verus! {

/// A category or resource identifier. Its text is never empty.
#[derive(Debug)]
pub struct Id {
    text: String,
}

/// The identifier of a category (a node of a facet tree).
pub type CategoryId = Id;

/// The identifier of a resource.
pub type ResourceId = Id;

impl View for Id {
    type V = Seq<char>;

    closed spec fn view(&self) -> Seq<char> {
        self.text@
    }
}

/// An identifier is valid when its text is not empty; every `Id` that this
/// library hands out is valid.
pub open spec fn valid_id(id: Id) -> bool {
    id@.len() > 0
}

impl PartialEq for Id {
    fn eq(&self, other: &Id) -> (r: bool) {
        self.same(other)
    }
}

impl Eq for Id {
}

impl vstd::std_specs::cmp::PartialEqSpecImpl for Id {
    open spec fn obeys_eq_spec() -> bool {
        true
    }

    open spec fn eq_spec(&self, other: &Id) -> bool {
        self@ == other@
    }
}

impl Clone for Id {
    fn clone(&self) -> (r: Self)
        ensures
            r@ == self@,
    {
        Id { text: self.text.clone() }
    }
}

impl Id {
    /// The identifier with text `s`; `None` when `s` is empty.
    pub fn new(s: &str) -> (r: Option<Id>)
        ensures
            r is Some <==> s@.len() > 0,
            r matches Some(id) ==> id@ == s@,
    {
        let cs = chars_of(s);
        if cs.len() == 0 {
            None
        } else {
            Some(Id { text: String::from_str(s) })
        }
    }

    /// The identifier with text `s`; `None` when `s` is empty.
    pub fn from_string(s: String) -> (r: Option<Id>)
        ensures
            r is Some <==> s@.len() > 0,
            r matches Some(id) ==> id@ == s@,
    {
        let cs = chars_of(s.as_str());
        if cs.len() == 0 {
            None
        } else {
            Some(Id { text: s })
        }
    }

    /// The text of the identifier.
    pub fn as_str(&self) -> (r: &str)
        ensures
            r@ == self@,
    {
        self.text.as_str()
    }

    /// The text of the identifier, as an owned string.
    pub fn to_string(&self) -> (r: String)
        ensures
            r@ == self@,
    {
        self.text.clone()
    }

    /// Whether two identifiers have the same text.
    pub fn same(&self, other: &Id) -> (r: bool)
        ensures
            r == (self@ == other@),
    {
        str_eq(self.text.as_str(), other.text.as_str())
    }
}

} // verus!
