//! Names of units, compared by their text.
use crate::text::owned;
use vstd::prelude::*;

verus! {

/// The name of a unit.
#[derive(Clone, Hash, Debug)]
pub struct Name {
    pub string: String,
}

impl View for Name {
    type V = Seq<char>;

    open spec fn view(&self) -> Seq<char> {
        self.string@
    }
}

impl Name {
    /// The name with the given text.
    pub fn new(s: &str) -> (r: Self)
        ensures
            r@ == s@,
    {
        Name { string: owned(s) }
    }

    /// The text of the name.
    pub fn to_string(&self) -> (r: String)
        ensures
            r@ == self@,
    {
        self.string.clone()
    }

    /// The text of the name, borrowed.
    pub fn as_str(&self) -> (r: &str)
        ensures
            r@ == self@,
    {
        self.string.as_str()
    }

    /// A copy of the name.
    pub fn duplicate(&self) -> (r: Self)
        ensures
            r@ == self@,
            r == *self,
    {
        Name { string: self.string.clone() }
    }

    /// The empty name.
    pub fn empty() -> (r: Self)
        ensures
            r@ == Seq::<char>::empty(),
    {
        Name { string: String::new() }
    }
}

impl PartialEq for Name {
    fn eq(&self, other: &Self) -> (r: bool) {
        self.string == other.string
    }
}

impl vstd::std_specs::cmp::PartialEqSpecImpl for Name {
    open spec fn obeys_eq_spec() -> bool {
        true
    }

    open spec fn eq_spec(&self, other: &Self) -> bool {
        self.string@ == other.string@
    }
}

impl Eq for Name {

}

impl From<String> for Name {
    fn from(value: String) -> (r: Self) {
        Name { string: value }
    }
}

impl vstd::std_specs::convert::FromSpecImpl<String> for Name {
    open spec fn obeys_from_spec() -> bool {
        true
    }

    open spec fn from_spec(v: String) -> Name {
        Name { string: v }
    }
}

impl From<&str> for Name {
    /// The name with the given text.
    fn from(value: &str) -> (r: Self)
        ensures
            r@ == value@,
    {
        Name::new(value)
    }
}

impl vstd::std_specs::convert::FromSpecImpl<&str> for Name {
    /// Two owned strings with one text need not be one value in specifications,
    /// so the conversion is stated by the text of its result, on `from` itself.
    open spec fn obeys_from_spec() -> bool {
        false
    }

    /// A name whose text is the given text.
    open spec fn from_spec(v: &str) -> Name {
        Name { string: choose|s: String| s@ == v@ }
    }
}

impl From<&Name> for Name {
    /// A copy of the name.
    fn from(value: &Name) -> (r: Self)
        ensures
            r@ == value@,
    {
        value.duplicate()
    }
}

impl vstd::std_specs::convert::FromSpecImpl<&Name> for Name {
    open spec fn obeys_from_spec() -> bool {
        true
    }

    open spec fn from_spec(v: &Name) -> Name {
        *v
    }
}

} // verus!
