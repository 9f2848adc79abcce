use vstd::prelude::*;

verus! {

/// Unique identifier for a cord.
#[derive(Debug, Hash)]
pub struct CordId(pub String);

/// The name of the primary cord, which every quipu has.
pub open spec fn primary_name() -> Seq<char> {
    "primary"@
}

impl CordId {
    /// An identifier with the given name.
    pub fn new(s: &str) -> (id: CordId)
        ensures
            id.0@ == s@,
    {
        CordId(s.to_owned())
    }

    /// The identifier as text: its name.
    pub fn to_string(&self) -> (s: String)
        ensures
            s@ == self.0@,
    {
        self.0.clone()
    }

    /// Whether this identifier names the primary cord.
    pub fn is_primary(&self) -> (b: bool)
        ensures
            b == (self.0@ == primary_name()),
    {
        self.0 == "primary".to_owned()
    }
}

impl Clone for CordId {
    fn clone(&self) -> (c: Self)
        ensures
            c == *self,
    {
        CordId(self.0.clone())
    }
}

impl PartialEq for CordId {
    fn eq(&self, other: &Self) -> (r: bool) {
        self.0 == other.0
    }
}

impl Eq for CordId {

}

impl vstd::std_specs::cmp::PartialEqSpecImpl for CordId {
    open spec fn obeys_eq_spec() -> bool {
        true
    }

    open spec fn eq_spec(&self, other: &Self) -> bool {
        self.0@ == other.0@
    }
}

} // verus!
