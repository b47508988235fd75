//! The key bindings shown at the bottom of the screen.
use vstd::prelude::*;

verus! {

/// A key and what it does.
pub struct Binding {
    key: String,
    description: String,
}

impl Binding {
    /// The key's name.
    pub closed spec fn key_view(&self) -> Seq<char> {
        self.key@
    }

    /// What the key does.
    pub closed spec fn description_view(&self) -> Seq<char> {
        self.description@
    }

    pub fn new(key: &str, description: &str) -> (r: Self)
        ensures
            r.key_view() == key@,
            r.description_view() == description@,
    {
        Binding { key: key.to_owned(), description: description.to_owned() }
    }

    /// The key's name.
    pub fn key(&self) -> (r: &String)
        ensures
            r@ == self.key_view(),
    {
        &self.key
    }

    /// What the key does.
    pub fn description(&self) -> (r: &String)
        ensures
            r@ == self.description_view(),
    {
        &self.description
    }
}

} // verus!
