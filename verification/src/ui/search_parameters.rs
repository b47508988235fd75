//! What a search asks for: keywords and tags.
use vstd::prelude::*;

verus! {

/// The keywords and tags of a search.
pub struct SearchParameters {
    pub keywords: Vec<String>,
    pub tags: Vec<String>,
}

impl SearchParameters {
    /// A search for nothing in particular: no keywords, no tags.
    pub fn new() -> (r: Self)
        ensures
            r.keywords@.len() == 0,
            r.tags@.len() == 0,
    {
        SearchParameters { keywords: Vec::new(), tags: Vec::new() }
    }
}

} // verus!
