//! The display form and the length signature of a search.

use vstd::prelude::*;

verus! {

/// How a search is shown to the user: the query as it is displayed, and its lengths.
pub struct SearchKey {
    pub search_string: String,
    pub len: String,
}

impl SearchKey {
    /// The query in its display form.
    pub fn search_string(&self) -> (s: &str)
        ensures
            s@ == self.search_string@,
    {
        self.search_string.as_str()
    }

    /// The length signature of the query.
    pub fn search_len(&self) -> (s: &str)
        ensures
            s@ == self.len@,
    {
        self.len.as_str()
    }
}

} // verus!
