use vstd::prelude::*;

verus! {

/// Why the links of a topic could not be had.
#[derive(Debug)]
pub enum LinkError {
    /// The page of the named topic could not be fetched; the text says why.
    Fetch(String, String),
    /// The page of the named topic could not be read as markup.
    Parse(String),
}

/// Why a search for a ladder failed.
#[derive(Debug)]
pub enum LadderError {
    /// Every ladder reachable from the start topic was explored.
    NotFound,
    /// The link provider failed; the search stopped there.
    Links(LinkError),
}

impl LinkError {
    /// The topic whose links could not be had.
    pub open spec fn topic(&self) -> Seq<char> {
        match self {
            LinkError::Fetch(t, _) => t@,
            LinkError::Parse(t) => t@,
        }
    }
}

} // verus!
