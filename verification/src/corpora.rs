//! Records of a morpheme corpus.

use vstd::prelude::*;

verus! {

/// One morpheme as a corpus lists it.
#[derive(Debug)]
pub struct Morpheme {
    /// The surface form.
    pub term: String,
    /// The label of its part of speech.
    pub tag: String,
    /// The category it is filed under, if any.
    pub category: Option<String>,
}

} // verus!
