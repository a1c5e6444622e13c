//! Parts of speech: a plain named entry with an abbreviation.

use vstd::prelude::*;
use vstd::string::StringExecFns;

verus! {

/// The mathematical content of a part of speech.
pub ghost struct PosView {
    pub name: Seq<char>,
    pub abbr: Seq<char>,
}

/// A part of speech, referenced from words by index.
#[derive(Debug)]
pub struct PoS {
    name: String,
    abbr: String,
}

impl View for PoS {
    type V = PosView;

    closed spec fn view(&self) -> PosView {
        PosView { name: self.name@, abbr: self.abbr@ }
    }
}

impl PoS {
    /// Wrap a name and its abbreviation.
    pub fn new(name: &str, abbr: &str) -> (r: PoS)
        ensures
            r@ == (PosView { name: name@, abbr: abbr@ }),
    {
        PoS { name: String::from_str(name), abbr: String::from_str(abbr) }
    }

    /// The full name.
    pub fn name(&self) -> (r: &str)
        ensures
            r@ == self@.name,
    {
        self.name.as_str()
    }

    /// The abbreviation.
    pub fn abbr(&self) -> (r: &str)
        ensures
            r@ == self@.abbr,
    {
        self.abbr.as_str()
    }
}

} // verus!
