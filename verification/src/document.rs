//! The playlist document: an opaque structured value with a date attribute
//! and value equality, used by the store's conflict detection.

use vstd::prelude::*;

verus! {

/// One day's schedule. The internal structure of the encoded document is
/// out of scope here: the store only needs the `date` attribute and value
/// equality, so the rest of the document travels as an opaque text body.
#[derive(Debug)]
pub struct PlaylistDocument {
    /// The calendar date this document belongs to, `YYYY-MM-DD`.
    pub date: String,
    /// The encoded remainder of the document, compared by value only.
    pub body: String,
}

/// The mathematical value of a document: its two fields as character
/// sequences.
pub struct DocView {
    pub date: Seq<char>,
    pub body: Seq<char>,
}

impl View for PlaylistDocument {
    type V = DocView;

    open spec fn view(&self) -> DocView {
        DocView { date: self.date@, body: self.body@ }
    }
}

impl PlaylistDocument {
    pub fn new(date: String, body: String) -> (r: PlaylistDocument)
        ensures
            r@ == (DocView { date: date@, body: body@ }),
    {
        PlaylistDocument { date, body }
    }

    /// A fresh document with the same value.
    pub fn duplicate(&self) -> (r: PlaylistDocument)
        ensures
            r@ == self@,
    {
        PlaylistDocument { date: self.date.clone(), body: self.body.clone() }
    }
}

impl PartialEq for PlaylistDocument {
    fn eq(&self, other: &Self) -> bool {
        self.date == other.date && self.body == other.body
    }
}

impl vstd::std_specs::cmp::PartialEqSpecImpl for PlaylistDocument {
    open spec fn obeys_eq_spec() -> bool {
        true
    }

    open spec fn eq_spec(&self, other: &Self) -> bool {
        self@ == other@
    }
}

} // verus!
