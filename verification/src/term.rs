//! The lexical/formatting unit of the markup format.

use vstd::prelude::*;

verus! {

/// One lexical/formatting unit: a tag boundary, a text run, or nothing.
/// Produced transiently by the lexer and by the tree serializer.
#[derive(Debug, PartialEq, Clone)]
pub enum XMLTerm {
    OpeningTag(String),
    ClosingTag(String),
    Text(String),
    Nothing,
}

/// The mathematical value of an [`XMLTerm`]: the same four shapes over
/// character sequences.
pub enum TermV {
    Open(Seq<char>),
    Close(Seq<char>),
    Text(Seq<char>),
    Nothing,
}

impl View for XMLTerm {
    type V = TermV;

    open spec fn view(&self) -> TermV {
        match *self {
            XMLTerm::OpeningTag(ref s) => TermV::Open(s@),
            XMLTerm::ClosingTag(ref s) => TermV::Close(s@),
            XMLTerm::Text(ref s) => TermV::Text(s@),
            XMLTerm::Nothing => TermV::Nothing,
        }
    }
}

/// The character content of a term, if it has any.
pub open spec fn term_content(t: TermV) -> Option<Seq<char>> {
    match t {
        TermV::Open(s) => Some(s),
        TermV::Close(s) => Some(s),
        TermV::Text(s) => Some(s),
        TermV::Nothing => Option::None,
    }
}

impl XMLTerm {
    /// A borrow of the content string of the term, if it has one.
    pub fn get_string(&self) -> (r: Option<&String>)
        ensures
            match term_content(self@) {
                Some(cs) => r matches Some(s) && s@ == cs,
                Option::None => r is None,
            },
    {
        match *self {
            XMLTerm::OpeningTag(ref s) => Some(s),
            XMLTerm::ClosingTag(ref s) => Some(s),
            XMLTerm::Text(ref s) => Some(s),
            XMLTerm::Nothing => None,
        }
    }
}

/// The view of a sequence of terms.
pub open spec fn terms_v(ts: Seq<XMLTerm>) -> Seq<TermV> {
    ts.map_values(|t: XMLTerm| t@)
}

} // verus!
