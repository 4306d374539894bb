//! Reading a document from text: the markup tokenizer of the `xml` crate
//! supplies the events, from which the tree is built.
use vstd::prelude::*;
use xml::reader::XmlEvent::{
    CData, Characters, Comment, EndDocument, EndElement, ProcessingInstruction, StartDocument, StartElement,
    Whitespace,
};
use crate::node::{build_spec, BuildError, ParseEvent, XmlNode};
use crate::node::ParseEvent as P;

verus! {

/// A tokenizer event of the `xml` crate, carried from the tokenizer to the
/// conversion below.
#[verifier::external_type_specification]
#[verifier::external_body]
pub struct ExXmlEvent(xml::reader::XmlEvent);

/// The events that the `xml` crate's tokenizer, in its default configuration,
/// gives for the document `s`: a function of the text alone.
pub uninterp spec fn events_of(s: Seq<char>) -> Seq<ParseEvent>;

/// Relies on `xml::reader::EventReader::from_str` and its iterator, which
/// stops after the first end-of-document event or error: the events of `s`
/// in document order, each moved into a `ParseEvent` (local names, attribute
/// values, texts, or the error).
#[verifier::external_body]
fn read_events(s: &str) -> (r: Vec<P>)
    ensures
        r@ == events_of(s@),
{
    xml::reader::EventReader::from_str(s).into_iter().map(|r| r.map_or_else(P::Error, |ev| match ev {
        StartElement { name, attributes, .. } => P::StartElement {
            name: name.local_name,
            attributes: attributes.into_iter().map(|a| (a.name.local_name, a.value)).collect(),
        },
        EndElement { name } => P::EndElement { name: name.local_name },
        Characters(t) => P::Characters(t),
        CData(t) => P::CData(t),
        Whitespace(t) => P::Whitespace(t),
        Comment(t) => P::Comment(t),
        StartDocument { .. } => P::StartDocument,
        EndDocument => P::EndDocument,
        ProcessingInstruction { .. } => P::ProcessingInstruction,
    })).collect()
}

/// The tokenizer events of the document `s`, in document order.
pub fn tokenize(s: &str) -> (r: Vec<ParseEvent>)
    ensures
        r@ == events_of(s@),
{
    read_events(s)
}

impl XmlNode {
    /// Tokenizes the document `s` and builds its tree: the result is what
    /// `build` makes of the tokenizer's events.
    pub fn from_str(s: &str) -> (r: Result<XmlNode, BuildError>)
        ensures
            match (r, build_spec(events_of(s@))) {
                (Ok(n), Ok(m)) => n@ == m,
                (Err(e), Err(f)) => e == f,
                _ => false,
            },
    {
        XmlNode::build(tokenize(s))
    }
}

} // verus!
