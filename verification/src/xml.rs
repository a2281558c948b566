//! An XML document as a stream of events.

use quick_xml::events::Event;
use vstd::prelude::*;

use crate::chars::opt_text;

verus! {

/// `quick_xml::Reader`: a document being read.
#[verifier::external_type_specification]
#[verifier::external_body]
#[verifier::reject_recursive_types(R)]
pub struct ExReader<R>(quick_xml::Reader<R>);

/// One step through a document.
#[derive(Debug)]
pub enum XmlEvent {
    /// An element opens. Its name and its attributes' names without prefixes;
    /// an attribute that cannot be read is `None`.
    Start { name: String, attributes: Vec<Option<(Vec<u8>, Vec<u8>)>> },
    End { name: String },
    /// Character data, where it can be decoded.
    Text(Option<String>),
    /// A comment, a declaration, an empty element and the like.
    Other,
}

/// An event, as contracts speak of it.
pub enum XmlStep {
    Start { name: Seq<char>, attributes: Seq<Option<(Seq<u8>, Seq<u8>)>> },
    End { name: Seq<char> },
    Text(Option<Seq<char>>),
    Other,
}

pub open spec fn attribute_view(a: Option<(Vec<u8>, Vec<u8>)>) -> Option<(Seq<u8>, Seq<u8>)> {
    match a {
        Some((k, v)) => Some((k@, v@)),
        None => None,
    }
}

impl XmlEvent {
    pub open spec fn view(&self) -> XmlStep {
        match self {
            XmlEvent::Start { name, attributes } => XmlStep::Start {
                name: name@,
                attributes: attributes@.map_values(
                    |a: Option<(Vec<u8>, Vec<u8>)>| attribute_view(a),
                ),
            },
            XmlEvent::End { name } => XmlStep::End { name: name@ },
            XmlEvent::Text(t) => XmlStep::Text(opt_text(*t)),
            XmlEvent::Other => XmlStep::Other,
        }
    }
}

/// The events of a document, up to its end or the first fault in it.
pub uninterp spec fn xml_events(xml: Seq<char>) -> Seq<XmlStep>;

/// The events that a reader has still to give.
pub uninterp spec fn coming(reader: quick_xml::Reader<&[u8]>) -> Seq<XmlStep>;

/// `quick_xml::Reader::from_str`: a reader at the start of a document.
#[verifier::external_body]
pub(crate) fn open_xml(xml: &str) -> (r: quick_xml::Reader<&[u8]>)
    ensures
        coming(r) == xml_events(xml@),
{
    quick_xml::Reader::from_str(xml)
}

/// `quick_xml::Reader::read_event_into`: the next event, and nothing at the end of
/// the document or at the first fault in it.
#[verifier::external_body]
pub(crate) fn next_event(reader: &mut quick_xml::Reader<&[u8]>) -> (r: Option<XmlEvent>)
    ensures
        match r {
            Some(e) => coming(*old(reader)).len() > 0 && e@ == coming(*old(reader))[0] && coming(
                *final(reader),
            ) == coming(*old(reader)).skip(1),
            None => coming(*old(reader)).len() == 0,
        },
{
    Some(match reader.read_event_into(&mut Vec::new()).ok()? {
        Event::Eof => return None,
        Event::Start(s) => XmlEvent::Start {
            name: String::from_utf8_lossy(s.local_name().as_ref()).into_owned(),
            attributes: s.attributes().map(|a| a.ok().map(|a|
                (a.key.local_name().as_ref().to_vec(), a.value.to_vec()))).collect(),
        },
        Event::End(e) => XmlEvent::End {
            name: String::from_utf8_lossy(e.local_name().as_ref()).into_owned(),
        },
        Event::Text(t) => XmlEvent::Text(t.decode().ok().map(|c| c.into_owned())),
        _ => XmlEvent::Other,
    })
}

} // verus!
