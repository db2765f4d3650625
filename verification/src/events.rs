//! The event stream of an XML document, as the `quick_xml` reader delivers it.

use quick_xml::events::Event;
use quick_xml::Reader;
use vstd::prelude::*;

verus! {

/// One step of the traversal of a document.
pub enum XmlEvent {
    /// An opening tag, with its name.
    Start(String),
    /// Character data directly inside the current element, unescaped.
    Text(String),
    /// A closing tag.
    End,
    /// Anything the conversion passes over: an empty-element tag, a comment, a
    /// CDATA section, a declaration, a processing instruction, a doctype.
    Other,
    /// A text directly inside the current element that cannot be unescaped, with the
    /// byte offset up to which the document was read.
    BadText(usize),
    /// The end of the document.
    Eof,
    /// The document is malformed at this byte offset.
    Error(usize),
}

/// What an [`XmlEvent`] says, over mathematical text.
pub enum XmlEventView {
    Start(Seq<char>),
    Text(Seq<char>),
    End,
    Other,
    BadText(nat),
    Eof,
    Error(nat),
}

impl XmlEventView {
    /// Whether the reader has nothing more to deliver after this event: it is at the
    /// end of the document, or it has found the document malformed.
    pub open spec fn ends_stream(self) -> bool {
        self is Eof || self is Error
    }

    /// Whether the walk over a document stops at this event: where the reader has
    /// nothing more to deliver, and at a text that cannot be unescaped.
    pub open spec fn stops_walk(self) -> bool {
        self.ends_stream() || self is BadText
    }
}

impl View for XmlEvent {
    type V = XmlEventView;

    open spec fn view(&self) -> XmlEventView {
        match self {
            XmlEvent::Start(name) => XmlEventView::Start(name@),
            XmlEvent::Text(text) => XmlEventView::Text(text@),
            XmlEvent::End => XmlEventView::End,
            XmlEvent::Other => XmlEventView::Other,
            XmlEvent::BadText(at) => XmlEventView::BadText(*at as nat),
            XmlEvent::Eof => XmlEventView::Eof,
            XmlEvent::Error(at) => XmlEventView::Error(*at as nat),
        }
    }
}

/// The views of a sequence of events.
pub open spec fn event_views(events: Seq<XmlEvent>) -> Seq<XmlEventView> {
    events.map_values(|e: XmlEvent| e@)
}

/// Whether the walk over `events` has met an event at which it stops.
pub open spec fn halted(events: Seq<XmlEventView>) -> bool
    decreases events.len(),
{
    events.len() > 0 && (halted(events.drop_last()) || events.last().stops_walk())
}

/// The events of `events` that the walk meets: all up to and including the first at
/// which it stops.
pub open spec fn walked(events: Seq<XmlEventView>) -> Seq<XmlEventView>
    decreases events.len(),
{
    if events.len() > 0 && halted(events.drop_last()) {
        walked(events.drop_last())
    } else {
        events
    }
}

/// A walk that has stopped stays stopped, whatever follows.
pub proof fn lemma_halted_stays(events: Seq<XmlEventView>, more: Seq<XmlEventView>)
    requires
        halted(events),
    ensures
        halted(events + more),
    decreases more.len(),
{
    if more.len() == 0 {
        assert(events + more =~= events);
    } else {
        lemma_halted_stays(events, more.drop_last());
        assert((events + more).drop_last() =~= events + more.drop_last());
    }
}

/// Where `events` ends with the first event at which the walk stops, the walk meets
/// just `events`, whatever follows.
pub proof fn lemma_walked_to_first_stop(events: Seq<XmlEventView>, more: Seq<XmlEventView>)
    requires
        events.len() > 0,
        !halted(events.drop_last()),
        events.last().stops_walk(),
    ensures
        walked(events + more) == events,
    decreases more.len(),
{
    if more.len() == 0 {
        assert(events + more =~= events);
    } else {
        lemma_walked_to_first_stop(events, more.drop_last());
        lemma_halted_stays(events, more.drop_last());
        assert((events + more).drop_last() =~= events + more.drop_last());
    }
}

/// A `quick_xml::Reader` over a document held in memory.
#[verifier::external_body]
pub struct EventReader<'a> {
    inner: Reader<&'a [u8]>,
}

/// The events that a whitespace-trimming reader delivers for the document `xml`, from
/// its start up to and including the end of the document or the first place where the
/// reader finds it malformed.
pub uninterp spec fn document_events(xml: Seq<char>) -> Seq<XmlEventView>;

/// The events that `reader` has yet to deliver, up to and including the end of the
/// document or the first place where it finds the document malformed; none once that
/// one was delivered.
pub uninterp spec fn pending_events(reader: EventReader) -> Seq<XmlEventView>;

/// `Reader::from_str`, with `trim_text` switched on: a reader at the start of `xml`.
/// Every document has at least one event to deliver, the end of the document.
#[verifier::external_body]
fn trimming_reader<'a>(xml: &'a str) -> (reader: EventReader<'a>)
    ensures
        pending_events(reader) == document_events(xml@),
        pending_events(reader).len() > 0,
{
    let mut inner = Reader::from_str(xml);
    inner.trim_text(true);
    EventReader { inner }
}

/// `Reader::read_event`: delivers the next pending event. The name of a start tag is
/// taken by `BytesStart::name`; a text is unescaped by `BytesText::unescape_and_decode`,
/// which leaves the reader as it is, so that a text that cannot be unescaped is an
/// event like any other, with more to follow. That event and an error of the reader
/// carry `Reader::buffer_position`. Nothing is pending once the reader has delivered
/// the end of the document or an error of its own; before that something always is.
#[verifier::external_body]
fn next_event(reader: &mut EventReader) -> (event: XmlEvent)
    requires
        pending_events(*old(reader)).len() > 0,
    ensures
        pending_events(*old(reader)) == seq![event@] + pending_events(*final(reader)),
        event@.ends_stream() <==> pending_events(*final(reader)).len() == 0,
{
    let mut buf = Vec::new();
    match reader.inner.read_event(&mut buf) {
        Ok(Event::Start(e)) => XmlEvent::Start(String::from_utf8_lossy(e.name()).into_owned()),
        Ok(Event::Text(e)) => match e.unescape_and_decode(&reader.inner) {
            Ok(text) => XmlEvent::Text(text),
            Err(_) => XmlEvent::BadText(reader.inner.buffer_position()),
        },
        Ok(Event::End(_)) => XmlEvent::End,
        Ok(Event::Eof) => XmlEvent::Eof,
        Ok(_) => XmlEvent::Other,
        Err(_) => XmlEvent::Error(reader.inner.buffer_position()),
    }
}

/// Reads the events of the document `xml` as far as the walk goes: up to and including
/// the end of the document, the first place where the document is malformed, or the
/// first text that cannot be unescaped.
pub fn read_events(xml: &str) -> (events: Vec<XmlEvent>)
    ensures
        event_views(events@) == walked(document_events(xml@)),
{
    let mut reader = trimming_reader(xml);
    let mut events: Vec<XmlEvent> = Vec::new();
    proof {
        assert(event_views(events@) + pending_events(reader) =~= document_events(xml@));
    }
    loop
        invariant_except_break
            pending_events(reader).len() > 0,
            event_views(events@) + pending_events(reader) == document_events(xml@),
            !halted(event_views(events@)),
        ensures
            event_views(events@) == walked(document_events(xml@)),
        decreases pending_events(reader).len(),
    {
        let ghost before = event_views(events@);
        let ghost pending = pending_events(reader);
        let event = next_event(&mut reader);
        let stop = match event {
            XmlEvent::BadText(_) => true,
            XmlEvent::Eof => true,
            XmlEvent::Error(_) => true,
            _ => false,
        };
        events.push(event);
        proof {
            let read = event_views(events@);
            assert(read =~= before.push(event@));
            assert(read.drop_last() =~= before);
            assert(read + pending_events(reader) =~= before + pending);
            if stop {
                lemma_walked_to_first_stop(read, pending_events(reader));
            }
        }
        if stop {
            break;
        }
    }
    events
}

} // verus!
