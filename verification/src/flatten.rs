//! The depth-first walk that turns a document into candidate metrics.

use crate::events::{
    document_events, event_views, halted, read_events, walked, XmlEvent, XmlEventView,
};
use crate::name::{metric_name, xml_path_to_metric_name};
use crate::text::texts;
use vstd::prelude::*;

verus! {

/// A text found directly inside an element, under the metric name of that element.
pub struct Candidate {
    pub name: String,
    pub text: String,
}

/// What a [`Candidate`] holds, as mathematical text.
pub struct CandidateView {
    pub name: Seq<char>,
    pub text: Seq<char>,
}

impl View for Candidate {
    type V = CandidateView;

    open spec fn view(&self) -> CandidateView {
        CandidateView { name: self.name@, text: self.text@ }
    }
}

/// The views of a sequence of candidates.
pub open spec fn candidate_views(candidates: Seq<Candidate>) -> Seq<CandidateView> {
    candidates.map_values(|c: Candidate| c@)
}

/// What a walk over a document yields.
pub struct Flattened {
    /// The candidates, in document order.
    pub candidates: Vec<Candidate>,
    /// The byte offset at which the document proved malformed, if it did.
    pub error_at: Option<usize>,
}

/// The tags that are open after `events`, root first: an opening tag enters its
/// element, a closing tag leaves the innermost one.
pub open spec fn path_after(events: Seq<XmlEventView>) -> Seq<Seq<char>>
    decreases events.len(),
{
    if events.len() == 0 {
        Seq::empty()
    } else {
        let path = path_after(events.drop_last());
        match events.last() {
            XmlEventView::Start(name) => path.push(name),
            XmlEventView::End => if path.len() > 0 {
                path.drop_last()
            } else {
                path
            },
            _ => path,
        }
    }
}

/// The candidates of `events`: one for each text met before the walk halts, named
/// after the tags open at that point.
pub open spec fn candidates_of(events: Seq<XmlEventView>) -> Seq<CandidateView>
    decreases events.len(),
{
    if events.len() == 0 {
        Seq::empty()
    } else {
        let before = events.drop_last();
        match events.last() {
            XmlEventView::Text(text) if !halted(before) => candidates_of(before).push(
                CandidateView { name: metric_name(path_after(before)), text },
            ),
            _ => candidates_of(before),
        }
    }
}

/// The offset at which the walk over `events` finds the document malformed, if it
/// stops for that reason: at an error of the reader or at a text that cannot be
/// unescaped.
pub open spec fn failure_of(events: Seq<XmlEventView>) -> Option<nat>
    decreases events.len(),
{
    if events.len() == 0 {
        None
    } else {
        let before = events.drop_last();
        match events.last() {
            XmlEventView::Error(at) if !halted(before) => Some(at),
            XmlEventView::BadText(at) if !halted(before) => Some(at),
            _ => failure_of(before),
        }
    }
}

/// Whether `flat` is the outcome of the walk over `events`.
pub open spec fn is_walk_of(flat: Flattened, events: Seq<XmlEventView>) -> bool {
    &&& candidate_views(flat.candidates@) == candidates_of(events)
    &&& match flat.error_at {
        Some(at) => failure_of(events) == Some(at as nat),
        None => failure_of(events) is None,
    }
}

/// What lies behind the event at which the walk stops changes nothing.
pub proof fn lemma_walk_ignores_the_rest(events: Seq<XmlEventView>)
    ensures
        candidates_of(walked(events)) == candidates_of(events),
        failure_of(walked(events)) == failure_of(events),
    decreases events.len(),
{
    if events.len() > 0 && halted(events.drop_last()) {
        lemma_walk_ignores_the_rest(events.drop_last());
    }
}

/// Walks over `events` with a stack of open tags and collects the candidates, up to
/// the first event at which the walk stops.
pub fn flatten_events(events: &Vec<XmlEvent>) -> (flat: Flattened)
    ensures
        is_walk_of(flat, event_views(events@)),
{
    let ghost all = event_views(events@);
    let mut candidates: Vec<Candidate> = Vec::new();
    let mut error_at: Option<usize> = None;
    let mut parent_stack: Vec<String> = Vec::new();
    let mut done = false;
    let n = events.len();
    let mut i: usize = 0;
    while i < n
        invariant
            n == events@.len(),
            i <= n,
            all == event_views(events@),
            done == halted(all.take(i as int)),
            texts(parent_stack@) == path_after(all.take(i as int)),
            candidate_views(candidates@) == candidates_of(all.take(i as int)),
            match error_at {
                Some(at) => failure_of(all.take(i as int)) == Some(at as nat),
                None => failure_of(all.take(i as int)) is None,
            },
        decreases n - i,
    {
        let ghost before = all.take(i as int);
        let ghost stack = texts(parent_stack@);
        let ghost found = candidate_views(candidates@);
        proof {
            assert(all.take(i + 1).drop_last() =~= before);
            assert(all.take(i + 1).last() == events@[i as int]@);
        }
        match &events[i] {
            XmlEvent::Start(name) => {
                parent_stack.push(name.clone());
                proof {
                    assert(texts(parent_stack@) =~= stack.push(name@));
                }
            },
            XmlEvent::Text(text) => {
                if !done {
                    let name = xml_path_to_metric_name(parent_stack.as_slice());
                    candidates.push(Candidate { name, text: text.clone() });
                    proof {
                        assert(candidate_views(candidates@) =~= found.push(
                            CandidateView { name: metric_name(stack), text: text@ },
                        ));
                    }
                }
            },
            XmlEvent::End => {
                if parent_stack.len() > 0 {
                    parent_stack.pop();
                    proof {
                        assert(texts(parent_stack@) =~= stack.drop_last());
                    }
                }
            },
            XmlEvent::Other => {},
            XmlEvent::BadText(at) => {
                if !done {
                    error_at = Some(*at);
                }
                done = true;
            },
            XmlEvent::Eof => {
                done = true;
            },
            XmlEvent::Error(at) => {
                if !done {
                    error_at = Some(*at);
                }
                done = true;
            },
        }
        i += 1;
    }
    proof {
        assert(all.take(n as int) =~= all);
    }
    Flattened { candidates, error_at }
}

/// Parses `xml` and walks over it: the candidates of the document, and where it proved
/// malformed if it did.
pub fn flatten_xml(xml: &str) -> (flat: Flattened)
    ensures
        is_walk_of(flat, document_events(xml@)),
{
    let events = read_events(xml);
    proof {
        lemma_walk_ignores_the_rest(document_events(xml@));
    }
    flatten_events(&events)
}

} // verus!
