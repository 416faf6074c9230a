//! The clipboard-capture state machine.
//!
//! The compositor thread feeds data-control events in; the machine decides
//! when to begin fetching a selection's content and with which MIME type.
//! The caller performs the fetch itself (a pipe handed to the compositor and
//! drained on another thread) and delivers the bytes as a `ClipboardEvent`.

use vstd::prelude::*;

verus! {

use crate::text::contains_seq;
use crate::types::{spec_best_mime, select_best_mime_type};

/// Content captured from the compositor, ready for admission.
pub struct ClipboardEvent {
    /// The raw bytes read from the selection.
    pub content: Vec<u8>,
    /// The MIME type the content was requested under.
    pub mime_type: String,
    /// The source application, when known.
    pub source_app: Option<String>,
}

/// The per-selection-cycle state: idle, or collecting the MIME types of a
/// pending offer.
pub struct CaptureState {
    /// Whether an offer is pending (the collecting state).
    pub has_offer: bool,
    /// The MIME types the pending offer has listed so far.
    pub offered_mime_types: Vec<String>,
}

/// One event of the compositor's data-control protocol, as the machine sees
/// it.
pub enum CaptureEvent {
    /// A new offer was introduced.
    DataOffer,
    /// The pending offer listed one MIME type.
    OfferMime(String),
    /// The selection changed to the pending offer.
    SelectionSet,
    /// The selection was cleared.
    SelectionCleared,
    /// The device is no longer valid.
    Finished,
}

/// What the caller must do after an event.
pub enum CaptureAction {
    /// Nothing.
    KeepWaiting,
    /// Create a pipe, ask the compositor for the selection's content under
    /// this MIME type, and drain the pipe on another thread.
    BeginFetch(String),
    /// The capture loop cannot go on; log and exit the thread.
    Fatal,
}

/// Whether a MIME string matches one of the ignore patterns: it does when
/// some pattern occurs in it.
pub open spec fn ignored_mime(patterns: Seq<Seq<char>>, mime: Seq<char>) -> bool {
    exists|i: int| 0 <= i < patterns.len() && contains_seq(mime, #[trigger] patterns[i])
}

/// Whether the MIME string matches one of the ignore patterns.
pub fn mime_is_ignored(patterns: &Vec<String>, mime: &str) -> (b: bool)
    ensures
        b == ignored_mime(patterns.deep_view(), mime@),
{
    let mc = crate::text::str_chars(mime);
    let n = patterns.len();
    let mut i: usize = 0;
    while i < n
        invariant
            0 <= i <= n,
            n == patterns@.len(),
            mc@ == mime@,
            forall|j: int| 0 <= j < i ==> !contains_seq(mime@, #[trigger] patterns.deep_view()[j]),
        decreases n - i,
    {
        let pc = crate::text::str_chars(patterns[i].as_str());
        if crate::text::contains_seq_exec(&mc, &pc) {
            assert(contains_seq(mime@, patterns.deep_view()[i as int]));
            return true;
        }
        i += 1;
    }
    false
}

impl CaptureState {
    /// The idle state: no pending offer.
    pub fn new() -> (s: CaptureState)
        ensures
            !s.has_offer,
            s.offered_mime_types.deep_view() =~= Seq::<Seq<char>>::empty(),
    {
        let s = CaptureState { has_offer: false, offered_mime_types: Vec::new() };
        proof {
            assert(s.offered_mime_types.deep_view() =~= Seq::<Seq<char>>::empty());
        }
        s
    }

    /// Drive the machine by one event.  A new offer starts collecting MIME
    /// types; a listed type is appended; a set selection chooses the
    /// preferred type and begins a fetch, unless nothing usable was offered
    /// or the chosen type matches an ignore pattern; a cleared selection
    /// drops the offer; and a finished device is fatal.
    pub fn on_event(&mut self, event: CaptureEvent, ignore_patterns: &Vec<String>) -> (a:
        CaptureAction)
        ensures
            match event {
                CaptureEvent::DataOffer => final(self).has_offer
                    && final(self).offered_mime_types.deep_view() == Seq::<Seq<char>>::empty()
                    && a == CaptureAction::KeepWaiting,
                CaptureEvent::OfferMime(m) => final(self).has_offer == old(self).has_offer && a
                    == CaptureAction::KeepWaiting && final(self).offered_mime_types.deep_view()
                    == if old(self).has_offer {
                    old(self).offered_mime_types.deep_view().push(m@)
                } else {
                    old(self).offered_mime_types.deep_view()
                },
                CaptureEvent::SelectionSet => !final(self).has_offer && (if old(self).has_offer {
                    match spec_best_mime(old(self).offered_mime_types.deep_view()) {
                        Some(m) => if ignored_mime(ignore_patterns.deep_view(), m) {
                            a == CaptureAction::KeepWaiting
                        } else {
                            a matches CaptureAction::BeginFetch(chosen) && chosen@ == m
                        },
                        None => a == CaptureAction::KeepWaiting,
                    }
                } else {
                    a == CaptureAction::KeepWaiting
                }),
                CaptureEvent::SelectionCleared => !final(self).has_offer && a
                    == CaptureAction::KeepWaiting,
                CaptureEvent::Finished => a == CaptureAction::Fatal && final(self).has_offer == old(
                    self).has_offer && final(self).offered_mime_types == old(
                    self).offered_mime_types,
            },
    {
        match event {
            CaptureEvent::DataOffer => {
                self.has_offer = true;
                self.offered_mime_types = Vec::new();
                proof {
                    assert(self.offered_mime_types.deep_view() =~= Seq::<Seq<char>>::empty());
                }
                CaptureAction::KeepWaiting
            },
            CaptureEvent::OfferMime(m) => {
                if self.has_offer {
                    let ghost before = self.offered_mime_types.deep_view();
                    let ghost mv = m@;
                    self.offered_mime_types.push(m);
                    proof {
                        assert(self.offered_mime_types.deep_view() =~= before.push(mv));
                    }
                }
                CaptureAction::KeepWaiting
            },
            CaptureEvent::SelectionSet => {
                if self.has_offer {
                    self.has_offer = false;
                    match select_best_mime_type(&self.offered_mime_types) {
                        Some(m) => {
                            if mime_is_ignored(ignore_patterns, m.as_str()) {
                                CaptureAction::KeepWaiting
                            } else {
                                CaptureAction::BeginFetch(m)
                            }
                        },
                        None => CaptureAction::KeepWaiting,
                    }
                } else {
                    CaptureAction::KeepWaiting
                }
            },
            CaptureEvent::SelectionCleared => {
                self.has_offer = false;
                CaptureAction::KeepWaiting
            },
            CaptureEvent::Finished => CaptureAction::Fatal,
        }
    }
}

} // verus!
