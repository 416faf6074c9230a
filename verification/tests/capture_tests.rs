//! Capture state machine and MIME selection tests.

use wayclip::capture::{CaptureAction, CaptureEvent, CaptureState};
use wayclip::types::{select_best_mime_type, ContentType, HistoryEntry};

fn offers(mimes: &[&str]) -> Vec<String> {
    mimes.iter().map(|m| m.to_string()).collect()
}

#[test]
fn mime_selection_prefers_images_then_text_then_first() {
    assert_eq!(
        select_best_mime_type(&offers(&["text/plain", "image/png"])),
        Some("image/png".to_string())
    );
    assert_eq!(
        select_best_mime_type(&offers(&["image/jpeg", "image/png"])),
        Some("image/png".to_string())
    );
    assert_eq!(
        select_best_mime_type(&offers(&["STRING", "text/plain"])),
        Some("text/plain".to_string())
    );
    assert_eq!(
        select_best_mime_type(&offers(&["application/x-thing"])),
        Some("application/x-thing".to_string())
    );
    assert_eq!(select_best_mime_type(&offers(&[])), None);
}

#[test]
fn selection_cycle_begins_a_fetch_with_the_preferred_type() {
    let ignore: Vec<String> = Vec::new();
    let mut st = CaptureState::new();
    assert!(matches!(
        st.on_event(CaptureEvent::DataOffer, &ignore),
        CaptureAction::KeepWaiting
    ));
    st.on_event(CaptureEvent::OfferMime("text/plain".to_string()), &ignore);
    st.on_event(CaptureEvent::OfferMime("image/png".to_string()), &ignore);
    match st.on_event(CaptureEvent::SelectionSet, &ignore) {
        CaptureAction::BeginFetch(m) => assert_eq!(m, "image/png"),
        _ => panic!("expected a fetch"),
    }
    assert!(!st.has_offer);
    // Without a fresh offer, a further selection event fetches nothing.
    assert!(matches!(
        st.on_event(CaptureEvent::SelectionSet, &ignore),
        CaptureAction::KeepWaiting
    ));
}

#[test]
fn cleared_selection_drops_the_offer() {
    let ignore: Vec<String> = Vec::new();
    let mut st = CaptureState::new();
    st.on_event(CaptureEvent::DataOffer, &ignore);
    st.on_event(CaptureEvent::OfferMime("text/plain".to_string()), &ignore);
    assert!(matches!(
        st.on_event(CaptureEvent::SelectionCleared, &ignore),
        CaptureAction::KeepWaiting
    ));
    assert!(!st.has_offer);
}

#[test]
fn ignored_mime_patterns_drop_the_capture_silently() {
    let ignore = offers(&["x-kde-passwordManagerHint"]);
    let mut st = CaptureState::new();
    st.on_event(CaptureEvent::DataOffer, &ignore);
    st.on_event(
        CaptureEvent::OfferMime("x-kde-passwordManagerHint".to_string()),
        &ignore,
    );
    assert!(matches!(
        st.on_event(CaptureEvent::SelectionSet, &ignore),
        CaptureAction::KeepWaiting
    ));
}

#[test]
fn finished_device_is_fatal() {
    let ignore: Vec<String> = Vec::new();
    let mut st = CaptureState::new();
    assert!(matches!(
        st.on_event(CaptureEvent::Finished, &ignore),
        CaptureAction::Fatal
    ));
}

#[test]
fn content_type_is_derived_from_the_mime_prefix() {
    assert_eq!(ContentType::from_mime("image/png"), ContentType::Image);
    assert_eq!(ContentType::from_mime("image/webp"), ContentType::Image);
    assert_eq!(ContentType::from_mime("text/plain"), ContentType::Text);
    assert_eq!(ContentType::from_mime("imag"), ContentType::Text);
    assert!(ContentType::Image.is_image());
    assert!(ContentType::Text.is_text());
}

#[test]
fn accessible_description_prefixes_the_kind() {
    let e = HistoryEntry {
        id: 1,
        content_type: ContentType::Text,
        mime_type: "text/plain".to_string(),
        preview: "hi".to_string(),
        byte_size: 2,
        created_at: 0,
        pinned: false,
        thumbnail: None,
    };
    assert_eq!(e.accessible_description(), "Text: hi");
    let e2 = HistoryEntry { content_type: ContentType::Image, ..e };
    assert_eq!(e2.accessible_description(), "Image: hi");
}
