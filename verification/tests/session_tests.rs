use face_auth_core::session::{
    store_for_append, EnrollFailure, EnrollProgress, EnrollState, LoadError, ScanEvent,
    ScanState, ScanStep, MAX_CONSECUTIVE_CAPTURE_ERRORS,
};
use face_auth_core::storage::{EmbeddingStore, StoreError};

#[test]
fn scan_matches_or_times_out() {
    let mut s = ScanState::new();
    assert_eq!(s.next_step(ScanEvent::Captured), ScanStep::Proceed);
    assert_eq!(s.next_step(ScanEvent::NoFace), ScanStep::Retry);
    assert_eq!(s.next_step(ScanEvent::FrameRejected), ScanStep::Retry);
    assert_eq!(s.next_step(ScanEvent::NoMatch), ScanStep::Retry);
    assert_eq!(s.next_step(ScanEvent::Matched), ScanStep::Done(true));
    let mut t = ScanState::new();
    assert_eq!(t.next_step(ScanEvent::DeadlinePassed), ScanStep::Done(false));
}

#[test]
fn scan_gives_up_after_three_capture_failures_in_a_row() {
    assert_eq!(MAX_CONSECUTIVE_CAPTURE_ERRORS, 3);
    let mut s = ScanState::new();
    assert_eq!(s.next_step(ScanEvent::CaptureFailed), ScanStep::Retry);
    assert_eq!(s.next_step(ScanEvent::CaptureFailed), ScanStep::Retry);
    assert_eq!(s.next_step(ScanEvent::CaptureFailed), ScanStep::GiveUp);
}

#[test]
fn a_captured_frame_resets_the_failure_count() {
    let mut s = ScanState::new();
    assert_eq!(s.next_step(ScanEvent::CaptureFailed), ScanStep::Retry);
    assert_eq!(s.next_step(ScanEvent::CaptureFailed), ScanStep::Retry);
    assert_eq!(s.next_step(ScanEvent::Captured), ScanStep::Proceed);
    assert_eq!(s.consecutive_errors, 0);
    assert_eq!(s.next_step(ScanEvent::CaptureFailed), ScanStep::Retry);
    assert_eq!(s.next_step(ScanEvent::CaptureFailed), ScanStep::Retry);
}

#[test]
fn enrolment_counts_attempts_and_captures() {
    let mut e = EnrollState::new(2);
    assert_eq!(e.max_attempts, 6);
    assert!(e.should_continue());
    assert_eq!(
        e.begin_attempt(),
        EnrollProgress::Capturing { captured: 0, wanted: 2, attempt: 1 }
    );
    assert_eq!(e.on_rejected(), EnrollProgress::NoContent);
    assert_eq!(
        e.begin_attempt(),
        EnrollProgress::Capturing { captured: 0, wanted: 2, attempt: 2 }
    );
    assert_eq!(e.on_no_face(), EnrollProgress::NoFace);
    e.begin_attempt();
    assert_eq!(e.on_captured(), (EnrollProgress::Captured { captured: 1, wanted: 2 }, true));
    e.begin_attempt();
    assert_eq!(e.on_captured(), (EnrollProgress::Captured { captured: 2, wanted: 2 }, false));
    assert!(!e.should_continue());
    assert_eq!(e.finish(), Ok(2));
}

#[test]
fn enrolment_stops_after_three_attempts_per_frame() {
    let mut e = EnrollState::new(1);
    let mut n = 0;
    while e.should_continue() {
        e.begin_attempt();
        e.on_no_face();
        n += 1;
    }
    assert_eq!(n, 3);
    assert_eq!(e.finish(), Err(EnrollFailure::NoFaceDetected { attempts: 3 }));
}

#[test]
fn enrolment_reports_unusable_frames() {
    let mut e = EnrollState::new(1);
    e.begin_attempt();
    e.on_rejected();
    e.begin_attempt();
    e.on_no_face();
    assert_eq!(e.finish(), Err(EnrollFailure::NoUsableFrame { attempts: 2 }));
    let huge = EnrollState::new(usize::MAX);
    assert_eq!(huge.max_attempts, usize::MAX);
    assert!(!EnrollState::new(0).should_continue());
}

#[test]
fn append_starts_empty_only_when_nothing_is_enrolled() {
    let mut s = EmbeddingStore::new();
    s.add_embedding(vec![0; 512]);
    let kept = store_for_append(Ok(s)).unwrap();
    assert_eq!(kept.embeddings.len(), 1);
    let fresh = store_for_append(Err(LoadError::NoEmbeddings)).unwrap();
    assert!(fresh.embeddings.is_empty());
    assert!(matches!(store_for_append(Err(LoadError::Unreadable)), Err(LoadError::Unreadable)));
    assert!(matches!(
        store_for_append(Err(LoadError::Corrupt(StoreError::Truncated))),
        Err(LoadError::Corrupt(StoreError::Truncated))
    ));
}

#[test]
fn frames_between_failures_reset_the_count() {
    // Failure, capture, failure, failure: only two in a row, so no give-up.
    let mut s = ScanState::new();
    let events = [
        ScanEvent::CaptureFailed,
        ScanEvent::Captured,
        ScanEvent::NoFace,
        ScanEvent::CaptureFailed,
        ScanEvent::CaptureFailed,
    ];
    for e in events {
        assert_ne!(s.next_step(e), ScanStep::GiveUp);
    }
    assert_eq!(s.consecutive_errors, 2);
}
