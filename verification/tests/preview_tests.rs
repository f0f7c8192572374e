use face_auth_core::capture::IrFrame;
use face_auth_core::preview::{
    frame_event, frame_to_rgba, latest_events, PreviewEvent, PreviewFrame, PreviewState,
};

#[test]
fn rgba_is_opaque_grey_from_the_high_byte() {
    let f = IrFrame { data: vec![0x1234, 0xff00], width: 2, height: 1 };
    assert_eq!(frame_to_rgba(&f), vec![0x12, 0x12, 0x12, 255, 0xff, 0xff, 0xff, 255]);
}

#[test]
fn missing_samples_are_painted_black() {
    let f = IrFrame { data: vec![0x8000], width: 2, height: 1 };
    assert_eq!(frame_to_rgba(&f), vec![0x80, 0x80, 0x80, 255, 0, 0, 0, 255]);
}

#[test]
fn frame_events_carry_the_badge() {
    let f = IrFrame { data: vec![0; 4], width: 2, height: 2 };
    match frame_event(&f, true) {
        PreviewEvent::Frame(p) => {
            assert_eq!((p.width, p.height, p.face_detected), (2, 2, true));
            assert_eq!(p.data.len(), 16);
        }
        PreviewEvent::Unavailable(_) => panic!("expected a frame"),
    }
}

#[test]
fn preview_state_tracks_the_detector() {
    let mut s = PreviewState::new();
    assert!(!s.camera_open && !s.face_detected);
    s.on_opened();
    assert!(s.camera_open);
    assert!(s.on_frame(Some(Ok(true))));
    assert!(s.on_frame(None));
    assert!(!s.on_frame(Some(Err(()))));
    assert!(s.on_frame(Some(Ok(true))));
    assert!(!s.on_no_content());
    assert!(s.camera_open);
    s.on_capture_failed();
    assert!(!s.camera_open && !s.face_detected);
}

fn frame(n: u8) -> PreviewEvent {
    PreviewEvent::Frame(PreviewFrame { data: vec![n], width: 1, height: 1, face_detected: false })
}

#[test]
fn only_the_newest_events_are_kept() {
    let events = vec![
        frame(1),
        PreviewEvent::Unavailable("first".to_string()),
        frame(2),
        PreviewEvent::Unavailable("second".to_string()),
        frame(3),
    ];
    let (f, m) = latest_events(events);
    assert_eq!(f.unwrap().data, vec![3]);
    assert_eq!(m.unwrap(), "second");
    let (f, m) = latest_events(Vec::new());
    assert!(f.is_none() && m.is_none());
}
