use face_auth_core::pam::{
    check_session_origin, final_status, is_local_rhost, status_text, verify_exit_code, ScanStatus,
};

#[test]
fn local_hosts_are_recognised() {
    assert!(is_local_rhost(""));
    assert!(is_local_rhost("  "));
    assert!(is_local_rhost("localhost"));
    assert!(is_local_rhost(" localhost.localdomain\n"));
    assert!(is_local_rhost("::1"));
    assert!(is_local_rhost("127.0.0.1"));
    assert!(is_local_rhost("127.1.2.3"));
    assert!(!is_local_rhost("127"));
    assert!(!is_local_rhost("10.0.0.5"));
    assert!(!is_local_rhost("example.org"));
    assert!(!is_local_rhost("localhostx"));
}

#[test]
fn remote_sessions_are_refused() {
    assert_eq!(check_session_origin(None), Ok(()));
    assert_eq!(check_session_origin(Some("localhost")), Ok(()));
    assert_eq!(
        check_session_origin(Some(" 10.0.0.5 ")),
        Err("remote session from 10.0.0.5".to_string())
    );
}

#[test]
fn status_file_texts() {
    assert_eq!(status_text(ScanStatus::Scanning), "scanning");
    assert_eq!(status_text(ScanStatus::Matched), "ok");
    assert_eq!(status_text(ScanStatus::Fail), "fail");
    assert_eq!(final_status(Some(true)), ScanStatus::Matched);
    assert_eq!(final_status(Some(false)), ScanStatus::Fail);
    assert_eq!(final_status(None), ScanStatus::Fail);
}

#[test]
fn verify_exit_codes() {
    assert_eq!(verify_exit_code(Some(true)), 0);
    assert_eq!(verify_exit_code(Some(false)), 1);
    assert_eq!(verify_exit_code(None), 2);
}
