use face_auth_core::gui::{
    account_subtitle, device_index, is_assignment_of, updated_setting_text, PrivilegedAction,
    ENROLL_FRAMES,
};

#[test]
fn matches_only_the_exact_key() {
    assert!(is_assignment_of("threshold = 0.6", "threshold"));
    assert!(is_assignment_of("  threshold=0.6", "threshold"));
    assert!(!is_assignment_of("detector_threshold = 0.5", "threshold"));
    assert!(!is_assignment_of("# threshold = 0.6", "threshold"));
    assert!(!is_assignment_of("threshold_extra = 1", "threshold"));
    assert!(!is_assignment_of("some comment", "threshold"));
}

#[test]
fn save_setting_preserves_other_keys_and_comments() {
    let out = updated_setting_text(
        "# my config\ndevice = \"/dev/video3\"\nthreshold = 0.6\n",
        "threshold",
        "0.80",
    );
    assert!(out.contains("# my config"));
    assert!(out.contains("device = \"/dev/video3\""));
    assert!(out.contains("threshold = 0.80"));
    assert_eq!(out.matches("threshold =").count(), 1);
}

#[test]
fn setting_text_is_exact() {
    assert_eq!(
        updated_setting_text("a = 1\nthreshold = 0.6\nb = 2", "threshold", "0.7"),
        "a = 1\nb = 2\nthreshold = 0.7\n"
    );
    assert_eq!(updated_setting_text("", "device", "\"/dev/video2\""), "device = \"/dev/video2\"\n");
    assert_eq!(
        updated_setting_text("x = 1\r\n", "y", "2"),
        "x = 1\ny = 2\n"
    );
}

#[test]
fn commands_use_absolute_helper_paths() {
    assert_eq!(ENROLL_FRAMES, 5);
    assert_eq!(
        PrivilegedAction::Enroll.command("alice"),
        vec!["/usr/local/bin/face-enroll", "--user", "alice", "--frames", "5"]
    );
    assert_eq!(
        PrivilegedAction::Improve.command("bob"),
        vec!["/usr/local/bin/face-enroll", "--user", "bob", "--frames", "5", "--improve"]
    );
    assert_eq!(
        PrivilegedAction::Test.command("carol"),
        vec!["/usr/local/bin/face-auth", "--verify", "carol"]
    );
}

#[test]
fn describes_known_outcomes() {
    assert_eq!(PrivilegedAction::Test.describe(Some(0), ""), "Face matched");
    assert_eq!(
        PrivilegedAction::Test.describe(Some(1), "noise"),
        "No match — face not recognised"
    );
    assert_eq!(PrivilegedAction::Enroll.describe(Some(0), ""), "Enrolled 5 frames");
    assert_eq!(PrivilegedAction::Improve.describe(Some(0), ""), "Added new captures");
    assert_eq!(
        PrivilegedAction::Enroll.describe(Some(126), "x"),
        "Cancelled — administrator authentication required"
    );
    assert_eq!(
        PrivilegedAction::Test.describe(Some(127), ""),
        "pkexec or the helper binary was not found"
    );
}

#[test]
fn describes_failures_by_their_last_line() {
    assert_eq!(
        PrivilegedAction::Enroll.describe(Some(1), "warming up\n  camera busy  \n"),
        "camera busy"
    );
    assert_eq!(PrivilegedAction::Enroll.describe(Some(3), ""), "Failed (exit 3)");
    assert_eq!(PrivilegedAction::Test.describe(None, ""), "Failed (exit -1)");
    assert_eq!(PrivilegedAction::Improve.describe(Some(2), "a\n   "), "Failed (exit 2)");
}

#[test]
fn account_subtitles() {
    assert_eq!(account_subtitle(""), "Unknown — enrolment and testing are disabled");
    assert_eq!(
        account_subtitle("root"),
        "root — this is probably not what you want; close this and run face-auth-gtk without sudo"
    );
    assert_eq!(
        account_subtitle("alice"),
        "alice — Enroll, Improve and Test all apply to this account"
    );
}

#[test]
fn device_index_prefers_the_configured_device() {
    let paths = vec!["/dev/video0".to_string(), "/dev/video2".to_string(), "/dev/video2".to_string()];
    assert_eq!(device_index(&paths, "/dev/video2"), 1);
    assert_eq!(device_index(&paths, "/dev/video9"), 0);
    assert_eq!(device_index(&Vec::new(), "/dev/video0"), 0);
}

#[test]
fn a_set_key_is_assigned_exactly_once() {
    let before = "threshold = 0.5\n# threshold = 0.1\nthreshold=0.4\r\ndetector_threshold = 0.5";
    let out = updated_setting_text(before, "threshold", "0.9");
    let assigning: Vec<&str> = out.lines().filter(|l| is_assignment_of(l, "threshold")).collect();
    assert_eq!(assigning, vec!["threshold = 0.9"]);
    assert_eq!(out, "# threshold = 0.1\ndetector_threshold = 0.5\nthreshold = 0.9\n");
}
