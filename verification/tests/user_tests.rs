use face_auth_core::user::{
    entry_from_getent, invoking_uid, invoking_uids, lookup_entry, parse_passwd_line, validate_username,
    LookupError, UsernameError,
};

#[test]
fn accepts_ordinary_names() {
    for name in ["alice", "bob.smith", "svc-account", "user_1", "a"] {
        assert!(validate_username(name).is_ok(), "rejected {name}");
    }
}

#[test]
fn rejects_path_traversal_and_separators() {
    for name in [
        "..",
        ".",
        "../root",
        "../../etc/passwd",
        "a/b",
        "a\0b",
        "",
        "-rf",
        "with space",
    ] {
        assert!(validate_username(name).is_err(), "accepted {name:?}");
    }
}

#[test]
fn rejects_overlong_names() {
    assert!(validate_username(&"a".repeat(33)).is_err());
    assert!(validate_username(&"a".repeat(32)).is_ok());
}

#[test]
fn username_errors_name_the_rule() {
    assert_eq!(validate_username(""), Err(UsernameError::BadLength));
    assert_eq!(validate_username(".."), Err(UsernameError::ReservedComponent));
    assert_eq!(validate_username("-rf"), Err(UsernameError::LeadingDash));
    assert_eq!(validate_username("a/b"), Err(UsernameError::BadCharacter));
    // Eleven three-byte characters are 33 bytes: the length rule fires first.
    assert_eq!(validate_username(&"€".repeat(11)), Err(UsernameError::BadLength));
    assert_eq!(validate_username("é"), Err(UsernameError::BadCharacter));
}

#[test]
fn parses_passwd_line() {
    let info = parse_passwd_line("alice:x:1000:1000:Alice:/home/alice:/bin/bash").unwrap();
    assert_eq!(info.name, "alice");
    assert_eq!(info.uid, 1000);
    assert_eq!(info.home, "/home/alice");
}

#[test]
fn rejects_truncated_passwd_line() {
    assert!(parse_passwd_line("alice:x:1000").is_none());
}

#[test]
fn passwd_line_needs_a_numeric_uid() {
    assert!(parse_passwd_line("alice:x:abc:1000:Alice:/home/alice:/bin/bash").is_none());
    assert!(parse_passwd_line("alice:x:4294967296:1:A:/h:/s").is_none());
    let info = parse_passwd_line("bob:x:+7:1:B:/home/bob\n\n").unwrap();
    assert_eq!((info.uid, info.home.as_str()), (7, "/home/bob"));
}

#[test]
fn getent_output_uses_its_first_line() {
    let out = "alice:x:1000:1000:Alice:/home/alice:/bin/bash\r\nbob:x:1001:1001::/home/bob:/bin/sh\n";
    let info = entry_from_getent(out).unwrap();
    assert_eq!(info.name, "alice");
    assert!(entry_from_getent("").is_none());
}

#[test]
fn lookup_requires_the_name_that_was_asked_for() {
    let root = "root:x:0:0:root:/root:/bin/bash\n";
    assert_eq!(lookup_entry("0", root).err(), Some(LookupError::NameMismatch));
    assert_eq!(lookup_entry("root", root).unwrap().uid, 0);
    assert_eq!(lookup_entry("root", "garbage").err(), Some(LookupError::Unparsable));
}

#[test]
fn invoking_uid_ignores_root_and_junk() {
    assert_eq!(invoking_uid(" 1000\n"), Some(1000));
    assert_eq!(invoking_uid("0"), None);
    assert_eq!(invoking_uid("not-a-number"), None);
    assert_eq!(invoking_uid(""), None);
}

#[test]
fn invoking_order_prefers_the_sudo_caller_then_the_real_uid() {
    assert_eq!(invoking_uids(Some("1000"), None, 0), vec![1000, 0]);
    assert_eq!(invoking_uids(Some("1000"), None, 1000), vec![1000, 1000]);
    assert_eq!(invoking_uids(Some("1001"), Some("1002"), 5), vec![1001, 1002, 5]);
    assert_eq!(invoking_uids(None, Some(" 42 "), 7), vec![42, 7]);
}

#[test]
fn invoking_order_skips_root_and_junk() {
    assert_eq!(invoking_uids(Some("0"), None, 1000), vec![1000]);
    assert_eq!(invoking_uids(Some("not-a-number"), None, 1000), vec![1000]);
    assert_eq!(invoking_uids(Some("0"), Some("x"), 1000), vec![1000]);
    assert_eq!(invoking_uids(None, None, 3), vec![3]);
}
