//! Decisions of the PAM helper that do not touch the camera: whether the
//! session is at this machine, and what to publish to the lock-screen
//! indicator.
use vstd::prelude::*;
use crate::text::{append_chars, chars_of, string_of, trim, trim_chars};
use crate::user::seq_eq;

verus! {

/// Whether `PAM_RHOST`, trimmed, names this machine: empty, `localhost`,
/// `localhost.localdomain`, `::1`, or an address starting with `127.`.
pub open spec fn is_local_rhost_spec(rhost: Seq<char>) -> bool {
    let t = trim(rhost);
    ||| t.len() == 0
    ||| t == "localhost"@
    ||| t == "localhost.localdomain"@
    ||| t == "::1"@
    ||| t.len() >= 4 && t.subrange(0, 4) == "127."@
}

pub fn is_local_rhost(rhost: &str) -> (r: bool)
    ensures
        r == is_local_rhost_spec(rhost@),
{
    let raw = chars_of(rhost);
    let t = trim_chars(raw.as_slice());
    if t.len() == 0 {
        return true;
    }
    let a = chars_of("localhost");
    let b = chars_of("localhost.localdomain");
    let c = chars_of("::1");
    if seq_eq(t.as_slice(), a.as_slice()) || seq_eq(t.as_slice(), b.as_slice()) || seq_eq(
        t.as_slice(),
        c.as_slice(),
    ) {
        return true;
    }
    if t.len() >= 4 {
        let p = chars_of("127.");
        let head = crate::text::slice_chars(t.as_slice(), 0, 4);
        return seq_eq(head.as_slice(), p.as_slice());
    }
    false
}

/// Refuse to authenticate a session that is not physically at this
/// machine: the camera is attached to the console, so a remote `sudo` would
/// be approved by whoever sits at the desk. `rhost` is `PAM_RHOST`, if set.
pub fn check_session_origin(rhost: Option<&str>) -> (r: Result<(), String>)
    ensures
        match rhost {
            None => r is Ok,
            Some(h) => if is_local_rhost_spec(h@) {
                r is Ok
            } else {
                r matches Err(m) && m@ == "remote session from "@ + trim(h@)
            },
        },
{
    match rhost {
        None => Ok(()),
        Some(h) => {
            if is_local_rhost(h) {
                Ok(())
            } else {
                let raw = chars_of(h);
                let t = trim_chars(raw.as_slice());
                let mut m = chars_of("remote session from ");
                append_chars(&mut m, t.as_slice());
                Err(string_of(m.as_slice()))
            }
        },
    }
}

/// Status values read by the lock-screen scan indicator.
#[derive(Debug, Clone, Copy, PartialEq, Eq, Structural)]
pub enum ScanStatus {
    Scanning,
    Matched,
    Fail,
}

pub open spec fn status_text_spec(s: ScanStatus) -> Seq<char> {
    match s {
        ScanStatus::Scanning => "scanning"@,
        ScanStatus::Matched => "ok"@,
        ScanStatus::Fail => "fail"@,
    }
}

/// The text written to the status file.
pub fn status_text(s: ScanStatus) -> (r: String)
    ensures
        r@ == status_text_spec(s),
{
    match s {
        ScanStatus::Scanning => String::from_str("scanning"),
        ScanStatus::Matched => String::from_str("ok"),
        ScanStatus::Fail => String::from_str("fail"),
    }
}

/// The status a finished scan publishes: `ok` only for a match.
pub fn final_status(matched: Option<bool>) -> (r: ScanStatus)
    ensures
        r == (if matched == Some(true) {
            ScanStatus::Matched
        } else {
            ScanStatus::Fail
        }),
{
    match matched {
        Some(true) => ScanStatus::Matched,
        _ => ScanStatus::Fail,
    }
}

/// The exit status of `face-auth --verify`: 0 for a match, 1 for no
/// match, 2 when verification could not be carried out.
pub fn verify_exit_code(outcome: Option<bool>) -> (r: i32)
    ensures
        r == (match outcome {
            Some(true) => 0i32,
            Some(false) => 1i32,
            None => 2i32,
        }),
{
    match outcome {
        Some(true) => 0,
        Some(false) => 1,
        None => 2,
    }
}

} // verus!
