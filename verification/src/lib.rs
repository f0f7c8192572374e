//! Verified core of an IR-camera face-authentication tool.
use vstd::prelude::*;

pub mod text;
pub mod user;
pub mod capture;
pub mod storage;
pub mod config;
pub mod preprocess;
pub mod session;
pub mod gui;
pub mod pam;
pub mod preview;

verus! {
} // verus!
