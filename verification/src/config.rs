//! The settings that decide which camera, models and templates are used and
//! how long a scan may take, and the rules for layering a user's own
//! settings over the system's.
//!
//! Thresholds are floating-point settings and are handled by the caller;
//! everything else about the configuration is here.
use vstd::prelude::*;
use crate::capture::device_node_spec;
use vstd::string::StrSliceExecFns;

verus! {

/// Bounds applied to every configuration source.
pub const CAPTURE_TIMEOUT_MIN: u64 = 100;

pub const CAPTURE_TIMEOUT_MAX: u64 = 30_000;

pub const SCAN_DURATION_MIN: u64 = 500;

pub const SCAN_DURATION_MAX: u64 = 30_000;

pub const SCAN_INTERVAL_MIN: u64 = 0;

pub const SCAN_INTERVAL_MAX: u64 = 5_000;

/// Configuration values other than the thresholds. `None` means "use the
/// default".
#[derive(Debug, Clone)]
pub struct FaceAuthConfig {
    pub device: Option<String>,
    pub model_path: Option<String>,
    pub embeddings_dir: Option<String>,
    pub capture_timeout_ms: Option<u64>,
    pub detector_model_path: Option<String>,
    pub scan_duration_ms: Option<u64>,
    pub scan_interval_ms: Option<u64>,
}

/// Why a configuration was refused.
#[derive(Debug, Clone, Copy, PartialEq, Eq, Structural)]
pub enum ConfigError {
    /// `embeddings_dir` is not an absolute path.
    RelativeEmbeddingsDir,
}

pub open spec fn default_device() -> Seq<char> {
    "/dev/video0"@
}

pub open spec fn default_model_path() -> Seq<char> {
    "/usr/local/share/face-auth/w600k_mbf.onnx"@
}

pub open spec fn default_embeddings_dir() -> Seq<char> {
    "/var/lib/face-auth"@
}

pub open spec fn default_detector_model_path() -> Seq<char> {
    "/usr/local/share/face-auth/version-slim-320.onnx"@
}

pub open spec fn opt_view(o: Option<String>) -> Option<Seq<char>> {
    match o {
        Some(s) => Some(s@),
        None => None,
    }
}

pub open spec fn or_default(o: Option<String>, d: Seq<char>) -> Seq<char> {
    match o {
        Some(s) => s@,
        None => d,
    }
}

pub open spec fn clamp(v: u64, lo: u64, hi: u64) -> u64 {
    if v < lo {
        lo
    } else if v > hi {
        hi
    } else {
        v
    }
}

/// What `validate` accepts: the embeddings directory in force is an
/// absolute path.
pub open spec fn config_valid(c: FaceAuthConfig) -> bool {
    let d = or_default(c.embeddings_dir, default_embeddings_dir());
    d.len() > 0 && d[0] == '/'
}

pub open spec fn in_range(v: u64, lo: u64, hi: u64) -> bool {
    lo <= v <= hi
}

/// `merged` is `base` with the safe subset of `overlay` applied: each
/// timing value taken from `overlay` when it is within its bounds, the camera
/// taken from `overlay` when it names a `/dev` node confirmed to be an IR
/// capture device, and the model paths and embeddings directory kept.
pub open spec fn is_overlay_of(
    merged: FaceAuthConfig,
    base: FaceAuthConfig,
    overlay: FaceAuthConfig,
    device_confirmed: bool,
) -> bool {
    &&& merged.capture_timeout_ms == (match overlay.capture_timeout_ms {
        Some(v) => if in_range(v, CAPTURE_TIMEOUT_MIN, CAPTURE_TIMEOUT_MAX) {
            Some(v)
        } else {
            base.capture_timeout_ms
        },
        None => base.capture_timeout_ms,
    })
    &&& merged.scan_duration_ms == (match overlay.scan_duration_ms {
        Some(v) => if in_range(v, SCAN_DURATION_MIN, SCAN_DURATION_MAX) {
            Some(v)
        } else {
            base.scan_duration_ms
        },
        None => base.scan_duration_ms,
    })
    &&& merged.scan_interval_ms == (match overlay.scan_interval_ms {
        Some(v) => if in_range(v, SCAN_INTERVAL_MIN, SCAN_INTERVAL_MAX) {
            Some(v)
        } else {
            base.scan_interval_ms
        },
        None => base.scan_interval_ms,
    })
    &&& opt_view(merged.device) == (match overlay.device {
        Some(d) => if device_node_spec(d@) is Some && device_confirmed {
            Some(d@)
        } else {
            opt_view(base.device)
        },
        None => opt_view(base.device),
    })
    &&& opt_view(merged.model_path) == opt_view(base.model_path)
    &&& opt_view(merged.detector_model_path) == opt_view(base.detector_model_path)
    &&& opt_view(merged.embeddings_dir) == opt_view(base.embeddings_dir)
}

/// `Option<String>::clone`.
fn clone_opt(o: &Option<String>) -> (r: Option<String>)
    ensures
        opt_view(r) == opt_view(*o),
{
    match o {
        Some(s) => Some(s.clone()),
        None => None,
    }
}

fn clamp_exec(v: u64, lo: u64, hi: u64) -> (r: u64)
    requires
        lo <= hi,
    ensures
        r == clamp(v, lo, hi),
{
    if v < lo {
        lo
    } else if v > hi {
        hi
    } else {
        v
    }
}

impl Default for FaceAuthConfig {
    /// The built-in defaults: 5 s capture timeout, 5 s scan window, no
    /// extra delay between attempts; everything else unset.
    fn default() -> (c: Self)
        ensures
            c.device is None && c.model_path is None && c.embeddings_dir is None
                && c.detector_model_path is None,
            c.capture_timeout_ms == Some(5000u64),
            c.scan_duration_ms == Some(5000u64),
            c.scan_interval_ms == Some(0u64),
    {
        FaceAuthConfig {
            device: None,
            model_path: None,
            embeddings_dir: None,
            capture_timeout_ms: Some(5000),
            detector_model_path: None,
            scan_duration_ms: Some(5000),
            scan_interval_ms: Some(0),
        }
    }
}

impl FaceAuthConfig {
    /// The camera to use: the configured one, else `detected` (the first IR
    /// camera found on the machine), else `/dev/video0`.
    pub fn device(&self, detected: Option<String>) -> (r: String)
        ensures
            r@ == (match self.device {
                Some(d) => d@,
                None => or_default(detected, default_device()),
            }),
    {
        match &self.device {
            Some(d) => d.clone(),
            None => match detected {
                Some(p) => p,
                None => String::from_str("/dev/video0"),
            },
        }
    }

    pub fn model_path(&self) -> (r: String)
        ensures
            r@ == or_default(self.model_path, default_model_path()),
    {
        match &self.model_path {
            Some(p) => p.clone(),
            None => String::from_str("/usr/local/share/face-auth/w600k_mbf.onnx"),
        }
    }

    pub fn embeddings_dir(&self) -> (r: String)
        ensures
            r@ == or_default(self.embeddings_dir, default_embeddings_dir()),
    {
        match &self.embeddings_dir {
            Some(p) => p.clone(),
            None => String::from_str("/var/lib/face-auth"),
        }
    }

    pub fn detector_model_path(&self) -> (r: String)
        ensures
            r@ == or_default(self.detector_model_path, default_detector_model_path()),
    {
        match &self.detector_model_path {
            Some(p) => p.clone(),
            None => String::from_str("/usr/local/share/face-auth/version-slim-320.onnx"),
        }
    }

    /// The capture timeout in milliseconds, 5000 by default, clamped to
    /// `100..=30000`.
    pub fn capture_timeout_ms(&self) -> (r: i32)
        ensures
            r == clamp(
                match self.capture_timeout_ms {
                    Some(v) => v,
                    None => 5000,
                },
                CAPTURE_TIMEOUT_MIN,
                CAPTURE_TIMEOUT_MAX,
            ),
    {
        let v = match self.capture_timeout_ms {
            Some(v) => v,
            None => 5000,
        };
        clamp_exec(v, CAPTURE_TIMEOUT_MIN, CAPTURE_TIMEOUT_MAX) as i32
    }

    /// How long a scan keeps trying, 5000 ms by default, clamped to
    /// `500..=30000`.
    pub fn scan_duration_ms(&self) -> (r: u64)
        ensures
            r == clamp(
                match self.scan_duration_ms {
                    Some(v) => v,
                    None => 5000,
                },
                SCAN_DURATION_MIN,
                SCAN_DURATION_MAX,
            ),
    {
        let v = match self.scan_duration_ms {
            Some(v) => v,
            None => 5000,
        };
        clamp_exec(v, SCAN_DURATION_MIN, SCAN_DURATION_MAX)
    }

    /// Extra delay between scan attempts, 0 by default, clamped to
    /// `0..=5000`.
    pub fn scan_interval_ms(&self) -> (r: u64)
        ensures
            r == clamp(
                match self.scan_interval_ms {
                    Some(v) => v,
                    None => 0,
                },
                SCAN_INTERVAL_MIN,
                SCAN_INTERVAL_MAX,
            ),
    {
        let v = match self.scan_interval_ms {
            Some(v) => v,
            None => 0,
        };
        clamp_exec(v, SCAN_INTERVAL_MIN, SCAN_INTERVAL_MAX)
    }

    /// The checks on these settings: the embeddings directory must be an
    /// absolute path.
    pub fn validate(&self) -> (r: Result<(), ConfigError>)
        ensures
            r is Ok <==> config_valid(*self),
            r matches Err(e) ==> e == ConfigError::RelativeEmbeddingsDir,
    {
        let d = self.embeddings_dir();
        let n = d.as_str().unicode_len();
        if n > 0 && d.as_str().get_char(0) == '/' {
            Ok(())
        } else {
            Err(ConfigError::RelativeEmbeddingsDir)
        }
    }

    /// Merge the safe subset of a user's settings over a system baseline.
    ///
    /// Timing preferences are honoured when they lie within their bounds.
    /// The camera is honoured only when it names a node directly under
    /// `/dev` and `device_confirmed` says that node is an IR capture device
    /// on this machine (an IR-looking sysfs name, and it opens as GREY).
    /// The model paths and the embeddings directory stay system policy.
    pub fn apply_user_overlay(&mut self, overlay: &FaceAuthConfig, device_confirmed: bool)
        ensures
            is_overlay_of(*final(self), *old(self), *overlay, device_confirmed),
    {
        if let Some(v) = overlay.capture_timeout_ms {
            if CAPTURE_TIMEOUT_MIN <= v && v <= CAPTURE_TIMEOUT_MAX {
                self.capture_timeout_ms = Some(v);
            }
        }
        if let Some(v) = overlay.scan_duration_ms {
            if SCAN_DURATION_MIN <= v && v <= SCAN_DURATION_MAX {
                self.scan_duration_ms = Some(v);
            }
        }
        if let Some(v) = overlay.scan_interval_ms {
            if SCAN_INTERVAL_MIN <= v && v <= SCAN_INTERVAL_MAX {
                self.scan_interval_ms = Some(v);
            }
        }
        if let Some(dev) = &overlay.device {
            if crate::capture::device_node(dev.as_str()).is_some() && device_confirmed {
                self.device = Some(dev.clone());
            }
        }
    }
}

/// A user's timing preference is honoured whenever it lies within the
/// built-in bounds (capture timeout 100 to 30000 ms, scan window 500 to
/// 30000 ms, extra delay 0 to 5000 ms) and ignored otherwise, whatever the
/// camera check says; a camera named directly under `/dev` and confirmed to
/// be an IR capture device is taken.
pub proof fn lemma_overlay_honours_bounded_preferences(
    base: FaceAuthConfig,
    overlay: FaceAuthConfig,
    merged: FaceAuthConfig,
    device_confirmed: bool,
)
    requires
        is_overlay_of(merged, base, overlay, device_confirmed),
    ensures
        overlay.capture_timeout_ms is Some && 100 <= overlay.capture_timeout_ms->0 <= 30000
            ==> merged.capture_timeout_ms == overlay.capture_timeout_ms,
        overlay.capture_timeout_ms is Some && !(100 <= overlay.capture_timeout_ms->0 <= 30000)
            ==> merged.capture_timeout_ms == base.capture_timeout_ms,
        overlay.capture_timeout_ms is None ==> merged.capture_timeout_ms == base.capture_timeout_ms,
        overlay.scan_duration_ms is Some && 500 <= overlay.scan_duration_ms->0 <= 30000
            ==> merged.scan_duration_ms == overlay.scan_duration_ms,
        overlay.scan_duration_ms is Some && !(500 <= overlay.scan_duration_ms->0 <= 30000)
            ==> merged.scan_duration_ms == base.scan_duration_ms,
        overlay.scan_duration_ms is None ==> merged.scan_duration_ms == base.scan_duration_ms,
        overlay.scan_interval_ms is Some && overlay.scan_interval_ms->0 <= 5000
            ==> merged.scan_interval_ms == overlay.scan_interval_ms,
        overlay.scan_interval_ms is Some && overlay.scan_interval_ms->0 > 5000
            ==> merged.scan_interval_ms == base.scan_interval_ms,
        overlay.scan_interval_ms is None ==> merged.scan_interval_ms == base.scan_interval_ms,
        overlay.device is Some && device_confirmed && device_node_spec(overlay.device->0@) is Some
            ==> opt_view(merged.device) == opt_view(overlay.device),
        !device_confirmed ==> opt_view(merged.device) == opt_view(base.device),
{
}

/// Whatever a user's own settings say, layering them over a baseline never
/// changes which models or which template directory are used, keeps a valid
/// baseline valid, changes the camera only to a `/dev` node confirmed to be
/// an IR capture device, and never moves a timing setting outside its bounds
/// if it was inside them.
pub proof fn lemma_overlay_keeps_policy(
    base: FaceAuthConfig,
    overlay: FaceAuthConfig,
    merged: FaceAuthConfig,
    device_confirmed: bool,
)
    requires
        is_overlay_of(merged, base, overlay, device_confirmed),
    ensures
        or_default(merged.model_path, default_model_path()) == or_default(
            base.model_path,
            default_model_path(),
        ),
        or_default(merged.detector_model_path, default_detector_model_path()) == or_default(
            base.detector_model_path,
            default_detector_model_path(),
        ),
        or_default(merged.embeddings_dir, default_embeddings_dir()) == or_default(
            base.embeddings_dir,
            default_embeddings_dir(),
        ),
        (base.capture_timeout_ms matches Some(v) ==> in_range(
            v,
            CAPTURE_TIMEOUT_MIN,
            CAPTURE_TIMEOUT_MAX,
        )) ==> (merged.capture_timeout_ms matches Some(v) ==> in_range(
            v,
            CAPTURE_TIMEOUT_MIN,
            CAPTURE_TIMEOUT_MAX,
        )),
        (base.scan_duration_ms matches Some(v) ==> in_range(
            v,
            SCAN_DURATION_MIN,
            SCAN_DURATION_MAX,
        )) ==> (merged.scan_duration_ms matches Some(v) ==> in_range(
            v,
            SCAN_DURATION_MIN,
            SCAN_DURATION_MAX,
        )),
        (base.scan_interval_ms matches Some(v) ==> in_range(
            v,
            SCAN_INTERVAL_MIN,
            SCAN_INTERVAL_MAX,
        )) ==> (merged.scan_interval_ms matches Some(v) ==> in_range(
            v,
            SCAN_INTERVAL_MIN,
            SCAN_INTERVAL_MAX,
        )),
        config_valid(base) ==> config_valid(merged),
        opt_view(merged.device) == opt_view(base.device) || (overlay.device matches Some(d)
            && device_confirmed && device_node_spec(d@) is Some && opt_view(merged.device) == Some(
            d@,
        )),
{
}

} // verus!
