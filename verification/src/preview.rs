//! The live preview of the settings panel: frames turned into RGBA images,
//! and the decisions of the capture loop that feeds them.
use vstd::prelude::*;
use crate::capture::IrFrame;

verus! {

/// One frame ready to paint.
pub struct PreviewFrame {
    pub data: Vec<u8>,
    pub width: i32,
    pub height: i32,
    pub face_detected: bool,
}

/// What the capture loop sends to the panel.
pub enum PreviewEvent {
    Frame(PreviewFrame),
    /// Camera unavailable; carries a message worth showing the user.
    Unavailable(String),
}

/// The grey level shown for pixel `i`: the sample's high byte, or black
/// when the frame holds no sample there.
pub open spec fn preview_level(data: Seq<u16>, i: int) -> u8 {
    if i < data.len() {
        (data[i] / 256) as u8
    } else {
        0
    }
}

/// An opaque grey RGBA image of a frame: four bytes `v, v, v, 255` per
/// pixel, row by row.
pub open spec fn rgba_spec(frame: IrFrame) -> Seq<u8> {
    Seq::new(
        (frame.width * frame.height * 4) as nat,
        |k: int|
            if k % 4 == 3 {
                255u8
            } else {
                preview_level(frame.data@, k / 4)
            },
    )
}

/// Convert a frame to RGBA for display.
pub fn frame_to_rgba(frame: &IrFrame) -> (rgba: Vec<u8>)
    requires
        frame.width * frame.height * 4 <= usize::MAX,
    ensures
        rgba@ == rgba_spec(*frame),
{
    let w = frame.width as usize;
    let h = frame.height as usize;
    proof {
        let wi = w as int;
        let hi = h as int;
        assert(wi * hi <= wi * hi * 4) by (nonlinear_arith)
            requires
                wi >= 0,
                hi >= 0,
        ;
    }
    let n = w * h;
    let mut rgba: Vec<u8> = Vec::new();
    let mut i: usize = 0;
    while i < n
        invariant
            i <= n == frame.width * frame.height,
            n * 4 <= usize::MAX,
            rgba@.len() == 4 * i,
            forall|k: int| 0 <= k < 4 * i ==> #[trigger] rgba@[k] == rgba_spec(*frame)[k],
        decreases n - i,
    {
        let v: u8 = if i < frame.data.len() {
            (frame.data[i] / 256) as u8
        } else {
            0
        };
        let ghost before = rgba@;
        rgba.push(v);
        rgba.push(v);
        rgba.push(v);
        rgba.push(255);
        proof {
            assert forall|k: int| 0 <= k < 4 * (i + 1) implies #[trigger] rgba@[k] == rgba_spec(
                *frame,
            )[k] by {
                if k >= 4 * i {
                    assert(k / 4 == i as int);
                    assert(k % 4 == k - 4 * i);
                }
            }
        }
        i += 1;
    }
    assert(rgba@ =~= rgba_spec(*frame));
    rgba
}

/// The event that carries a frame to the panel.
pub fn frame_event(frame: &IrFrame, face_detected: bool) -> (e: PreviewEvent)
    requires
        frame.width * frame.height * 4 <= usize::MAX,
    ensures
        e matches PreviewEvent::Frame(f) && f.data@ == rgba_spec(*frame) && f.width
            == frame.width as i32 && f.height == frame.height as i32 && f.face_detected
            == face_detected,
{
    PreviewEvent::Frame(
        PreviewFrame {
            data: frame_to_rgba(frame),
            width: frame.width as i32,
            height: frame.height as i32,
            face_detected,
        },
    )
}

/// What the capture loop remembers between frames.
pub struct PreviewState {
    /// Whether a camera is currently held open.
    pub camera_open: bool,
    /// The badge shown with frames: the last detection result.
    pub face_detected: bool,
}

impl PreviewState {
    pub fn new() -> (s: Self)
        ensures
            !s.camera_open && !s.face_detected,
    {
        PreviewState { camera_open: false, face_detected: false }
    }

    /// The camera was opened.
    pub fn on_opened(&mut self)
        ensures
            final(self).camera_open,
            final(self).face_detected == old(self).face_detected,
    {
        self.camera_open = true;
    }

    /// Capturing failed: let go of the camera so the next round reopens it,
    /// and stop claiming a face.
    pub fn on_capture_failed(&mut self)
        ensures
            !final(self).camera_open && !final(self).face_detected,
    {
        self.camera_open = false;
        self.face_detected = false;
    }

    /// The frame is too dark or too flat to hold a face; returns the badge
    /// to send it with.
    pub fn on_no_content(&mut self) -> (badge: bool)
        ensures
            !badge && !final(self).face_detected,
            final(self).camera_open == old(self).camera_open,
    {
        self.face_detected = false;
        false
    }

    /// A usable frame. `detection` is the detector's verdict when detection
    /// was due and ran (`Some(Err(()))` when it failed), `None` when it was
    /// not due; returns the badge to send the frame with.
    pub fn on_frame(&mut self, detection: Option<Result<bool, ()>>) -> (badge: bool)
        ensures
            final(self).face_detected == (match detection {
                Some(Ok(b)) => b,
                Some(Err(_)) => false,
                None => old(self).face_detected,
            }),
            badge == final(self).face_detected,
            final(self).camera_open == old(self).camera_open,
    {
        match detection {
            Some(Ok(b)) => self.face_detected = b,
            Some(Err(_)) => self.face_detected = false,
            None => {},
        }
        self.face_detected
    }
}

/// The index of the last event before `k` that satisfies `is_frame`
/// (when `frames`) or is an "unavailable" message (otherwise); `-1` when
/// there is none.
pub open spec fn last_index(s: Seq<PreviewEvent>, k: int, frames: bool) -> int
    decreases k,
{
    if k <= 0 {
        -1
    } else if (frames && s[k - 1] is Frame) || (!frames && s[k - 1] is Unavailable) {
        k - 1
    } else {
        last_index(s, k - 1, frames)
    }
}

/// Of the events drained from the channel in arrival order, the newest
/// frame and the newest "unavailable" message: only the newest is worth
/// painting.
pub fn latest_events(events: Vec<PreviewEvent>) -> (r: (Option<PreviewFrame>, Option<String>))
    ensures
        ({
            let i = last_index(events@, events@.len() as int, true);
            if i < 0 {
                r.0 is None
            } else {
                r.0 == Some(events@[i]->Frame_0)
            }
        }),
        ({
            let i = last_index(events@, events@.len() as int, false);
            if i < 0 {
                r.1 is None
            } else {
                r.1 == Some(events@[i]->Unavailable_0)
            }
        }),
{
    let ghost all = events@;
    let mut latest: Option<PreviewFrame> = None;
    let mut unavailable: Option<String> = None;
    let mut events = events;
    let n = events.len();
    while events.len() > 0
        invariant
            n == all.len(),
            events@.len() <= n,
            events@ == all.subrange(n - events@.len(), n as int),
            ({
                let i = last_index(all, n - events@.len(), true);
                if i < 0 {
                    latest is None
                } else {
                    latest == Some(all[i]->Frame_0)
                }
            }),
            ({
                let i = last_index(all, n - events@.len(), false);
                if i < 0 {
                    unavailable is None
                } else {
                    unavailable == Some(all[i]->Unavailable_0)
                }
            }),
        decreases events@.len(),
    {
        let ghost len = events@.len();
        let ghost k = n - len;
        assert(events@[0] == all[k]);
        let e = events.remove(0);
        assert(events@ =~= all.subrange(k + 1, n as int));
        match e {
            PreviewEvent::Frame(f) => {
                latest = Some(f);
            },
            PreviewEvent::Unavailable(m) => {
                unavailable = Some(m);
            },
        }
    }
    (latest, unavailable)
}

} // verus!
