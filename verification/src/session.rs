//! The decisions of the authentication scan and of enrolment.
//!
//! Both alternate device work (capturing a frame, running the models,
//! sleeping) with decisions about what to do next. The work is done by the
//! caller; the state machines here say what happens after each outcome.
use vstd::prelude::*;
use crate::storage::EmbeddingStore;
use crate::storage::StoreError;

verus! {

/// Capture failures in a row after which a scan gives up.
pub const MAX_CONSECUTIVE_CAPTURE_ERRORS: u32 = 3;

/// What happened during one step of a scan.
#[derive(Debug, Clone, Copy, PartialEq, Eq, Structural)]
pub enum ScanEvent {
    /// The scan window has closed.
    DeadlinePassed,
    /// Capturing a frame failed.
    CaptureFailed,
    /// A frame was captured (what happens to it is reported next).
    Captured,
    /// The frame failed the brightness and contrast checks.
    FrameRejected,
    /// The detector found no face in the frame.
    NoFace,
    /// The face did not match any enrolled template.
    NoMatch,
    /// The face matched an enrolled template.
    Matched,
}

/// What a scan does after an event.
#[derive(Debug, Clone, Copy, PartialEq, Eq, Structural)]
pub enum ScanStep {
    /// Go on with the current frame (after `Captured`).
    Proceed,
    /// Wait out the interval, then try another frame.
    Retry,
    /// The scan is over with this answer.
    Done(bool),
    /// The scan is over: report the last capture error.
    GiveUp,
}

/// The state an authentication scan carries between frames.
pub struct ScanState {
    pub consecutive_errors: u32,
}

/// One step of a scan: from the count of capture failures in a row and an
/// event, the new count and what the scan does next.
pub open spec fn scan_transition(errors: int, event: ScanEvent) -> (int, ScanStep) {
    match event {
        ScanEvent::DeadlinePassed => (errors, ScanStep::Done(false)),
        ScanEvent::CaptureFailed => (
            errors + 1,
            if errors + 1 >= MAX_CONSECUTIVE_CAPTURE_ERRORS {
                ScanStep::GiveUp
            } else {
                ScanStep::Retry
            },
        ),
        ScanEvent::Captured => (0, ScanStep::Proceed),
        ScanEvent::FrameRejected | ScanEvent::NoFace | ScanEvent::NoMatch => (
            errors,
            ScanStep::Retry,
        ),
        ScanEvent::Matched => (errors, ScanStep::Done(true)),
    }
}

impl ScanState {
    pub fn new() -> (s: Self)
        ensures
            s.consecutive_errors == 0,
    {
        ScanState { consecutive_errors: 0 }
    }

    /// Decide what follows an event. A scan answers `true` only on a match
    /// and `false` only when the window closes; it gives up after
    /// `MAX_CONSECUTIVE_CAPTURE_ERRORS` capture failures in a row, and any
    /// captured frame resets that count.
    pub fn next_step(&mut self, event: ScanEvent) -> (step: ScanStep)
        requires
            old(self).consecutive_errors < MAX_CONSECUTIVE_CAPTURE_ERRORS,
        ensures
            final(self).consecutive_errors == scan_transition(
                old(self).consecutive_errors as int,
                event,
            ).0,
            step == scan_transition(old(self).consecutive_errors as int, event).1,
            final(self).consecutive_errors < MAX_CONSECUTIVE_CAPTURE_ERRORS || step
                == ScanStep::GiveUp,
    {
        match event {
            ScanEvent::DeadlinePassed => ScanStep::Done(false),
            ScanEvent::CaptureFailed => {
                self.consecutive_errors = self.consecutive_errors + 1;
                if self.consecutive_errors >= MAX_CONSECUTIVE_CAPTURE_ERRORS {
                    ScanStep::GiveUp
                } else {
                    ScanStep::Retry
                }
            },
            ScanEvent::Captured => {
                self.consecutive_errors = 0;
                ScanStep::Proceed
            },
            ScanEvent::FrameRejected | ScanEvent::NoFace | ScanEvent::NoMatch => ScanStep::Retry,
            ScanEvent::Matched => ScanStep::Done(true),
        }
    }
}

/// When the scan window closes, the scan answers "no match", however many
/// capture failures came before; it gives up only on a capture failure, and
/// answers "match" only on a match.
pub proof fn lemma_scan_outcomes(errors: int, event: ScanEvent)
    requires
        0 <= errors < 3,
    ensures
        event == ScanEvent::DeadlinePassed ==> scan_transition(errors, event).1 == ScanStep::Done(
            false,
        ),
        scan_transition(errors, event).1 == ScanStep::GiveUp ==> event == ScanEvent::CaptureFailed,
        scan_transition(errors, event).1 == ScanStep::Done(true) <==> event == ScanEvent::Matched,
        scan_transition(errors, event).1 == ScanStep::Done(false) <==> event
            == ScanEvent::DeadlinePassed,
        event == ScanEvent::CaptureFailed ==> (scan_transition(errors, event).1 == ScanStep::GiveUp
            <==> errors == 2),
{
}

/// The failure count after a run of events, starting from a fresh scan.
pub open spec fn scan_errors(events: Seq<ScanEvent>) -> int
    decreases events.len(),
{
    if events.len() == 0 {
        0
    } else {
        scan_transition(scan_errors(events.drop_last()), events.last()).0
    }
}

/// The index of the last captured frame among the events, or `-1`.
pub open spec fn last_capture(events: Seq<ScanEvent>) -> int
    decreases events.len(),
{
    if events.len() == 0 {
        -1
    } else if events.last() == ScanEvent::Captured {
        events.len() - 1
    } else {
        last_capture(events.drop_last())
    }
}

/// How many of the events are capture failures.
pub open spec fn count_failures(events: Seq<ScanEvent>) -> nat
    decreases events.len(),
{
    if events.len() == 0 {
        0
    } else {
        count_failures(events.drop_last()) + if events.last() == ScanEvent::CaptureFailed {
            1nat
        } else {
            0nat
        }
    }
}

/// The capture failures since the last captured frame.
pub open spec fn failures_since_capture(events: Seq<ScanEvent>) -> nat {
    count_failures(events.subrange(last_capture(events) + 1, events.len() as int))
}

proof fn lemma_last_capture_range(events: Seq<ScanEvent>)
    ensures
        -1 <= last_capture(events) < events.len(),
    decreases events.len(),
{
    if events.len() > 0 {
        lemma_last_capture_range(events.drop_last());
    }
}

/// What a scan counts is the number of capture failures since the last
/// frame it captured; so the failure that ends a scan is the third in a row
/// with no frame captured between them.
pub proof fn lemma_scan_counts_failures_since_capture(events: Seq<ScanEvent>)
    ensures
        scan_errors(events) == failures_since_capture(events),
        scan_transition(scan_errors(events), ScanEvent::CaptureFailed).1 == ScanStep::GiveUp
            <==> failures_since_capture(events.push(ScanEvent::CaptureFailed))
            >= MAX_CONSECUTIVE_CAPTURE_ERRORS,
    decreases events.len(),
{
    lemma_last_capture_range(events);
    if events.len() > 0 {
        let init = events.drop_last();
        lemma_scan_counts_failures_since_capture(init);
        lemma_last_capture_range(init);
        let n = events.len() as int;
        if events.last() == ScanEvent::Captured {
            assert(events.subrange(n, n) =~= Seq::<ScanEvent>::empty());
        } else {
            let k = last_capture(init) + 1;
            assert(last_capture(events) + 1 == k);
            assert(events.subrange(k, n).drop_last() =~= init.subrange(k, n - 1));
        }
    } else {
        assert(events.subrange(0, 0) =~= Seq::<ScanEvent>::empty());
    }
    let ext = events.push(ScanEvent::CaptureFailed);
    let n = events.len() as int;
    lemma_last_capture_range(events);
    assert(ext.drop_last() =~= events);
    let k = last_capture(events) + 1;
    assert(last_capture(ext) == last_capture(events));
    let tail = ext.subrange(k, n + 1);
    assert(tail.drop_last() =~= events.subrange(k, n));
    assert(tail.last() == ScanEvent::CaptureFailed);
    assert(count_failures(tail) == count_failures(events.subrange(k, n)) + 1);
    assert(failures_since_capture(ext) == failures_since_capture(events) + 1);
}

// ---------------------------------------------------------------------------
// Enrolment
// ---------------------------------------------------------------------------
/// Progress reports for the interactive enrolment paths.
#[derive(Debug, Clone, Copy, PartialEq, Eq, Structural)]
pub enum EnrollProgress {
    Capturing { captured: usize, wanted: usize, attempt: usize },
    NoContent,
    NoFace,
    Captured { captured: usize, wanted: usize },
}

/// Why an enrolment run stored nothing.
#[derive(Debug, Clone, Copy, PartialEq, Eq, Structural)]
pub enum EnrollFailure {
    /// At least one frame failed the brightness and contrast checks.
    NoUsableFrame { attempts: usize },
    /// Every frame that passed the checks showed no face.
    NoFaceDetected { attempts: usize },
}

/// The state of one enrolment run.
pub struct EnrollState {
    pub captured: usize,
    pub attempts: usize,
    pub wanted: usize,
    pub max_attempts: usize,
    pub had_reject: bool,
}

/// Three attempts per wanted frame, saturating.
pub open spec fn max_attempts_for(frames: usize) -> usize {
    if frames * 3 <= usize::MAX {
        (frames * 3) as usize
    } else {
        usize::MAX
    }
}

impl EnrollState {
    pub open spec fn inv(&self) -> bool {
        &&& self.captured <= self.wanted
        &&& self.captured <= self.attempts <= self.max_attempts
        &&& self.max_attempts == max_attempts_for(self.wanted)
    }

    /// A run that wants `frames` embeddings, allowing three attempts each.
    pub fn new(frames: usize) -> (s: Self)
        ensures
            s.inv(),
            s.captured == 0 && s.attempts == 0 && !s.had_reject,
            s.wanted == frames,
            s.max_attempts == max_attempts_for(frames),
    {
        let max_attempts = match frames.checked_mul(3) {
            Some(m) => m,
            None => usize::MAX,
        };
        EnrollState { captured: 0, attempts: 0, wanted: frames, max_attempts, had_reject: false }
    }

    /// Whether another frame should be tried: fewer than the wanted number
    /// captured, and attempts left.
    pub fn should_continue(&self) -> (r: bool)
        ensures
            r == (self.captured < self.wanted && self.attempts < self.max_attempts),
    {
        self.captured < self.wanted && self.attempts < self.max_attempts
    }

    /// Start an attempt; reports which one.
    pub fn begin_attempt(&mut self) -> (p: EnrollProgress)
        requires
            old(self).inv(),
            old(self).captured < old(self).wanted,
            old(self).attempts < old(self).max_attempts,
        ensures
            final(self).inv(),
            final(self).attempts == old(self).attempts + 1,
            final(self).captured == old(self).captured,
            final(self).wanted == old(self).wanted,
            final(self).had_reject == old(self).had_reject,
            p == (EnrollProgress::Capturing {
                captured: old(self).captured,
                wanted: old(self).wanted,
                attempt: final(self).attempts,
            }),
    {
        self.attempts = self.attempts + 1;
        EnrollProgress::Capturing {
            captured: self.captured,
            wanted: self.wanted,
            attempt: self.attempts,
        }
    }

    /// The frame failed the brightness and contrast checks.
    pub fn on_rejected(&mut self) -> (p: EnrollProgress)
        requires
            old(self).inv(),
        ensures
            final(self).inv(),
            final(self).had_reject,
            final(self).captured == old(self).captured && final(self).attempts == old(self).attempts
                && final(self).wanted == old(self).wanted,
            p == EnrollProgress::NoContent,
    {
        self.had_reject = true;
        EnrollProgress::NoContent
    }

    /// No face was found in the frame.
    pub fn on_no_face(&self) -> (p: EnrollProgress)
        ensures
            p == EnrollProgress::NoFace,
    {
        EnrollProgress::NoFace
    }

    /// An embedding was captured and stored. Returns the report and whether
    /// to wait before the next attempt (only when more are wanted).
    pub fn on_captured(&mut self) -> (r: (EnrollProgress, bool))
        requires
            old(self).inv(),
            old(self).captured < old(self).wanted,
            old(self).captured < old(self).attempts,
        ensures
            final(self).inv(),
            final(self).captured == old(self).captured + 1,
            final(self).attempts == old(self).attempts && final(self).wanted == old(self).wanted
                && final(self).had_reject == old(self).had_reject,
            r.0 == (EnrollProgress::Captured {
                captured: final(self).captured,
                wanted: final(self).wanted,
            }),
            r.1 == (final(self).captured < final(self).wanted),
    {
        self.captured = self.captured + 1;
        (
            EnrollProgress::Captured { captured: self.captured, wanted: self.wanted },
            self.captured < self.wanted,
        )
    }

    /// The outcome of the run: how many embeddings it added, or why it
    /// added none.
    pub fn finish(&self) -> (r: Result<usize, EnrollFailure>)
        ensures
            self.captured > 0 ==> r == Ok::<usize, EnrollFailure>(self.captured),
            self.captured == 0 && self.had_reject ==> r == Err::<usize, EnrollFailure>(
                EnrollFailure::NoUsableFrame { attempts: self.attempts },
            ),
            self.captured == 0 && !self.had_reject ==> r == Err::<usize, EnrollFailure>(
                EnrollFailure::NoFaceDetected { attempts: self.attempts },
            ),
    {
        if self.captured > 0 {
            Ok(self.captured)
        } else if self.had_reject {
            Err(EnrollFailure::NoUsableFrame { attempts: self.attempts })
        } else {
            Err(EnrollFailure::NoFaceDetected { attempts: self.attempts })
        }
    }
}

/// An enrolment run ends: it makes at most three attempts per wanted frame
/// and never captures more than it wanted.
pub proof fn lemma_enroll_run_is_bounded(s: EnrollState)
    requires
        s.inv(),
    ensures
        s.attempts <= max_attempts_for(s.wanted),
        s.captured <= s.wanted,
        s.wanted * 3 <= usize::MAX ==> s.attempts <= s.wanted * 3,
{
}

// ---------------------------------------------------------------------------
// Appending to an enrolment
// ---------------------------------------------------------------------------
/// Why a stored enrolment could not be read.
#[derive(Debug, Clone, Copy, PartialEq, Eq, Structural)]
pub enum LoadError {
    /// Nothing is enrolled yet.
    NoEmbeddings,
    /// The template file exists but could not be read.
    Unreadable,
    /// The template file is not a valid store.
    Corrupt(StoreError),
}

/// The store an append starts from. Only "nothing enrolled yet" starts
/// from empty: any other failure is passed on, so that saving cannot
/// overwrite templates that exist but could not be read.
pub fn store_for_append(loaded: Result<EmbeddingStore, LoadError>) -> (r: Result<
    EmbeddingStore,
    LoadError,
>)
    ensures
        match loaded {
            Ok(s) => r matches Ok(t) && t.spec_embeddings() == s.spec_embeddings(),
            Err(LoadError::NoEmbeddings) => r matches Ok(t) && t.spec_embeddings().len() == 0,
            Err(e) => r == Err::<EmbeddingStore, LoadError>(e),
        },
{
    match loaded {
        Ok(s) => Ok(s),
        Err(LoadError::NoEmbeddings) => Ok(EmbeddingStore::new()),
        Err(e) => Err(e),
    }
}

} // verus!
