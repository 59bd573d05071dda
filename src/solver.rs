//! Navigation state machine: capture, star detection and tracking, then
//! position estimation.
use vstd::prelude::*;

use crate::frame::detector::{Coord, DetectedStar};
use crate::frame::Frame;
use crate::frame::detector::detected;
use crate::tracker::{count_acquired, updated, Star, Tracker};

verus! {

/// Number of stars tracked, and needed for a position fix.
pub const TRACKED_STARS: usize = 4;

/// Smallest blob, in pixels, taken for a star.
pub const MIN_BLOB_PIXELS: u64 = 1;

/// State of the navigation [Solver].
#[derive(Debug, Clone, Copy, PartialEq, Eq, Structural)]
pub enum State {
    /// Need to gather a new video [Frame] snapshot
    Capture,
    /// Process the video [Frame] snapshot
    VideoProcessing,
    /// Position estimation from the tracked stars
    PostProcessing,
}

/// Centroids of `stars`, found in a frame of at most 65535 × 65535 pixels.
pub fn centroids(stars: &Vec<DetectedStar>, w: usize, h: usize) -> (c: Vec<Coord>)
    requires
        w <= 65535,
        h <= 65535,
        forall|k: int| 0 <= k < stars@.len() ==> stars@[k].fits(w as int, h as int),
    ensures
        c@ == stars@.map_values(|s: DetectedStar| s.centroid_spec()),
{
    let mut c: Vec<Coord> = Vec::new();
    let mut i: usize = 0;
    while i < stars.len()
        invariant
            w <= 65535,
            h <= 65535,
            forall|k: int| 0 <= k < stars@.len() ==> stars@[k].fits(w as int, h as int),
            c@.len() == i <= stars@.len(),
            forall|k: int| 0 <= k < i ==> c@[k] == stars@[k].centroid_spec(),
        decreases stars@.len() - i,
    {
        let s = stars[i];
        proof {
            assert((w - 1) * s.brightness <= 65535 * s.brightness) by (nonlinear_arith)
                requires
                    w <= 65535,
            ;
            assert((h - 1) * s.brightness <= 65535 * s.brightness) by (nonlinear_arith)
                requires
                    h <= 65535,
            ;
        }
        c.push(s.centroid());
        i = i + 1;
    }
    assert(c@ =~= stars@.map_values(|s: DetectedStar| s.centroid_spec()));
    c
}

/// The slots `new` are the slots `old` after one processing of frame `f`
/// at epoch `t`: some report `st` of the star search on `f` whose
/// centroids updated the tracker.
pub open spec fn processed<'a>(f: Frame<'a>, old: Seq<Star>, new: Seq<Star>, t: i64) -> bool {
    exists|st: Seq<DetectedStar>|
        #[trigger] detected(f, TRACKED_STARS as int, MIN_BLOB_PIXELS as int, st) && updated(
            old,
            new,
            st.map_values(|s: DetectedStar| s.centroid_spec()),
            t,
        )
}

/// Celestial navigation [Solver]: one state transition per call.
pub struct Solver<'a> {
    /// Latest video [Frame] snapshot
    video_frame: Option<Frame<'a>>,
    /// Internal state
    state: State,
    /// Star tracker
    tracker: Tracker,
}

impl<'a> Solver<'a> {
    /// Current state.
    pub closed spec fn state_spec(&self) -> State {
        self.state
    }

    /// Whether a frame snapshot is held.
    pub open spec fn has_frame(&self) -> bool {
        self.frame_spec() is Some
    }

    /// The frame snapshot held.
    pub closed spec fn frame_spec(&self) -> Option<Frame<'a>> {
        self.video_frame
    }

    /// The tracker's slots.
    pub closed spec fn tracker_spec(&self) -> Tracker {
        self.tracker
    }

    /// A solver in state `Capture`, without frame, tracking no star.
    pub fn new() -> (s: Self)
        ensures
            s.state_spec() == State::Capture,
            !s.has_frame(),
            s.tracker_spec().stars@.len() == TRACKED_STARS,
            count_acquired(s.tracker_spec().stars@) == 0,
    {
        let tracker = Tracker::new(TRACKED_STARS);
        proof {
            lemma_none_acquired(tracker.stars@);
        }
        Solver { video_frame: None, state: State::Capture, tracker }
    }

    /// Current state.
    pub fn state(&self) -> (s: State)
        ensures
            s == self.state_spec(),
    {
        self.state
    }

    /// The star tracker.
    pub fn tracker(&self) -> (t: &Tracker)
        ensures
            *t == self.tracker_spec(),
    {
        &self.tracker
    }

    /// Takes the outcome of a capture: a new frame replaces the one held,
    /// none keeps it. Moves to `VideoProcessing`.
    pub fn video_capture(&mut self, frame: Option<Frame<'a>>)
        ensures
            final(self).state_spec() == State::VideoProcessing,
            frame is Some ==> final(self).frame_spec() == frame,
            frame is None ==> final(self).frame_spec() == old(self).frame_spec(),
            final(self).tracker_spec() == old(self).tracker_spec(),
    {
        if frame.is_some() {
            self.video_frame = frame;
        }
        self.state = State::VideoProcessing;
    }

    /// Detects stars on the held frame and feeds their centroids, seen at
    /// epoch `t`, to the tracker. Moves to `PostProcessing` when at least
    /// four stars are tracked, back to `Capture` otherwise or when no frame
    /// is held.
    pub fn video_processing(&mut self, t: i64)
        ensures
            final(self).frame_spec() == old(self).frame_spec(),
            !old(self).has_frame() ==> final(self).state_spec() == State::Capture
                && final(self).tracker_spec() == old(self).tracker_spec(),
            old(self).frame_spec() matches Some(f) ==> processed(
                f,
                old(self).tracker_spec().stars@,
                final(self).tracker_spec().stars@,
                t,
            ),
            old(self).has_frame() && count_acquired(final(self).tracker_spec().stars@)
                >= TRACKED_STARS ==> final(self).state_spec() == State::PostProcessing,
            count_acquired(final(self).tracker_spec().stars@) < TRACKED_STARS ==> final(self).state_spec() == State::Capture,
    {
        match &self.video_frame {
            None => {
                self.state = State::Capture;
            },
            Some(frame) => {
                let stars = frame.star_coordinates_finder(TRACKED_STARS, MIN_BLOB_PIXELS);
                let coords = centroids(&stars, frame.width(), frame.height());
                let ghost before = self.tracker.stars@;
                self.tracker.update(&coords, t);
                proof {
                    assert(detected(*frame, TRACKED_STARS as int, MIN_BLOB_PIXELS as int, stars@));
                    assert(updated(
                        before,
                        self.tracker.stars@,
                        stars@.map_values(|s: DetectedStar| s.centroid_spec()),
                        t,
                    ));
                }
                if self.tracker.acquired_count() >= TRACKED_STARS {
                    self.state = State::PostProcessing;
                } else {
                    self.state = State::Capture;
                }
            },
        }
    }

    /// Ends a cycle, whether the position estimate succeeded or not: moves
    /// to `Capture`.
    pub fn post_processing(&mut self)
        ensures
            final(self).state_spec() == State::Capture,
            final(self).frame_spec() == old(self).frame_spec(),
            final(self).tracker_spec() == old(self).tracker_spec(),
    {
        self.state = State::Capture;
    }

    /// Advances one transition. `captured` is what the video source gave,
    /// used in state `Capture` only; `t` is the epoch of the cycle. Returns
    /// whether this step is the `PostProcessing` one, after which the
    /// caller estimates the position from the tracked stars.
    pub fn resolve(&mut self, t: i64, captured: Option<Frame<'a>>) -> (estimate: bool)
        ensures
            estimate == (old(self).state_spec() == State::PostProcessing),
            old(self).state_spec() == State::Capture ==> final(self).state_spec()
                == State::VideoProcessing,
            old(self).state_spec() == State::VideoProcessing && count_acquired(
                final(self).tracker_spec().stars@,
            ) < TRACKED_STARS ==> final(self).state_spec() == State::Capture,
            old(self).state_spec() == State::VideoProcessing && !old(self).has_frame() ==> final(self).state_spec() == State::Capture,
            old(self).state_spec() == State::VideoProcessing && old(self).has_frame()
                && count_acquired(final(self).tracker_spec().stars@) >= TRACKED_STARS ==> final(self).state_spec() == State::PostProcessing,
            old(self).state_spec() == State::PostProcessing ==> final(self).state_spec()
                == State::Capture,
            old(self).state_spec() == State::Capture && captured is Some ==> final(self).frame_spec()
                == captured,
            old(self).state_spec() != State::Capture || captured is None ==> final(self).frame_spec()
                == old(self).frame_spec(),
            old(self).state_spec() != State::VideoProcessing ==> final(self).tracker_spec()
                == old(self).tracker_spec(),
            old(self).state_spec() == State::VideoProcessing ==> (old(self).frame_spec() matches Some(
                f,
            ) ==> processed(f, old(self).tracker_spec().stars@, final(self).tracker_spec().stars@, t)),
    {
        match self.state {
            State::Capture => {
                self.video_capture(captured);
                false
            },
            State::VideoProcessing => {
                self.video_processing(t);
                false
            },
            State::PostProcessing => {
                self.post_processing();
                true
            },
        }
    }
}

proof fn lemma_none_acquired(s: Seq<crate::tracker::Star>)
    requires
        forall|k: int| 0 <= k < s.len() ==> !s[k].acquired,
    ensures
        count_acquired(s) == 0,
    decreases s.len(),
{
    if s.len() > 0 {
        lemma_none_acquired(s.drop_last());
    }
}

} // verus!
