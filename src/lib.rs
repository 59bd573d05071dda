//! Celestial navigation: star detection in video frames, star tracking
//! across frames, and the navigation state machine that drives them.
use vstd::prelude::*;

pub mod frame;
pub mod solver;
pub mod tracker;

use crate::frame::Frame;

verus! {

/// Implement [VideoSource] to provide new video [Frame]s to the solver.
/// `next` returns promptly, with a frame or with nothing.
pub trait VideoSource<'a> {
    fn next(&mut self) -> Option<Frame<'a>>;
}

/// Errors raised when a frame is built from inconsistent inputs.
#[derive(Debug, Clone, Copy, PartialEq, Eq, Structural)]
pub enum Error {
    /// The pixel encoding is not one of the supported formats.
    VideoFormatError,
    /// The backing buffer does not hold exactly width × height samples.
    VideoDimensionError,
}

} // verus!
