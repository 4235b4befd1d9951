//! Housekeeping for movie files: the SubRip (SRT) subtitle engine, and the
//! plain decisions behind the command-line tools that drive ffmpeg, a pager
//! and a tracker-list download.
use vstd::prelude::*;

pub mod text;
pub mod common;
pub mod ffmpeg;
pub mod sub;

verus! {

} // verus!
