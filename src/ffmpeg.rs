//! The ffmpeg tools that the subtitle commands run.
use vstd::prelude::*;

verus! {

/// One of the two ffmpeg programs.
#[derive(Debug, Clone, Copy, PartialEq, Eq, Structural)]
pub enum FfmpegTool {
    Ffmpeg,
    Ffprobe,
}

impl FfmpegTool {
    /// The name of the program's executable.
    pub fn cli_name(&self) -> (r: &'static str)
        ensures
            r@ == match self {
                FfmpegTool::Ffmpeg => "ffmpeg"@,
                FfmpegTool::Ffprobe => "ffprobe"@,
            },
    {
        match self {
            FfmpegTool::Ffmpeg => "ffmpeg",
            FfmpegTool::Ffprobe => "ffprobe",
        }
    }
}

} // verus!
