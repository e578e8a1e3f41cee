//! The media-probe collaborator: where its binaries live and exactly what
//! they are asked, as plain argument lists. The calls themselves are I/O
//! and live outside this library; the probe's duration output is parsed by
//! [`crate::numbers::parse_duration_ms`].

use vstd::prelude::*;

use crate::numbers::seconds_text;
use crate::numbers::format_seconds_ms;
use crate::text::{join_path, path_join};

verus! {

/// The locations of the ffmpeg and ffprobe binaries.
pub struct FFMpeg {
    ffmpeg_bin_path: String,
    ffprobe_bin_path: String,
}

/// Creates and returns the path to the ffmpeg binary.
pub fn create_ffmpeg_bin_path(ffmpeg_dir: &str) -> (r: String)
    ensures
        r@ == path_join(ffmpeg_dir@, "ffmpeg"@),
{
    join_path(ffmpeg_dir, "ffmpeg")
}

/// Creates and returns the path to the ffprobe binary.
pub fn create_ffprobe_bin_path(ffprobe_dir: &str) -> (r: String)
    ensures
        r@ == path_join(ffprobe_dir@, "ffprobe"@),
{
    join_path(ffprobe_dir, "ffprobe")
}

impl FFMpeg {
    /// The path of the ffmpeg binary.
    pub closed spec fn ffmpeg_bin_spec(self) -> Seq<char> {
        self.ffmpeg_bin_path@
    }

    /// The path of the ffprobe binary.
    pub closed spec fn ffprobe_bin_spec(self) -> Seq<char> {
        self.ffprobe_bin_path@
    }

    /// Creates a new instance for binaries under the given directory.
    pub fn new(root_dir: &str) -> (r: Self)
        ensures
            r.ffmpeg_bin_spec() == path_join(root_dir@, "ffmpeg"@),
            r.ffprobe_bin_spec() == path_join(root_dir@, "ffprobe"@),
    {
        FFMpeg {
            ffmpeg_bin_path: create_ffmpeg_bin_path(root_dir),
            ffprobe_bin_path: create_ffprobe_bin_path(root_dir),
        }
    }

    /// The path of the ffmpeg binary, for the caller that spawns it.
    pub fn ffmpeg_bin(&self) -> (r: &String)
        ensures
            r@ == self.ffmpeg_bin_spec(),
    {
        &self.ffmpeg_bin_path
    }

    /// The path of the ffprobe binary, for the caller that spawns it.
    pub fn ffprobe_bin(&self) -> (r: &String)
        ensures
            r@ == self.ffprobe_bin_spec(),
    {
        &self.ffprobe_bin_path
    }

    /// The argument list that asks ffprobe to print nothing but the
    /// duration of the given movie file in seconds.
    pub fn duration_args(&self, movie_file: &str) -> (r: Vec<String>)
        ensures
            r@.len() == 7,
            r@[0]@ == "-v"@,
            r@[1]@ == "error"@,
            r@[2]@ == "-show_entries"@,
            r@[3]@ == "format=duration"@,
            r@[4]@ == "-of"@,
            r@[5]@ == "default=noprint_wrappers=1:nokey=1"@,
            r@[6]@ == movie_file@,
    {
        let mut r: Vec<String> = Vec::new();
        r.push("-v".to_owned());
        r.push("error".to_owned());
        r.push("-show_entries".to_owned());
        r.push("format=duration".to_owned());
        r.push("-of".to_owned());
        r.push("default=noprint_wrappers=1:nokey=1".to_owned());
        r.push(movie_file.to_owned());
        r
    }

    /// The argument list that asks ffmpeg for one PNG-encoded frame of
    /// the given movie file at the given instant, written to its standard
    /// output.
    pub fn screenshot_args(&self, movie_file: &str, timestamp_ms: u64) -> (r: Vec<String>)
        ensures
            r@.len() == 13,
            r@[0]@ == "-ss"@,
            r@[1]@ == seconds_text(timestamp_ms),
            r@[2]@ == "-i"@,
            r@[3]@ == movie_file@,
            r@[4]@ == "-vframes"@,
            r@[5]@ == "1"@,
            r@[6]@ == "-q:v"@,
            r@[7]@ == "2"@,
            r@[8]@ == "-c:v"@,
            r@[9]@ == "png"@,
            r@[10]@ == "-f"@,
            r@[11]@ == "image2pipe"@,
            r@[12]@ == "-"@,
    {
        let mut r: Vec<String> = Vec::new();
        r.push("-ss".to_owned());
        r.push(format_seconds_ms(timestamp_ms));
        r.push("-i".to_owned());
        r.push(movie_file.to_owned());
        r.push("-vframes".to_owned());
        r.push("1".to_owned());
        r.push("-q:v".to_owned());
        r.push("2".to_owned());
        r.push("-c:v".to_owned());
        r.push("png".to_owned());
        r.push("-f".to_owned());
        r.push("image2pipe".to_owned());
        r.push("-".to_owned());
        r
    }

    /// The argument list that asks a binary for its version banner.
    pub fn version_args(&self) -> (r: Vec<String>)
        ensures
            r@.len() == 1,
            r@[0]@ == "-version"@,
    {
        let mut r: Vec<String> = Vec::new();
        r.push("-version".to_owned());
        r
    }
}

} // verus!
