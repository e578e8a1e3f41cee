//! The options shared by the service's components, as plain values: the
//! storage root, the address text the HTTP front end binds to, and the
//! directory holding the media-probing binaries.

use vstd::prelude::*;

verus! {

/// How verbose the program's logging is asked to be.
#[derive(Clone, Copy, Debug, PartialEq, Eq, Structural)]
pub enum LogLevel {
    Trace,
    Debug,
    Info,
    Warn,
    Error,
}

/// The options for the service.
#[derive(Clone, Debug)]
pub struct Options {
    /// The directory under which all movie data is stored.
    pub root_dir: String,
    /// The address text to bind the HTTP server to, e.g. "127.0.0.1:3030".
    pub http_address: String,
    /// The directory where the ffmpeg and ffprobe binaries are located.
    pub ffmpeg: String,
}

impl Default for Options {
    /// Stores under the working directory, binds locally, and looks for
    /// the probing binaries under /usr/bin.
    fn default() -> (r: Self)
        ensures
            r.root_dir@ == "./"@,
            r.http_address@ == "127.0.0.1:3030"@,
            r.ffmpeg@ == "/usr/bin/"@,
    {
        Options {
            root_dir: "./".to_owned(),
            http_address: "127.0.0.1:3030".to_owned(),
            ffmpeg: "/usr/bin/".to_owned(),
        }
    }
}

} // verus!
