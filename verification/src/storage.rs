//! The blob-store collaborator contract: what kinds of data live under a
//! movie's namespace and exactly where each blob is placed. The byte-level
//! reads and writes are I/O and live outside this library.

use vstd::prelude::*;
use vstd::string::StringExecFns;

use crate::error::Error;
use crate::id::MovieId;
use crate::options::Options;
use crate::text::{join_path, path_join};

verus! {

/// The type of data to store for a movie.
#[derive(Debug)]
pub enum MovieDataType {
    /// The movie file itself, with its file extension.
    MovieData { ext: String },
    /// The preview screenshot, with its file extension.
    ScreenshotData { ext: String },
}

/// The file name a data type is stored under within its movie's directory.
pub open spec fn data_file_name(d: MovieDataType) -> Seq<char> {
    match d {
        MovieDataType::MovieData { ext } => "movie."@ + ext@,
        MovieDataType::ScreenshotData { ext } => "screenshot."@ + ext@,
    }
}

/// A readable resource of a known size; storage backends implement it for
/// whatever carries their bytes.
pub trait ReadResource {
    /// The size of the resource in bytes.
    fn get_size(&self) -> usize;
}

/// File-system layout of the blob store: every movie's data lives in one
/// directory named after its id, under a common root.
pub struct FileStorage {
    root_dir: String,
}

impl FileStorage {
    /// The root directory all movie data lives under.
    pub closed spec fn root_spec(self) -> Seq<char> {
        self.root_dir@
    }

    /// Creates a new instance of the storage layout for the configured
    /// root directory.
    pub fn new(options: &Options) -> (r: Result<Self, Error>)
        ensures
            r is Ok,
            r matches Ok(st) ==> st.root_spec() == options.root_dir@,
    {
        Ok(FileStorage { root_dir: options.root_dir.clone() })
    }

    /// Returns the directory holding all data of the given movie.
    pub fn get_movie_data_path(&self, id: &MovieId) -> (r: String)
        ensures
            r@ == path_join(self.root_spec(), id@),
    {
        join_path(self.root_dir.as_str(), id.as_str())
    }

    /// Returns the file path for the given movie id and data type.
    pub fn get_file_path(&self, id: &MovieId, data_type: &MovieDataType) -> (r: String)
        ensures
            r@ == path_join(path_join(self.root_spec(), id@), data_file_name(*data_type)),
    {
        let dir = self.get_movie_data_path(id);
        let name = match data_type {
            MovieDataType::MovieData { ext } => {
                let n = "movie.".to_owned().concat(ext.as_str());
                proof {
                    assert(n@ == data_file_name(*data_type));
                }
                n
            },
            MovieDataType::ScreenshotData { ext } => {
                let n = "screenshot.".to_owned().concat(ext.as_str());
                proof {
                    assert(n@ == data_file_name(*data_type));
                }
                n
            },
        };
        join_path(dir.as_str(), name.as_str())
    }
}

} // verus!
