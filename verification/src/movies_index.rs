//! The catalog data model: movies, their derived file metadata, and the
//! search queries understood by every index backend.

use vstd::prelude::*;

use crate::text::str_views;

verus! {

/// A single movie in the catalog.
#[derive(Clone, Debug)]
pub struct Movie {
    /// The title of the movie.
    pub title: String,
    /// An optional description of the movie.
    pub description: String,
    /// A list of tags associated with the movie, compared in lowercase.
    pub tags: Vec<String>,
}

/// The mathematical value of a [`Movie`].
pub struct MovieV {
    pub title: Seq<char>,
    pub description: Seq<char>,
    pub tags: Seq<Seq<char>>,
}

impl View for Movie {
    type V = MovieV;

    open spec fn view(&self) -> MovieV {
        MovieV { title: self.title@, description: self.description@, tags: str_views(self.tags@) }
    }
}

/// The file info for a stored movie file.
#[derive(Clone, Debug, PartialEq, Eq)]
pub struct MovieFileInfo {
    /// The extension of the movie file in lower case, e.g., "mp4".
    pub extension: String,
    /// The mime type of the movie file, e.g., "video/mp4".
    pub mime_type: String,
}

/// The screenshot info for a stored preview image.
#[derive(Clone, Debug, PartialEq, Eq)]
pub struct ScreenshotInfo {
    /// The extension of the screenshot file in lower case, e.g., "png".
    pub extension: String,
    /// The mime type of the screenshot file, e.g., "image/png".
    pub mime_type: String,
}

/// The mathematical value of a [`MovieFileInfo`] or a [`ScreenshotInfo`]:
/// an extension and a mime type.
pub struct FileInfoV {
    pub extension: Seq<char>,
    pub mime_type: Seq<char>,
}

impl View for MovieFileInfo {
    type V = FileInfoV;

    open spec fn view(&self) -> FileInfoV {
        FileInfoV { extension: self.extension@, mime_type: self.mime_type@ }
    }
}

impl View for ScreenshotInfo {
    type V = FileInfoV;

    open spec fn view(&self) -> FileInfoV {
        FileInfoV { extension: self.extension@, mime_type: self.mime_type@ }
    }
}

/// A movie entry together with its derived file metadata and its creation
/// timestamp, counted in microsecond ticks.
#[derive(Clone, Debug)]
pub struct MovieDetailed {
    pub movie: Movie,
    pub movie_file_info: Option<MovieFileInfo>,
    pub screenshot_file_info: Option<ScreenshotInfo>,
    pub date: i64,
}

/// The mathematical value of a [`MovieDetailed`].
pub struct MovieDetailedV {
    pub movie: MovieV,
    pub movie_file_info: Option<FileInfoV>,
    pub screenshot_file_info: Option<FileInfoV>,
    pub date: int,
}

impl View for MovieDetailed {
    type V = MovieDetailedV;

    open spec fn view(&self) -> MovieDetailedV {
        MovieDetailedV {
            movie: self.movie@,
            movie_file_info: match self.movie_file_info {
                Some(f) => Some(f@),
                None => None,
            },
            screenshot_file_info: match self.screenshot_file_info {
                Some(f) => Some(f@),
                None => None,
            },
            date: self.date as int,
        }
    }
}

/// The field by which search results are ordered.
#[derive(Clone, Copy, Debug, PartialEq, Eq, Structural)]
pub enum SortingField {
    /// Order by title, under codepoint-lexicographic comparison.
    Title,
    /// Order by creation timestamp, chronologically.
    Date,
}

impl Default for SortingField {
    /// Searches order by creation date unless asked otherwise.
    fn default() -> (r: Self)
        ensures
            r == SortingField::Date,
    {
        SortingField::Date
    }
}

/// The direction in which search results are ordered.
#[derive(Clone, Copy, Debug, PartialEq, Eq, Structural)]
pub enum SortingOrder {
    Ascending,
    Descending,
}

impl Default for SortingOrder {
    /// Searches order descending unless asked otherwise.
    fn default() -> (r: Self)
        ensures
            r == SortingOrder::Descending,
    {
        SortingOrder::Descending
    }
}

/// A query for searching movies in the catalog.
#[derive(Clone, Debug)]
pub struct MovieSearchQuery {
    /// The field used for sorting.
    pub sorting_field: SortingField,
    /// The order used for sorting.
    pub sorting_order: SortingOrder,
    /// Optionally, a glob pattern for the title: only movies whose title
    /// matches the pattern are returned.
    pub title: Option<String>,
    /// Tags that must all be present on a movie, compared in lowercase.
    pub tags: Vec<String>,
    /// Optionally, how many filtered results to skip.
    pub start_index: Option<usize>,
    /// Optionally, the maximal number of results to return.
    pub num_results: Option<usize>,
}

/// The mathematical value of a [`MovieSearchQuery`].
pub struct MovieSearchQueryV {
    pub sorting_field: SortingField,
    pub sorting_order: SortingOrder,
    pub title: Option<Seq<char>>,
    pub tags: Seq<Seq<char>>,
    pub start_index: Option<usize>,
    pub num_results: Option<usize>,
}

impl View for MovieSearchQuery {
    type V = MovieSearchQueryV;

    open spec fn view(&self) -> MovieSearchQueryV {
        MovieSearchQueryV {
            sorting_field: self.sorting_field,
            sorting_order: self.sorting_order,
            title: match self.title {
                Some(t) => Some(t@),
                None => None,
            },
            tags: str_views(self.tags@),
            start_index: self.start_index,
            num_results: self.num_results,
        }
    }
}

impl Default for MovieSearchQuery {
    /// The query that matches every movie and returns it, ordered by
    /// creation date descending.
    fn default() -> (r: Self)
        ensures
            r.sorting_field == SortingField::Date,
            r.sorting_order == SortingOrder::Descending,
            r.title is None,
            r.tags@.len() == 0,
            r.start_index is None,
            r.num_results is None,
    {
        MovieSearchQuery {
            sorting_field: SortingField::Date,
            sorting_order: SortingOrder::Descending,
            title: None,
            tags: Vec::new(),
            start_index: None,
            num_results: None,
        }
    }
}

} // verus!
