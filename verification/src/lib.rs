//! A small movie catalog library: an in-memory index with verified
//! add/get/remove/update operations, filtered and sorted search with
//! pagination, tag statistics, and the decision logic of a background
//! preview-generation worker.

pub mod clock;
pub mod ffmpeg;
pub mod error;
pub mod id;
pub mod movies_index;
pub mod numbers;
pub mod options;
pub mod preview_generator;
pub mod storage;
pub mod simple_movies_index;
pub mod text;

pub use error::Error;
pub use id::MovieId;
pub use id::generate_movie_id;
pub use movies_index::Movie;
pub use movies_index::MovieDetailed;
pub use movies_index::MovieFileInfo;
pub use movies_index::MovieSearchQuery;
pub use movies_index::ScreenshotInfo;
pub use movies_index::SortingField;
pub use movies_index::SortingOrder;
pub use options::LogLevel;
pub use options::Options;
pub use simple_movies_index::SimpleMoviesIndex;
pub use ffmpeg::FFMpeg;
pub use ffmpeg::create_ffmpeg_bin_path;
pub use ffmpeg::create_ffprobe_bin_path;
pub use storage::FileStorage;
pub use storage::MovieDataType;
pub use storage::ReadResource;
pub use preview_generator::ScreenshotRequest;
pub use preview_generator::JobOutcome;
