use movies_db::{
    create_ffmpeg_bin_path, create_ffprobe_bin_path, generate_movie_id, Error, FFMpeg, JobOutcome,
    Movie, MovieDataType, MovieFileInfo, MovieSearchQuery, Options, ScreenshotRequest,
    SimpleMoviesIndex, SortingField, SortingOrder,
};
use movies_db::numbers::{format_seconds_ms, parse_duration_ms, u64_to_string};
use movies_db::preview_generator::{drain_queue, plan_missing_previews};
use movies_db::storage::FileStorage;

fn add(index: &mut SimpleMoviesIndex, title: &str, tags: &[&str]) -> String {
    index
        .add_movie(Movie {
            title: title.to_owned(),
            description: String::new(),
            tags: tags.iter().map(|t| t.to_string()).collect(),
        })
        .unwrap()
}

#[test]
fn test_empty_title_rejected() {
    let mut index = SimpleMoviesIndex::new(&Options::default()).unwrap();
    let r = index.add_movie(Movie {
        title: String::new(),
        description: "no title".to_owned(),
        tags: vec![],
    });
    assert!(matches!(r, Err(Error::InvalidArgument(_))));
    assert_eq!(index.search_movies(MovieSearchQuery::default()).unwrap().len(), 0);
}

#[test]
fn test_unknown_id_not_found() {
    let mut index = SimpleMoviesIndex::new(&Options::default()).unwrap();
    let id = generate_movie_id();
    assert!(matches!(index.get_movie(&id), Err(Error::NotFound(_))));
    assert!(matches!(index.remove_movie(&id), Err(Error::NotFound(_))));
    let info = MovieFileInfo { extension: "mp4".to_owned(), mime_type: "video/mp4".to_owned() };
    assert!(matches!(index.update_movie_file_info(&id, info), Err(Error::NotFound(_))));
}

#[test]
fn test_change_operations() {
    let mut index = SimpleMoviesIndex::new(&Options::default()).unwrap();
    let id = add(&mut index, "Working Title", &["Old-Tag"]);
    index.change_title(&id, "Final Title".to_owned()).unwrap();
    index.change_description(&id, "A better synopsis".to_owned()).unwrap();
    index.change_tags(&id, vec!["Zeta".to_owned(), "Alpha".to_owned()]).unwrap();
    let entry = index.get_movie(&id).unwrap();
    assert_eq!(entry.movie.title, "Final Title");
    assert_eq!(entry.movie.description, "A better synopsis");
    assert_eq!(entry.movie.tags, vec!["alpha".to_owned(), "zeta".to_owned()]);
}

#[test]
fn test_end_to_end_example() {
    let mut index = SimpleMoviesIndex::new(&Options::default()).unwrap();
    let x = add(&mut index, "Das Boot", &["War", "Germany"]);
    let y = add(&mut index, "Doctor Who", &["Sci-Fi"]);

    let mut query = MovieSearchQuery::default();
    query.sorting_field = SortingField::Title;
    query.sorting_order = SortingOrder::Ascending;
    assert_eq!(index.search_movies(query).unwrap(), vec![x.clone(), y.clone()]);

    let mut query = MovieSearchQuery::default();
    query.tags = vec!["sci-fi".to_owned()];
    assert_eq!(index.search_movies(query).unwrap(), vec![y.clone()]);

    let mut query = MovieSearchQuery::default();
    query.title = Some("*Boot".to_owned());
    assert_eq!(index.search_movies(query).unwrap(), vec![x.clone()]);

    index.remove_movie(&x).unwrap();
    assert_eq!(index.search_movies(MovieSearchQuery::default()).unwrap(), vec![y.clone()]);
}

#[test]
fn test_offset_beyond_count_is_empty() {
    let mut index = SimpleMoviesIndex::new(&Options::default()).unwrap();
    add(&mut index, "Alpha", &[]);
    add(&mut index, "Beta", &[]);
    let mut query = MovieSearchQuery::default();
    query.start_index = Some(2);
    assert_eq!(index.search_movies(query).unwrap().len(), 0);
    let mut query = MovieSearchQuery::default();
    query.start_index = Some(17);
    query.num_results = Some(3);
    assert_eq!(index.search_movies(query).unwrap().len(), 0);
}

#[test]
fn test_question_mark_pattern() {
    let mut index = SimpleMoviesIndex::new(&Options::default()).unwrap();
    add(&mut index, "Alien", &[]);
    add(&mut index, "Aliens", &[]);
    let mut query = MovieSearchQuery::default();
    query.title = Some("Alien?".to_owned());
    let ids = index.search_movies(query).unwrap();
    assert_eq!(ids.len(), 1);
    assert_eq!(index.get_movie(&ids[0]).unwrap().movie.title, "Aliens");
}

#[test]
fn test_tag_counts() {
    let mut index = SimpleMoviesIndex::new(&Options::default()).unwrap();
    add(&mut index, "First", &["Drama", "war"]);
    add(&mut index, "Second", &["drama", "Comedy"]);
    add(&mut index, "Third", &["drama", "comedy"]);
    let counts = index.get_tag_list_with_count().unwrap();
    assert_eq!(
        counts,
        vec![
            ("drama".to_owned(), 3usize),
            ("comedy".to_owned(), 2usize),
            ("war".to_owned(), 1usize),
        ]
    );
}

#[test]
fn test_tag_counts_tie_order() {
    let mut index = SimpleMoviesIndex::new(&Options::default()).unwrap();
    add(&mut index, "Only", &["zebra", "apple"]);
    let counts = index.get_tag_list_with_count().unwrap();
    assert_eq!(counts, vec![("apple".to_owned(), 1usize), ("zebra".to_owned(), 1usize)]);
}

#[test]
fn test_preview_reconciliation_and_worker() {
    let mut index = SimpleMoviesIndex::new(&Options::default()).unwrap();
    let with_media = add(&mut index, "Has media", &[]);
    let without_media = add(&mut index, "No media", &[]);
    let info = MovieFileInfo { extension: "mp4".to_owned(), mime_type: "video/mp4".to_owned() };
    index.update_movie_file_info(&with_media, info).unwrap();

    let jobs = plan_missing_previews(&index);
    assert_eq!(jobs.len(), 1);
    assert_eq!(jobs[0].movie_id, with_media);
    assert_eq!(jobs[0].ext, "mp4");

    let outcomes = vec![JobOutcome {
        resolved: true,
        duration_ms: Some(60_000),
        extracted: true,
        stored: true,
    }];
    drain_queue(&mut index, &jobs, &outcomes);

    let entry = index.get_movie(&with_media).unwrap();
    let preview = entry.screenshot_file_info.unwrap();
    assert_eq!(preview.extension, "png");
    assert_eq!(preview.mime_type, "image/png");
    assert!(index.get_movie(&without_media).unwrap().screenshot_file_info.is_none());
}

#[test]
fn test_failed_job_does_not_halt_queue() {
    let mut index = SimpleMoviesIndex::new(&Options::default()).unwrap();
    let first = add(&mut index, "Probe fails", &[]);
    let second = add(&mut index, "Probe works", &[]);
    let info = MovieFileInfo { extension: "mkv".to_owned(), mime_type: "video/x-matroska".to_owned() };
    index.update_movie_file_info(&first, info.clone()).unwrap();
    index.update_movie_file_info(&second, info).unwrap();

    let jobs = vec![
        ScreenshotRequest { movie_id: first.clone(), ext: "mkv".to_owned() },
        ScreenshotRequest { movie_id: second.clone(), ext: "mkv".to_owned() },
    ];
    let outcomes = vec![
        JobOutcome { resolved: true, duration_ms: None, extracted: false, stored: false },
        JobOutcome { resolved: true, duration_ms: Some(90_000), extracted: true, stored: true },
    ];
    drain_queue(&mut index, &jobs, &outcomes);

    assert!(index.get_movie(&first).unwrap().screenshot_file_info.is_none());
    let preview = index.get_movie(&second).unwrap().screenshot_file_info.unwrap();
    assert_eq!(preview.extension, "png");
}

#[test]
fn test_parse_duration() {
    assert_eq!(parse_duration_ms("30.527000"), Some(30527));
    assert_eq!(parse_duration_ms("30"), Some(30000));
    assert_eq!(parse_duration_ms("0.5"), Some(500));
    assert_eq!(parse_duration_ms(".25"), Some(250));
    assert_eq!(parse_duration_ms("7."), Some(7000));
    assert_eq!(parse_duration_ms("12.3456789"), Some(12345));
    assert_eq!(parse_duration_ms(""), None);
    assert_eq!(parse_duration_ms("."), None);
    assert_eq!(parse_duration_ms("12a.5"), None);
    assert_eq!(parse_duration_ms("1.2.3"), None);
    assert_eq!(parse_duration_ms("30.527000\n"), None);
    assert_eq!(parse_duration_ms("1234567890123456"), None);
}

#[test]
fn test_format_numbers() {
    assert_eq!(u64_to_string(0), "0");
    assert_eq!(u64_to_string(907), "907");
    assert_eq!(format_seconds_ms(15_170), "15.170");
    assert_eq!(format_seconds_ms(999), "0.999");
    assert_eq!(format_seconds_ms(60_000), "60.000");
}

#[test]
fn test_paths_and_args() {
    assert_eq!(create_ffmpeg_bin_path("/usr/bin"), "/usr/bin/ffmpeg");
    assert_eq!(create_ffprobe_bin_path("/usr/bin/"), "/usr/bin/ffprobe");

    let ffmpeg = FFMpeg::new("/opt/tools");
    assert_eq!(ffmpeg.ffmpeg_bin().as_str(), "/opt/tools/ffmpeg");
    assert_eq!(ffmpeg.ffprobe_bin().as_str(), "/opt/tools/ffprobe");
    let args = ffmpeg.duration_args("/data/movie.mp4");
    assert_eq!(args[3], "format=duration");
    assert_eq!(args[6], "/data/movie.mp4");
    let args = ffmpeg.screenshot_args("/data/movie.mp4", 15_170);
    assert_eq!(args[1], "15.170");
    assert_eq!(args[9], "png");

    let mut options = Options::default();
    options.root_dir = "/data/movies".to_owned();
    let storage = FileStorage::new(&options).unwrap();
    let id = "abc".to_owned();
    assert_eq!(storage.get_movie_data_path(&id), "/data/movies/abc");
    assert_eq!(
        storage.get_file_path(&id, &MovieDataType::MovieData { ext: "mp4".to_owned() }),
        "/data/movies/abc/movie.mp4"
    );
    assert_eq!(
        storage.get_file_path(&id, &MovieDataType::ScreenshotData { ext: "png".to_owned() }),
        "/data/movies/abc/screenshot.png"
    );
}

#[test]
fn test_generated_id_shape() {
    let id = generate_movie_id();
    assert_eq!(id.len(), 36);
    let bytes = id.as_bytes();
    assert_eq!(bytes[8], b'-');
    assert_eq!(bytes[13], b'-');
    assert_eq!(bytes[18], b'-');
    assert_eq!(bytes[23], b'-');
    assert_ne!(generate_movie_id(), id);
}
