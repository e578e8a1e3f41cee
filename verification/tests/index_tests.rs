use movies_db::{
    Movie, MovieDetailed, MovieFileInfo, MovieId, MovieSearchQuery, Options, ScreenshotInfo,
    SimpleMoviesIndex, SortingField, SortingOrder,
};

fn create_test_movies() -> Vec<Movie> {
    vec![
        Movie { title: "Doctor Who".to_owned(), description: "The Doctor, a Time Lord from the race whose home planet is Gallifrey, travels through time and space in their ship the TARDIS (an acronym for Time and Relative Dimension In Space) with numerous companions.".to_owned(), tags: vec!["Sci-Fi".to_owned(), "time travel".to_owned(), "british".to_owned(), "tv show".to_owned()] },
        Movie { title: "The X-Files".to_owned(), description: "Two F.B.I. Agents, Fox Mulder the believer and Dana Scully the skeptic, investigate the strange and unexplained, while hidden forces work to impede their efforts.".to_owned(), tags: vec!["crime".to_owned(), "drama".to_owned(), "mystery".to_owned(), "usa".to_owned(), "tv show".to_owned()] },
        Movie { title: "E.T. the Extra-Terrestrial".to_owned(), description: "A troubled child summons the courage to help a friendly alien escape from Earth and return to his home planet.".to_owned(), tags: vec!["adventure".to_owned(), "family".to_owned(), "Sci-Fi".to_owned(), "usa".to_owned(), "movie".to_owned()] },
        Movie { title: "Das Boot".to_owned(), description: "A German U-boat stalks the frigid waters of the North Atlantic as its young crew experience the sheer terror and claustrophobic life of a submariner in World War II.".to_owned(), tags: vec!["drama".to_owned(), "war".to_owned(), "germany".to_owned(), "movie".to_owned()] },
    ]
}

fn movie_ids_to_titles(index: &SimpleMoviesIndex, movie_ids: &[MovieId]) -> Vec<String> {
    let mut movie_titles: Vec<String> = Vec::with_capacity(movie_ids.len());
    for movie_id in movie_ids {
        let movie = index.get_movie(movie_id).unwrap();
        movie_titles.push(movie.movie.title.clone());
    }
    movie_titles
}

#[test]
fn test_add_movie() {
    let mut index = SimpleMoviesIndex::new(&Options::default()).unwrap();

    let movies = create_test_movies();

    for movie in movies {
        let ret = index.add_movie(movie.clone());
        assert!(ret.is_ok());
    }
}

#[test]
fn test_get_movie() {
    let mut index = SimpleMoviesIndex::new(&Options::default()).unwrap();
    let movies = create_test_movies();

    let mut movie_ids: Vec<MovieId> = Vec::with_capacity(movies.len());
    for movie in movies.iter() {
        let id = index.add_movie(movie.clone()).unwrap();
        movie_ids.push(id);
    }

    for (id, movie) in movie_ids.iter().zip(movies.iter()) {
        let db_movie = index.get_movie(id).unwrap();

        assert_eq!(movie.title, db_movie.movie.title);
        assert_eq!(movie.description, db_movie.movie.description);

        let mut ref_tags = movie.tags.clone();
        SimpleMoviesIndex::process_tags(&mut ref_tags);
        assert_eq!(ref_tags, db_movie.movie.tags);
    }
}

#[test]
fn test_remove_movie() {
    let mut index = SimpleMoviesIndex::new(&Options::default()).unwrap();
    let movies = create_test_movies();

    let mut movie_ids: Vec<MovieId> = Vec::with_capacity(movies.len());
    for movie in movies.iter() {
        let id = index.add_movie(movie.clone()).unwrap();
        movie_ids.push(id);
    }

    movie_ids.sort();

    index.remove_movie(&movie_ids[0]).unwrap();
    assert!(index.remove_movie(&movie_ids[0]).is_err());

    let movie_ids = &movie_ids[1..];
    let mut listed_movie_ids = index.search_movies(Default::default()).unwrap();
    listed_movie_ids.sort();

    assert_eq!(movie_ids, listed_movie_ids);
}

#[test]
fn test_query_movies() {
    let mut index = SimpleMoviesIndex::new(&Options::default()).unwrap();
    let movies = create_test_movies();

    for movie in movies.iter() {
        let ret = index.add_movie(movie.clone());
        assert!(ret.is_ok());
    }

    // query 1A: search all movies (ascending order by title)
    let mut query: MovieSearchQuery = Default::default();
    query.sorting_field = SortingField::Title;
    query.sorting_order = SortingOrder::Ascending;
    let movie_title: Vec<String> =
        movie_ids_to_titles(&index, &index.search_movies(query).unwrap());

    assert_eq!(
        movie_title,
        vec!["Das Boot", "Doctor Who", "E.T. the Extra-Terrestrial", "The X-Files",]
    );

    // query 1B: search all movies (descending order by title)
    let mut query: MovieSearchQuery = Default::default();
    query.sorting_field = SortingField::Title;
    query.sorting_order = SortingOrder::Descending;
    let movie_title: Vec<String> =
        movie_ids_to_titles(&index, &index.search_movies(query).unwrap());

    assert_eq!(
        movie_title,
        vec!["The X-Files", "E.T. the Extra-Terrestrial", "Doctor Who", "Das Boot",]
    );

    // query 2: search only science fiction movies
    let mut query: MovieSearchQuery = Default::default();
    query.tags = vec!["Sci-Fi".to_owned()];
    query.sorting_field = SortingField::Title;
    query.sorting_order = SortingOrder::Ascending;
    let search_result = index.search_movies(query).unwrap();
    let title_list: Vec<String> = movie_ids_to_titles(&index, &search_result);
    assert_eq!(
        title_list,
        vec!["Doctor Who".to_owned(), "E.T. the Extra-Terrestrial".to_owned()]
    );

    // query 3: search 'Das Boot'
    let query = MovieSearchQuery {
        sorting_field: Default::default(),
        sorting_order: Default::default(),
        title: Some("Boot".to_owned()),
        tags: vec![],
        start_index: None,
        num_results: None,
    };
    assert_eq!(index.search_movies(query).unwrap().len(), 0);
    let query = MovieSearchQuery {
        sorting_field: Default::default(),
        sorting_order: Default::default(),
        title: Some("*Boot".to_owned()),
        tags: vec![],
        start_index: None,
        num_results: None,
    };
    assert_eq!(
        movie_ids_to_titles(&index, &index.search_movies(query).unwrap()),
        ["Das Boot"]
    );

    // query 4: limited ranges
    let query = MovieSearchQuery {
        sorting_field: SortingField::Title,
        sorting_order: SortingOrder::Ascending,
        title: None,
        tags: vec![],
        start_index: Some(0),
        num_results: Some(1),
    };
    assert_eq!(
        movie_ids_to_titles(&index, &index.search_movies(query).unwrap()),
        ["Das Boot"]
    );
    let query = MovieSearchQuery {
        sorting_field: SortingField::Title,
        sorting_order: SortingOrder::Ascending,
        title: None,
        tags: vec![],
        start_index: Some(1),
        num_results: Some(2),
    };
    assert_eq!(
        movie_ids_to_titles(&index, &index.search_movies(query).unwrap()),
        ["Doctor Who", "E.T. the Extra-Terrestrial"]
    );
}

#[test]
fn test_add_movie_file_info() {
    let mut index = SimpleMoviesIndex::new(&Options::default()).unwrap();
    let movies = create_test_movies();

    let mut movie_ids: Vec<MovieId> = Vec::with_capacity(movies.len());
    for movie in movies.iter() {
        let ret = index.add_movie(movie.clone());
        assert!(ret.is_ok());

        movie_ids.push(ret.unwrap());
    }

    // make sure none of the added movies has a file info
    for movie_id in movie_ids.iter() {
        let movie = index.get_movie(movie_id).unwrap();
        assert!(movie.movie_file_info.is_none());
    }

    // add movie file info only to the first two movies
    let (left_movie_ids, right_movie_ids) = movie_ids.split_at(2);
    assert_eq!(left_movie_ids.len(), 2);
    let movie_file_infos = [
        MovieFileInfo { extension: ".mp4".to_owned(), mime_type: "video/mp4".to_owned() },
        MovieFileInfo { extension: ".wmv".to_owned(), mime_type: "video/x-ms-wmv".to_owned() },
    ];

    for (movie_id, movie_file_info) in left_movie_ids.iter().zip(movie_file_infos.iter()) {
        index.update_movie_file_info(movie_id, movie_file_info.clone()).unwrap();
    }

    // check that the movie file info was added to the first two movies
    for (movie_id, movie_file_info) in left_movie_ids.iter().zip(movie_file_infos.iter()) {
        let movie = index.get_movie(movie_id).unwrap();
        assert_eq!(movie.movie_file_info, Some(movie_file_info.clone()));
    }

    // check that the movie file info was not added to the other movies
    for movie_id in right_movie_ids.iter() {
        let movie = index.get_movie(movie_id).unwrap();
        assert!(movie.movie_file_info.is_none());
    }
}

#[test]
fn test_add_screenshot_info() {
    let mut index = SimpleMoviesIndex::new(&Options::default()).unwrap();
    let movies = create_test_movies();

    let mut movie_ids: Vec<MovieId> = Vec::with_capacity(movies.len());
    for movie in movies.iter() {
        let ret = index.add_movie(movie.clone());
        assert!(ret.is_ok());

        movie_ids.push(ret.unwrap());
    }

    // make sure none of the added movies has a screenshot info
    for movie_id in movie_ids.iter() {
        let movie = index.get_movie(movie_id).unwrap();
        assert!(movie.screenshot_file_info.is_none());
    }

    // add screenshot info only to the first two movies
    let (left_movie_ids, right_movie_ids) = movie_ids.split_at(2);
    assert_eq!(left_movie_ids.len(), 2);
    let screenshot_infos = [
        ScreenshotInfo { extension: ".png".to_owned(), mime_type: "video/png".to_owned() },
        ScreenshotInfo { extension: ".jpeg".to_owned(), mime_type: "image/jpeg".to_owned() },
    ];

    for (movie_id, screenshot_info) in left_movie_ids.iter().zip(screenshot_infos.iter()) {
        index.update_screenshot_info(movie_id, screenshot_info.clone()).unwrap();
    }

    // check that the screenshot info was added to the first two movies
    for (movie_id, screenshot_info) in left_movie_ids.iter().zip(screenshot_infos.iter()) {
        let movie: MovieDetailed = index.get_movie(movie_id).unwrap();
        assert_eq!(movie.screenshot_file_info, Some(screenshot_info.clone()));
    }

    // check that the screenshot info was not added to the other movies
    for movie_id in right_movie_ids.iter() {
        let movie = index.get_movie(movie_id).unwrap();
        assert!(movie.screenshot_file_info.is_none());
    }
}
