//! The reference in-memory backend of the catalog index: every operation is
//! specified against the sequence of entries the index holds, and the search
//! algorithm (sort, filter, paginate) is stated as a function of that
//! sequence.

use vstd::prelude::*;
use vstd::string::StringExecFns;

use crate::clock::now_ticks;
use crate::error::Error;
use crate::id::{generate_movie_id, MovieId};
use crate::movies_index::{
    FileInfoV, Movie, MovieDetailed, MovieDetailedV, MovieFileInfo, MovieSearchQuery,
    MovieSearchQueryV, MovieV, ScreenshotInfo,
};
use crate::options::Options;
use crate::text::{
    glob_match, lemma_lex_le_total, lemma_lex_le_trans, lemma_lex_trans, lemma_lex_trichotomy,
    lex_le, lex_lt, lower_of, normalized_tags_of, sort_strings, str_views, to_lowercase,
};
use crate::movies_index::{SortingField, SortingOrder};

verus! {

/// One slot of the in-memory index: an id together with its entry.
struct IndexSlot {
    id: MovieId,
    details: MovieDetailed,
}

/// The mathematical value of one catalog entry: its id and its data.
pub struct EntryV {
    pub id: Seq<char>,
    pub details: MovieDetailedV,
}

impl View for IndexSlot {
    type V = EntryV;

    closed spec fn view(&self) -> EntryV {
        EntryV { id: self.id@, details: self.details@ }
    }
}

/// A movie, with its tags lowercased and sorted.
pub open spec fn normalized_movie(m: MovieV) -> MovieV {
    MovieV { title: m.title, description: m.description, tags: normalized_tags_of(m.tags) }
}

/// The entry a fresh insertion creates: the movie with normalized tags, no
/// file metadata yet, and the given creation timestamp.
pub open spec fn new_entry(id: Seq<char>, date: int, m: MovieV) -> EntryV {
    EntryV {
        id,
        details: MovieDetailedV {
            movie: normalized_movie(m),
            movie_file_info: None,
            screenshot_file_info: None,
            date,
        },
    }
}

/// The length and hyphen positions of a generated id: 36 characters with
/// `-` at positions 8, 13, 18 and 23, part of what
/// [`crate::id::generate_movie_id`] promises of every id it draws.
pub open spec fn generated_id_shape(id: Seq<char>) -> bool {
    id.len() == 36 && id[8] == '-' && id[13] == '-' && id[18] == '-' && id[23] == '-'
}

/// Whether some stored entry carries an id of the generated shape — the
/// only circumstance under which a freshly drawn id can collide.
pub open spec fn has_generated_shape_id(s: Seq<EntryV>) -> bool {
    exists|i: int| 0 <= i < s.len() && generated_id_shape(#[trigger] s[i].id)
}

/// No two entries share an id.
pub open spec fn unique_ids(s: Seq<EntryV>) -> bool {
    forall|i: int, j: int| 0 <= i < j < s.len() ==> s[i].id != s[j].id
}

/// Whether some entry carries the given id.
pub open spec fn contains_id(s: Seq<EntryV>, id: Seq<char>) -> bool {
    exists|i: int| 0 <= i < s.len() && s[i].id == id
}

/// The data of the first entry carrying the given id, if any.
pub open spec fn lookup(s: Seq<EntryV>, id: Seq<char>) -> Option<MovieDetailedV>
    decreases s.len(),
{
    if s.len() == 0 {
        None
    } else if s[0].id == id {
        Some(s[0].details)
    } else {
        lookup(s.skip(1), id)
    }
}

/// An id is found exactly when some entry carries it.
pub proof fn lemma_lookup_contains(s: Seq<EntryV>, id: Seq<char>)
    ensures
        contains_id(s, id) <==> lookup(s, id) is Some,
    decreases s.len(),
{
    if s.len() > 0 && s[0].id != id {
        lemma_lookup_contains(s.skip(1), id);
        assert forall|i: int| 0 <= i < s.skip(1).len() implies s.skip(1)[i] == s[i + 1] by {}
        if contains_id(s, id) {
            let i = choose|i: int| 0 <= i < s.len() && s[i].id == id;
            assert(s.skip(1)[i - 1] == s[i]);
        }
        if contains_id(s.skip(1), id) {
            let i = choose|i: int| 0 <= i < s.skip(1).len() && s.skip(1)[i].id == id;
            assert(s[i + 1] == s.skip(1)[i]);
        }
    }
}

/// Where ids are unique, looking up the id of the entry at any position
/// yields exactly that entry's data.
pub proof fn lemma_lookup_at(s: Seq<EntryV>, i: int)
    requires
        unique_ids(s),
        0 <= i < s.len(),
    ensures
        lookup(s, s[i].id) == Some(s[i].details),
    decreases s.len(),
{
    if i > 0 {
        assert(s[0].id != s[i].id);
        assert(unique_ids(s.skip(1))) by {
            assert forall|m: int, n: int|
                0 <= m < n < s.skip(1).len() implies s.skip(1)[m].id != s.skip(1)[n].id by {
                assert(s.skip(1)[m] == s[m + 1]);
                assert(s.skip(1)[n] == s[n + 1]);
            }
        }
        assert(s.skip(1)[i - 1] == s[i]);
        lemma_lookup_at(s.skip(1), i - 1);
    }
}

/// The entries with the data of the entry carrying `id` replaced by `f`
/// applied through the respective field; all other entries are unchanged.
pub open spec fn set_file_info(s: Seq<EntryV>, id: Seq<char>, fi: FileInfoV) -> Seq<EntryV> {
    s.map_values(
        |e: EntryV|
            if e.id == id {
                EntryV {
                    id: e.id,
                    details: MovieDetailedV {
                        movie: e.details.movie,
                        movie_file_info: Some(fi),
                        screenshot_file_info: e.details.screenshot_file_info,
                        date: e.details.date,
                    },
                }
            } else {
                e
            },
    )
}

/// The entries with the preview metadata of the entry carrying `id`
/// overwritten; all other entries are unchanged.
pub open spec fn set_screenshot_info(s: Seq<EntryV>, id: Seq<char>, fi: FileInfoV) -> Seq<
    EntryV,
> {
    s.map_values(
        |e: EntryV|
            if e.id == id {
                EntryV {
                    id: e.id,
                    details: MovieDetailedV {
                        movie: e.details.movie,
                        movie_file_info: e.details.movie_file_info,
                        screenshot_file_info: Some(fi),
                        date: e.details.date,
                    },
                }
            } else {
                e
            },
    )
}

/// The entries with the title of the entry carrying `id` replaced.
pub open spec fn set_title(s: Seq<EntryV>, id: Seq<char>, title: Seq<char>) -> Seq<EntryV> {
    s.map_values(
        |e: EntryV|
            if e.id == id {
                EntryV {
                    id: e.id,
                    details: MovieDetailedV {
                        movie: MovieV {
                            title,
                            description: e.details.movie.description,
                            tags: e.details.movie.tags,
                        },
                        movie_file_info: e.details.movie_file_info,
                        screenshot_file_info: e.details.screenshot_file_info,
                        date: e.details.date,
                    },
                }
            } else {
                e
            },
    )
}

/// The entries with the description of the entry carrying `id` replaced.
pub open spec fn set_description(s: Seq<EntryV>, id: Seq<char>, description: Seq<char>) -> Seq<
    EntryV,
> {
    s.map_values(
        |e: EntryV|
            if e.id == id {
                EntryV {
                    id: e.id,
                    details: MovieDetailedV {
                        movie: MovieV {
                            title: e.details.movie.title,
                            description,
                            tags: e.details.movie.tags,
                        },
                        movie_file_info: e.details.movie_file_info,
                        screenshot_file_info: e.details.screenshot_file_info,
                        date: e.details.date,
                    },
                }
            } else {
                e
            },
    )
}

/// The entries with the tags of the entry carrying `id` replaced by the
/// normalized form of the given tags.
pub open spec fn set_tags(s: Seq<EntryV>, id: Seq<char>, tags: Seq<Seq<char>>) -> Seq<EntryV> {
    s.map_values(
        |e: EntryV|
            if e.id == id {
                EntryV {
                    id: e.id,
                    details: MovieDetailedV {
                        movie: MovieV {
                            title: e.details.movie.title,
                            description: e.details.movie.description,
                            tags: normalized_tags_of(tags),
                        },
                        movie_file_info: e.details.movie_file_info,
                        screenshot_file_info: e.details.screenshot_file_info,
                        date: e.details.date,
                    },
                }
            } else {
                e
            },
    )
}

/// The position of the first entry carrying the given id.
pub open spec fn find_index(s: Seq<EntryV>, id: Seq<char>) -> int
    decreases s.len(),
{
    if s.len() == 0 {
        0
    } else if s[0].id == id {
        0
    } else {
        1 + find_index(s.skip(1), id)
    }
}

/// Where the id is present, its position is in range and carries the id.
pub proof fn lemma_find_index(s: Seq<EntryV>, id: Seq<char>)
    requires
        contains_id(s, id),
    ensures
        0 <= find_index(s, id) < s.len(),
        s[find_index(s, id)].id == id,
    decreases s.len(),
{
    if s.len() > 0 && s[0].id != id {
        assert(contains_id(s.skip(1), id)) by {
            let i = choose|i: int| 0 <= i < s.len() && s[i].id == id;
            assert(s.skip(1)[i - 1] == s[i]);
        }
        lemma_find_index(s.skip(1), id);
        assert(s[1 + find_index(s.skip(1), id)] == s.skip(1)[find_index(s.skip(1), id)]);
    }
}

/// Where ids are unique, any position carrying the id is the position
/// the lookup finds.
pub proof fn lemma_find_index_unique(s: Seq<EntryV>, i: int)
    requires
        unique_ids(s),
        0 <= i < s.len(),
    ensures
        find_index(s, s[i].id) == i,
    decreases s.len(),
{
    if i > 0 {
        assert(s[0].id != s[i].id);
        assert(unique_ids(s.skip(1))) by {
            assert forall|m: int, n: int|
                0 <= m < n < s.skip(1).len() implies s.skip(1)[m].id != s.skip(1)[n].id by {
                assert(s.skip(1)[m] == s[m + 1]);
                assert(s.skip(1)[n] == s[n + 1]);
            }
        }
        assert(s.skip(1)[i - 1] == s[i]);
        lemma_find_index_unique(s.skip(1), i - 1);
    }
}

/// The views of a sequence of index slots.
spec fn slot_views(s: Seq<IndexSlot>) -> Seq<EntryV> {
    s.map_values(|x: IndexSlot| x@)
}

/// A very simple in-memory implementation of the movies index.
pub struct SimpleMoviesIndex {
    slots: Vec<IndexSlot>,
}

impl View for SimpleMoviesIndex {
    type V = Seq<EntryV>;

    closed spec fn view(&self) -> Seq<EntryV> {
        slot_views(self.slots@)
    }
}

/// Copies a vector of strings, value for value.
fn copy_strings(v: &Vec<String>) -> (r: Vec<String>)
    ensures
        r@.len() == v@.len(),
        forall|k: int| 0 <= k < v@.len() ==> r@[k] == v@[k],
{
    let mut r: Vec<String> = Vec::new();
    let mut i: usize = 0;
    while i < v.len()
        invariant
            0 <= i <= v@.len(),
            r@.len() == i,
            forall|k: int| 0 <= k < i ==> r@[k] == v@[k],
        decreases v@.len() - i,
    {
        r.push(v[i].clone());
        i = i + 1;
    }
    r
}

/// Copies a movie, value for value.
fn copy_movie(m: &Movie) -> (r: Movie)
    ensures
        r@ == m@,
{
    let tags = copy_strings(&m.tags);
    proof {
        assert(tags@ =~= m.tags@);
    }
    Movie { title: m.title.clone(), description: m.description.clone(), tags }
}

/// Copies a movie file info, value for value.
fn copy_file_info(f: &MovieFileInfo) -> (r: MovieFileInfo)
    ensures
        r@ == f@,
{
    MovieFileInfo { extension: f.extension.clone(), mime_type: f.mime_type.clone() }
}

/// Copies a screenshot info, value for value.
fn copy_screenshot_info(f: &ScreenshotInfo) -> (r: ScreenshotInfo)
    ensures
        r@ == f@,
{
    ScreenshotInfo { extension: f.extension.clone(), mime_type: f.mime_type.clone() }
}

/// Copies a full entry, value for value.
fn copy_detailed(d: &MovieDetailed) -> (r: MovieDetailed)
    ensures
        r@ == d@,
{
    let movie_file_info = match &d.movie_file_info {
        Some(f) => Some(copy_file_info(f)),
        None => None,
    };
    let screenshot_file_info = match &d.screenshot_file_info {
        Some(f) => Some(copy_screenshot_info(f)),
        None => None,
    };
    MovieDetailed { movie: copy_movie(&d.movie), movie_file_info, screenshot_file_info, date: d.date }
}

impl SimpleMoviesIndex {
    /// Everything the contracts of this index rely on: no two entries
    /// share an id.
    pub open spec fn wf(self) -> bool {
        unique_ids(self@)
    }

    /// Creates a new, empty index; the options play no role for the
    /// in-memory backend.
    pub fn new(_options: &Options) -> (r: Result<Self, Error>)
        ensures
            r is Ok,
            r matches Ok(idx) ==> idx@ == Seq::<EntryV>::empty() && idx.wf(),
    {
        let idx = SimpleMoviesIndex { slots: Vec::new() };
        proof {
            assert(idx@ =~= Seq::<EntryV>::empty());
        }
        Ok(idx)
    }

    /// Processes the given tags by converting them to lower case and
    /// sorting them.
    pub fn process_tags(tags: &mut Vec<String>)
        ensures
            str_views(final(tags)@) == normalized_tags_of(str_views(old(tags)@)),
    {
        let mut lowered: Vec<String> = Vec::new();
        let mut i: usize = 0;
        while i < tags.len()
            invariant
                0 <= i <= tags@.len(),
                lowered@.len() == i,
                forall|k: int| 0 <= k < i ==> lowered@[k]@ == lower_of(tags@[k]@),
            decreases tags@.len() - i,
        {
            lowered.push(to_lowercase(tags[i].as_str()));
            i = i + 1;
        }
        let sorted = sort_strings(&lowered);
        proof {
            assert(str_views(lowered@) =~= str_views(tags@).map_values(
                |t: Seq<char>| lower_of(t),
            )) by {
                assert forall|k: int|
                    0 <= k < tags@.len() implies str_views(lowered@)[k] == str_views(
                    tags@,
                ).map_values(|t: Seq<char>| lower_of(t))[k] by {
                    assert(str_views(lowered@)[k] == lowered@[k]@);
                    assert(str_views(tags@)[k] == tags@[k]@);
                }
            }
        }
        *tags = sorted;
    }

    /// The first position holding the given id, if any.
    fn position_of(&self, id: &MovieId) -> (r: Option<usize>)
        ensures
            r matches Some(i) ==> i < self@.len() && self@[i as int].id == id@,
            r is None ==> !contains_id(self@, id@),
    {
        let mut j: usize = 0;
        while j < self.slots.len()
            invariant
                0 <= j <= self@.len(),
                self@.len() == self.slots@.len(),
                forall|k: int| 0 <= k < j ==> self@[k].id != id@,
            decreases self@.len() - j,
        {
            proof {
                assert(self@[j as int] == self.slots@[j as int]@);
            }
            if self.slots[j].id == *id {
                return Some(j);
            }
            j = j + 1;
        }
        None
    }

    /// Adds a movie under the given id with the given creation timestamp.
    ///
    /// The movie is rejected as an invalid argument when its title is
    /// empty, and insertion under an id already present is refused as an
    /// internal backend-invariant violation; otherwise the entry is
    /// appended with its tags lowercased and sorted and with no file
    /// metadata yet.
    pub fn insert_movie(&mut self, id: MovieId, date: i64, movie: Movie) -> (r: Result<
        (),
        Error,
    >)
        requires
            old(self).wf(),
        ensures
            final(self).wf(),
            movie@.title.len() == 0 ==> (r matches Err(Error::InvalidArgument(_))) && final(self)@
                == old(self)@,
            movie@.title.len() > 0 && contains_id(old(self)@, id@) ==> (r matches Err(
                Error::Internal(_),
            )) && final(self)@ == old(self)@,
            movie@.title.len() > 0 && !contains_id(old(self)@, id@) ==> r is Ok && final(self)@
                == old(self)@.push(new_entry(id@, date as int, movie@)),
    {
        if movie.title.as_str().is_empty() {
            return Err(Error::InvalidArgument("Movie title must not be empty".to_owned()));
        }
        if let Some(_) = self.position_of(&id) {
            return Err(
                Error::Internal(
                    "Movie with id ".to_owned().concat(id.as_str()).concat(" already exists"),
                ),
            );
        }
        let ghost m0 = movie@;
        let mut movie = movie;
        Self::process_tags(&mut movie.tags);
        let ghost pre = self@;
        let slot = IndexSlot {
            id,
            details: MovieDetailed {
                movie,
                movie_file_info: None,
                screenshot_file_info: None,
                date,
            },
        };
        self.slots.push(slot);
        proof {
            assert(self@ =~= pre.push(slot@));
            assert(slot@.details.movie.tags == normalized_tags_of(m0.tags));
            assert(slot@ == new_entry(slot@.id, date as int, m0));
            assert(unique_ids(self@)) by {
                assert forall|i: int, j: int|
                    0 <= i < j < self@.len() implies self@[i].id != self@[j].id by {
                    if j == pre.len() {
                        assert(self@[i] == pre[i]);
                        assert(self@[j] == slot@);
                        if pre[i].id == slot@.id {
                            assert(contains_id(pre, slot@.id));
                        }
                    } else {
                        assert(self@[i] == pre[i]);
                        assert(self@[j] == pre[j]);
                    }
                }
            }
        }
        Ok(())
    }

    /// Adds a new movie to the index under a freshly generated id, with
    /// the current time as its creation timestamp.
    ///
    /// A movie with an empty title is rejected as an invalid argument. A
    /// collision of the generated id with a stored one is an internal
    /// error; on every other input the movie is appended, with its tags
    /// lowercased and sorted, and its id returned.
    pub fn add_movie(&mut self, movie: Movie) -> (r: Result<MovieId, Error>)
        requires
            old(self).wf(),
        ensures
            final(self).wf(),
            movie@.title.len() == 0 ==> (r matches Err(Error::InvalidArgument(_))) && final(self)@ == old(self)@,
            r matches Ok(id) ==> movie@.title.len() > 0 && !contains_id(old(self)@, id@) && (
            exists|d: int| final(self)@ == old(self)@.push(#[trigger] new_entry(id@, d, movie@))),
            movie@.title.len() > 0 ==> r is Ok || ((r matches Err(Error::Internal(_))) && final(self)@ == old(self)@),
            movie@.title.len() > 0 && (r matches Err(Error::Internal(_))) ==> has_generated_shape_id(old(self)@),
            movie@.title.len() > 0 && old(self)@.len() == 0 ==> r is Ok,
    {
        let id = generate_movie_id();
        let date = now_ticks();
        match self.insert_movie(id.clone(), date, movie) {
            Ok(()) => {
                proof {
                    assert(self@ == old(self)@.push(new_entry(id@, date as int, movie@)));
                    assert(exists|d: int|
                        self@ == old(self)@.push(#[trigger] new_entry(id@, d, movie@)));
                }
                Ok(id)
            },
            Err(e) => {
                proof {
                    if movie@.title.len() > 0 {
                        assert(contains_id(old(self)@, id@));
                        let i = choose|i: int|
                            0 <= i < old(self)@.len() && old(self)@[i].id == id@;
                        assert(generated_id_shape(old(self)@[i].id));
                        assert(has_generated_shape_id(old(self)@));
                    }
                }
                Err(e)
            },
        }
    }

    /// Returns the movie stored under the given ID, or a not-found error
    /// where no entry carries it.
    pub fn get_movie(&self, id: &MovieId) -> (r: Result<MovieDetailed, Error>)
        requires
            self.wf(),
        ensures
            contains_id(self@, id@) ==> r is Ok && lookup(self@, id@) == Some(r->Ok_0@),
            !contains_id(self@, id@) ==> (r matches Err(Error::NotFound(_))),
    {
        match self.position_of(id) {
            None => Err(not_found(id)),
            Some(i) => {
                let d = copy_detailed(&self.slots[i].details);
                proof {
                    assert(self@[i as int] == self.slots@[i as int]@);
                    lemma_lookup_at(self@, i as int);
                }
                Ok(d)
            },
        }
    }

    /// Overwrites the movie file info of the entry with the given ID, or
    /// fails with a not-found error where no entry carries it.
    pub fn update_movie_file_info(&mut self, id: &MovieId, movie_file_info: MovieFileInfo) -> (r:
        Result<(), Error>)
        requires
            old(self).wf(),
        ensures
            final(self).wf(),
            !contains_id(old(self)@, id@) ==> (r matches Err(Error::NotFound(_))) && final(self)@
                == old(self)@,
            contains_id(old(self)@, id@) ==> r is Ok && final(self)@ == set_file_info(
                old(self)@,
                id@,
                movie_file_info@,
            ),
    {
        let ghost fiv = movie_file_info@;
        match self.position_of(id) {
            None => Err(not_found(id)),
            Some(i) => {
                let ghost pre = self@;
                proof {
                    assert(self@[i as int] == self.slots@[i as int]@);
                }
                let d = &self.slots[i].details;
                let new_slot = IndexSlot {
                    id: self.slots[i].id.clone(),
                    details: MovieDetailed {
                        movie: copy_movie(&d.movie),
                        movie_file_info: Some(movie_file_info),
                        screenshot_file_info: match &d.screenshot_file_info {
                            Some(f) => Some(copy_screenshot_info(f)),
                            None => None,
                        },
                        date: d.date,
                    },
                };
                self.slots[i] = new_slot;
                proof {
                    self.lemma_updated_at(pre, i as int, set_file_info(pre, id@, fiv), id@);
                }
                Ok(())
            },
        }
    }

    /// Overwrites the screenshot info of the entry with the given ID, or
    /// fails with a not-found error where no entry carries it.
    pub fn update_screenshot_info(&mut self, id: &MovieId, screenshot_info: ScreenshotInfo) -> (r:
        Result<(), Error>)
        requires
            old(self).wf(),
        ensures
            final(self).wf(),
            !contains_id(old(self)@, id@) ==> (r matches Err(Error::NotFound(_))) && final(self)@
                == old(self)@,
            contains_id(old(self)@, id@) ==> r is Ok && final(self)@ == set_screenshot_info(
                old(self)@,
                id@,
                screenshot_info@,
            ),
    {
        let ghost fiv = screenshot_info@;
        match self.position_of(id) {
            None => Err(not_found(id)),
            Some(i) => {
                let ghost pre = self@;
                proof {
                    assert(self@[i as int] == self.slots@[i as int]@);
                }
                let d = &self.slots[i].details;
                let new_slot = IndexSlot {
                    id: self.slots[i].id.clone(),
                    details: MovieDetailed {
                        movie: copy_movie(&d.movie),
                        movie_file_info: match &d.movie_file_info {
                            Some(f) => Some(copy_file_info(f)),
                            None => None,
                        },
                        screenshot_file_info: Some(screenshot_info),
                        date: d.date,
                    },
                };
                self.slots[i] = new_slot;
                proof {
                    self.lemma_updated_at(pre, i as int, set_screenshot_info(pre, id@, fiv), id@);
                }
                Ok(())
            },
        }
    }

    /// Replaces the title of the entry with the given ID, or fails with a
    /// not-found error where no entry carries it.
    pub fn change_title(&mut self, id: &MovieId, title: String) -> (r: Result<(), Error>)
        requires
            old(self).wf(),
        ensures
            final(self).wf(),
            !contains_id(old(self)@, id@) ==> (r matches Err(Error::NotFound(_))) && final(self)@
                == old(self)@,
            contains_id(old(self)@, id@) ==> r is Ok && final(self)@ == set_title(
                old(self)@,
                id@,
                title@,
            ),
    {
        let ghost tv = title@;
        match self.position_of(id) {
            None => Err(not_found(id)),
            Some(i) => {
                let ghost pre = self@;
                proof {
                    assert(self@[i as int] == self.slots@[i as int]@);
                }
                let d = &self.slots[i].details;
                let new_slot = IndexSlot {
                    id: self.slots[i].id.clone(),
                    details: MovieDetailed {
                        movie: Movie {
                            title,
                            description: d.movie.description.clone(),
                            tags: copy_strings(&d.movie.tags),
                        },
                        movie_file_info: match &d.movie_file_info {
                            Some(f) => Some(copy_file_info(f)),
                            None => None,
                        },
                        screenshot_file_info: match &d.screenshot_file_info {
                            Some(f) => Some(copy_screenshot_info(f)),
                            None => None,
                        },
                        date: d.date,
                    },
                };
                proof {
                    assert(new_slot.details.movie.tags@ =~= self.slots@[i as int].details.movie.tags@);
                }
                self.slots[i] = new_slot;
                proof {
                    self.lemma_updated_at(pre, i as int, set_title(pre, id@, tv), id@);
                }
                Ok(())
            },
        }
    }

    /// Replaces the description of the entry with the given ID, or fails
    /// with a not-found error where no entry carries it.
    pub fn change_description(&mut self, id: &MovieId, description: String) -> (r: Result<
        (),
        Error,
    >)
        requires
            old(self).wf(),
        ensures
            final(self).wf(),
            !contains_id(old(self)@, id@) ==> (r matches Err(Error::NotFound(_))) && final(self)@
                == old(self)@,
            contains_id(old(self)@, id@) ==> r is Ok && final(self)@ == set_description(
                old(self)@,
                id@,
                description@,
            ),
    {
        let ghost dv = description@;
        match self.position_of(id) {
            None => Err(not_found(id)),
            Some(i) => {
                let ghost pre = self@;
                proof {
                    assert(self@[i as int] == self.slots@[i as int]@);
                }
                let d = &self.slots[i].details;
                let new_slot = IndexSlot {
                    id: self.slots[i].id.clone(),
                    details: MovieDetailed {
                        movie: Movie {
                            title: d.movie.title.clone(),
                            description,
                            tags: copy_strings(&d.movie.tags),
                        },
                        movie_file_info: match &d.movie_file_info {
                            Some(f) => Some(copy_file_info(f)),
                            None => None,
                        },
                        screenshot_file_info: match &d.screenshot_file_info {
                            Some(f) => Some(copy_screenshot_info(f)),
                            None => None,
                        },
                        date: d.date,
                    },
                };
                proof {
                    assert(new_slot.details.movie.tags@ =~= self.slots@[i as int].details.movie.tags@);
                }
                self.slots[i] = new_slot;
                proof {
                    self.lemma_updated_at(pre, i as int, set_description(pre, id@, dv), id@);
                }
                Ok(())
            },
        }
    }

    /// Replaces the tags of the entry with the given ID by their
    /// normalized form (lowercased and sorted), or fails with a not-found
    /// error where no entry carries it.
    pub fn change_tags(&mut self, id: &MovieId, tags: Vec<String>) -> (r: Result<(), Error>)
        requires
            old(self).wf(),
        ensures
            final(self).wf(),
            !contains_id(old(self)@, id@) ==> (r matches Err(Error::NotFound(_))) && final(self)@
                == old(self)@,
            contains_id(old(self)@, id@) ==> r is Ok && final(self)@ == set_tags(
                old(self)@,
                id@,
                str_views(tags@),
            ),
    {
        let ghost tv = str_views(tags@);
        let mut tags = tags;
        Self::process_tags(&mut tags);
        match self.position_of(id) {
            None => Err(not_found(id)),
            Some(i) => {
                let ghost pre = self@;
                proof {
                    assert(self@[i as int] == self.slots@[i as int]@);
                }
                let d = &self.slots[i].details;
                let new_slot = IndexSlot {
                    id: self.slots[i].id.clone(),
                    details: MovieDetailed {
                        movie: Movie {
                            title: d.movie.title.clone(),
                            description: d.movie.description.clone(),
                            tags,
                        },
                        movie_file_info: match &d.movie_file_info {
                            Some(f) => Some(copy_file_info(f)),
                            None => None,
                        },
                        screenshot_file_info: match &d.screenshot_file_info {
                            Some(f) => Some(copy_screenshot_info(f)),
                            None => None,
                        },
                        date: d.date,
                    },
                };
                self.slots[i] = new_slot;
                proof {
                    self.lemma_updated_at(pre, i as int, set_tags(pre, id@, tv), id@);
                }
                Ok(())
            },
        }
    }

    /// Removes the entry with the given ID, or fails with a not-found
    /// error where no entry carries it; a second removal of the same id
    /// therefore fails.
    pub fn remove_movie(&mut self, id: &MovieId) -> (r: Result<(), Error>)
        requires
            old(self).wf(),
        ensures
            final(self).wf(),
            !contains_id(old(self)@, id@) ==> (r matches Err(Error::NotFound(_))) && final(self)@
                == old(self)@,
            contains_id(old(self)@, id@) ==> r is Ok && final(self)@ == old(self)@.remove(
                find_index(old(self)@, id@),
            ),
            contains_id(old(self)@, id@) ==> !contains_id(final(self)@, id@),
    {
        match self.position_of(id) {
            None => Err(not_found(id)),
            Some(i) => {
                let ghost pre = self@;
                proof {
                    assert(self@[i as int] == self.slots@[i as int]@);
                    assert(contains_id(pre, id@));
                    lemma_find_index_unique(pre, i as int);
                }
                self.slots.remove(i);
                proof {
                    pre.remove_ensures(i as int);
                    assert(self@ =~= pre.remove(i as int)) by {
                        assert forall|k: int|
                            0 <= k < self@.len() implies self@[k] == pre.remove(i as int)[k] by {
                            assert(self@[k] == self.slots@[k]@);
                            if k < i {
                                assert(pre.remove(i as int)[k] == pre[k]);
                            } else {
                                assert(pre.remove(i as int)[k] == pre[k + 1]);
                            }
                        }
                    }
                    assert(unique_ids(self@)) by {
                        assert forall|m: int, n: int|
                            0 <= m < n < self@.len() implies self@[m].id != self@[n].id by {
                            assert(self@[m] == if m < i {
                                pre[m]
                            } else {
                                pre[m + 1]
                            });
                            assert(self@[n] == if n < i {
                                pre[n]
                            } else {
                                pre[n + 1]
                            });
                        }
                    }
                    assert(!contains_id(self@, id@)) by {
                        assert forall|k: int| 0 <= k < self@.len() implies self@[k].id != id@ by {
                            if k < i {
                                assert(self@[k] == pre[k]);
                            } else {
                                assert(self@[k] == pre[k + 1]);
                            }
                        }
                    }
                }
                Ok(())
            },
        }
    }

    /// Where the vector of slots was overwritten at one position carrying
    /// the looked-up id, the view equals the respective map-style update.
    proof fn lemma_updated_at(&self, pre: Seq<EntryV>, i: int, expected: Seq<EntryV>, id: Seq<char>)
        requires
            unique_ids(pre),
            0 <= i < pre.len(),
            pre[i].id == id,
            self@.len() == pre.len(),
            expected.len() == pre.len(),
            forall|k: int| 0 <= k < pre.len() && k != i ==> self@[k] == pre[k],
            forall|k: int| 0 <= k < pre.len() && k != i ==> expected[k] == pre[k],
            self@[i] == expected[i],
            self@[i].id == pre[i].id,
        ensures
            self@ == expected,
            unique_ids(self@),
    {
        assert(self@ =~= expected);
        assert forall|m: int, n: int|
            0 <= m < n < self@.len() implies self@[m].id != self@[n].id by {
            assert(self@[m].id == pre[m].id);
            assert(self@[n].id == pre[n].id);
        }
    }
}

/// The not-found error every operation reports for an unknown id.
fn not_found(id: &MovieId) -> (e: Error)
    ensures
        e matches Error::NotFound(_),
{
    Error::NotFound("Movie with id ".to_owned().concat(id.as_str()).concat(" not found"))
}

/// The ids of a sequence of entries, in order.
pub open spec fn ids_of(s: Seq<EntryV>) -> Seq<Seq<char>> {
    s.map_values(|e: EntryV| e.id)
}

/// The order search results are built in: by the chosen field, with the id
/// as the deterministic tiebreak.
pub open spec fn entry_le(field: SortingField, a: EntryV, b: EntryV) -> bool {
    match field {
        SortingField::Title => lex_lt(a.details.movie.title, b.details.movie.title) || (
        a.details.movie.title == b.details.movie.title && lex_le(a.id, b.id)),
        SortingField::Date => a.details.date < b.details.date || (a.details.date
            == b.details.date && lex_le(a.id, b.id)),
    }
}

/// Any two entries are comparable under the entry order.
pub proof fn lemma_entry_le_total(field: SortingField, a: EntryV, b: EntryV)
    ensures
        entry_le(field, a, b) || entry_le(field, b, a),
{
    match field {
        SortingField::Title => {
            lemma_lex_trichotomy(a.details.movie.title, b.details.movie.title);
            lemma_lex_le_total(a.id, b.id);
        },
        SortingField::Date => {
            lemma_lex_le_total(a.id, b.id);
        },
    }
}

/// The entry order is transitive.
pub proof fn lemma_entry_le_trans(field: SortingField, a: EntryV, b: EntryV, c: EntryV)
    requires
        entry_le(field, a, b),
        entry_le(field, b, c),
    ensures
        entry_le(field, a, c),
{
    match field {
        SortingField::Title => {
            let ta = a.details.movie.title;
            let tb = b.details.movie.title;
            let tc = c.details.movie.title;
            if lex_lt(ta, tb) && lex_lt(tb, tc) {
                lemma_lex_trans(ta, tb, tc);
            } else if ta == tb && tb == tc {
                lemma_lex_le_trans(a.id, b.id, c.id);
            }
        },
        SortingField::Date => {
            if a.details.date == b.details.date && b.details.date == c.details.date {
                lemma_lex_le_trans(a.id, b.id, c.id);
            }
        },
    }
}

/// Inserts an entry in front of the first element that is not below it.
pub open spec fn insert_entry(field: SortingField, x: EntryV, s: Seq<EntryV>) -> Seq<EntryV>
    decreases s.len(),
{
    if s.len() == 0 {
        seq![x]
    } else if entry_le(field, x, s[0]) {
        seq![x] + s
    } else {
        seq![s[0]] + insert_entry(field, x, s.skip(1))
    }
}

/// Sorts the entries by repeated insertion under the entry order.
pub open spec fn sort_entries(field: SortingField, s: Seq<EntryV>) -> Seq<EntryV>
    decreases s.len(),
{
    if s.len() == 0 {
        Seq::empty()
    } else {
        insert_entry(field, s.last(), sort_entries(field, s.drop_last()))
    }
}

/// Whether the entries are sorted under the entry order.
pub open spec fn sorted_entries(field: SortingField, s: Seq<EntryV>) -> bool {
    forall|i: int, j: int| 0 <= i < j < s.len() ==> entry_le(field, s[i], s[j])
}

/// Insertion adds one element, and every element of the result is the
/// inserted one or one of the original sequence.
proof fn lemma_insert_entry_shape(field: SortingField, x: EntryV, s: Seq<EntryV>)
    ensures
        insert_entry(field, x, s).len() == s.len() + 1,
        forall|k: int|
            0 <= k < insert_entry(field, x, s).len() ==> insert_entry(field, x, s)[k] == x
                || s.contains(insert_entry(field, x, s)[k]),
    decreases s.len(),
{
    if s.len() == 0 {
    } else if entry_le(field, x, s[0]) {
        let r = seq![x] + s;
        assert forall|k: int| 0 <= k < r.len() implies r[k] == x || s.contains(r[k]) by {
            if k >= 1 {
                assert(r[k] == s[k - 1]);
            }
        }
    } else {
        lemma_insert_entry_shape(field, x, s.skip(1));
        let t = insert_entry(field, x, s.skip(1));
        let r = seq![s[0]] + t;
        assert forall|k: int| 0 <= k < r.len() implies r[k] == x || s.contains(r[k]) by {
            if k == 0 {
                assert(s.contains(s[0]));
            } else {
                assert(r[k] == t[k - 1]);
                if t[k - 1] != x {
                    let i = choose|i: int| 0 <= i < s.skip(1).len() && s.skip(1)[i] == t[k - 1];
                    assert(s[i + 1] == s.skip(1)[i]);
                    assert(s.contains(s[i + 1]));
                }
            }
        }
    }
}

/// Insertion into a sorted sequence yields a sorted sequence.
pub proof fn lemma_insert_entry_sorted(field: SortingField, x: EntryV, s: Seq<EntryV>)
    requires
        sorted_entries(field, s),
    ensures
        sorted_entries(field, insert_entry(field, x, s)),
    decreases s.len(),
{
    if s.len() == 0 {
    } else if entry_le(field, x, s[0]) {
        let r = seq![x] + s;
        assert forall|i: int, j: int| 0 <= i < j < r.len() implies entry_le(field, r[i], r[j]) by {
            if i == 0 {
                assert(r[j] == s[j - 1]);
                if j > 1 {
                    lemma_entry_le_trans(field, x, s[0], s[j - 1]);
                }
            } else {
                assert(r[i] == s[i - 1] && r[j] == s[j - 1]);
            }
        }
    } else {
        lemma_entry_le_total(field, x, s[0]);
        assert(entry_le(field, s[0], x));
        assert(sorted_entries(field, s.skip(1))) by {
            assert forall|i: int, j: int|
                0 <= i < j < s.skip(1).len() implies entry_le(field, s.skip(1)[i], s.skip(1)[j]) by {
                assert(s.skip(1)[i] == s[i + 1] && s.skip(1)[j] == s[j + 1]);
            }
        }
        lemma_insert_entry_sorted(field, x, s.skip(1));
        lemma_insert_entry_shape(field, x, s.skip(1));
        let t = insert_entry(field, x, s.skip(1));
        let r = seq![s[0]] + t;
        assert forall|i: int, j: int| 0 <= i < j < r.len() implies entry_le(field, r[i], r[j]) by {
            if i == 0 {
                assert(r[j] == t[j - 1]);
                if t[j - 1] == x {
                } else {
                    let m = choose|m: int| 0 <= m < s.skip(1).len() && s.skip(1)[m] == t[j - 1];
                    assert(s[m + 1] == s.skip(1)[m]);
                    assert(entry_le(field, s[0], s[m + 1]));
                }
            } else {
                assert(r[i] == t[i - 1] && r[j] == t[j - 1]);
            }
        }
    }
}

/// Insertion adds exactly the inserted entry, both to the multiset of
/// entries and to the multiset of ids.
pub proof fn lemma_insert_entry_multiset(field: SortingField, x: EntryV, s: Seq<EntryV>)
    ensures
        insert_entry(field, x, s).to_multiset() =~= s.to_multiset().insert(x),
        ids_of(insert_entry(field, x, s)).to_multiset() =~= ids_of(s).to_multiset().insert(x.id),
    decreases s.len(),
{
    broadcast use vstd::seq_lib::group_to_multiset_ensures;
    broadcast use vstd::multiset::group_multiset_axioms;

    if s.len() == 0 {
        assert(seq![x] =~= Seq::<EntryV>::empty().push(x));
        assert(ids_of(seq![x]) =~= Seq::<Seq<char>>::empty().push(x.id));
    } else if entry_le(field, x, s[0]) {
        vstd::seq_lib::lemma_multiset_commutative(seq![x], s);
        assert(seq![x] =~= Seq::<EntryV>::empty().push(x));
        assert(ids_of(seq![x] + s) =~= seq![x.id] + ids_of(s)) by {
            assert forall|k: int|
                0 <= k < s.len() + 1 implies ids_of(seq![x] + s)[k] == (seq![x.id] + ids_of(s))[k] by {
                assert(ids_of(seq![x] + s)[k] == (seq![x] + s)[k].id);
                if k >= 1 {
                    assert((seq![x] + s)[k] == s[k - 1]);
                    assert(ids_of(s)[k - 1] == s[k - 1].id);
                }
            }
        }
        vstd::seq_lib::lemma_multiset_commutative(seq![x.id], ids_of(s));
        assert(seq![x.id] =~= Seq::<Seq<char>>::empty().push(x.id));
    } else {
        lemma_insert_entry_multiset(field, x, s.skip(1));
        let t = insert_entry(field, x, s.skip(1));
        vstd::seq_lib::lemma_multiset_commutative(seq![s[0]], t);
        assert(s =~= seq![s[0]] + s.skip(1));
        vstd::seq_lib::lemma_multiset_commutative(seq![s[0]], s.skip(1));
        assert(ids_of(seq![s[0]] + t) =~= seq![s[0].id] + ids_of(t)) by {
            assert forall|k: int|
                0 <= k < t.len() + 1 implies ids_of(seq![s[0]] + t)[k] == (seq![s[0].id] + ids_of(
                t,
            ))[k] by {
                assert(ids_of(seq![s[0]] + t)[k] == (seq![s[0]] + t)[k].id);
                if k >= 1 {
                    assert((seq![s[0]] + t)[k] == t[k - 1]);
                    assert(ids_of(t)[k - 1] == t[k - 1].id);
                }
            }
        }
        assert(ids_of(s) =~= seq![s[0].id] + ids_of(s.skip(1))) by {
            assert forall|k: int|
                0 <= k < s.len() implies ids_of(s)[k] == (seq![s[0].id] + ids_of(s.skip(1)))[k] by {
                assert(ids_of(s)[k] == s[k].id);
                if k >= 1 {
                    assert(ids_of(s.skip(1))[k - 1] == s.skip(1)[k - 1].id);
                    assert(s.skip(1)[k - 1] == s[k]);
                }
            }
        }
        vstd::seq_lib::lemma_multiset_commutative(seq![s[0].id], ids_of(t));
        vstd::seq_lib::lemma_multiset_commutative(seq![s[0].id], ids_of(s.skip(1)));
    }
}

/// Sorting yields a sorted permutation of the entries that permutes the
/// ids accordingly.
pub proof fn lemma_sort_entries_ensures(field: SortingField, s: Seq<EntryV>)
    ensures
        sorted_entries(field, sort_entries(field, s)),
        sort_entries(field, s).to_multiset() =~= s.to_multiset(),
        ids_of(sort_entries(field, s)).to_multiset() =~= ids_of(s).to_multiset(),
        sort_entries(field, s).len() == s.len(),
    decreases s.len(),
{
    broadcast use vstd::seq_lib::group_to_multiset_ensures;
    broadcast use vstd::multiset::group_multiset_axioms;

    if s.len() > 0 {
        lemma_sort_entries_ensures(field, s.drop_last());
        lemma_insert_entry_sorted(field, s.last(), sort_entries(field, s.drop_last()));
        lemma_insert_entry_multiset(field, s.last(), sort_entries(field, s.drop_last()));
        lemma_insert_entry_shape(field, s.last(), sort_entries(field, s.drop_last()));
        assert(s =~= s.drop_last().push(s.last()));
        assert(ids_of(s) =~= ids_of(s.drop_last()).push(s.last().id)) by {
            assert forall|k: int|
                0 <= k < s.len() implies ids_of(s)[k] == ids_of(s.drop_last()).push(
                s.last().id,
            )[k] by {
                assert(ids_of(s)[k] == s[k].id);
                if k < s.len() - 1 {
                    assert(ids_of(s.drop_last())[k] == s.drop_last()[k].id);
                }
            }
        }
    }
}

/// Where the first position not below the inserted entry is `j`, the
/// insertion puts the entry exactly there.
pub proof fn lemma_insert_entry_at(field: SortingField, x: EntryV, s: Seq<EntryV>, j: int)
    requires
        0 <= j <= s.len(),
        forall|k: int| 0 <= k < j ==> !entry_le(field, x, s[k]),
        j < s.len() ==> entry_le(field, x, s[j]),
    ensures
        insert_entry(field, x, s) == s.insert(j, x),
    decreases j,
{
    if j == 0 {
        if s.len() == 0 {
            assert(insert_entry(field, x, s) =~= s.insert(0, x));
        } else {
            assert(entry_le(field, x, s[0]));
            assert(insert_entry(field, x, s) =~= s.insert(0, x));
        }
    } else {
        assert(!entry_le(field, x, s[0]));
        assert forall|k: int| 0 <= k < j - 1 implies !entry_le(field, x, s.skip(1)[k]) by {
            assert(s.skip(1)[k] == s[k + 1]);
        }
        assert(j - 1 < s.skip(1).len() ==> entry_le(field, x, s.skip(1)[j - 1])) by {
            if j - 1 < s.skip(1).len() {
                assert(s.skip(1)[j - 1] == s[j]);
            }
        }
        lemma_insert_entry_at(field, x, s.skip(1), j - 1);
        assert(insert_entry(field, x, s) =~= s.insert(j, x)) by {
            assert(insert_entry(field, x, s) == seq![s[0]] + s.skip(1).insert(j - 1, x));
            s.skip(1).insert_ensures(j - 1, x);
            s.insert_ensures(j, x);
            assert forall|k: int|
                0 <= k < s.len() + 1 implies (seq![s[0]] + s.skip(1).insert(j - 1, x))[k]
                == s.insert(j, x)[k] by {
                if k >= 1 {
                    assert((seq![s[0]] + s.skip(1).insert(j - 1, x))[k] == s.skip(1).insert(
                        j - 1,
                        x,
                    )[k - 1]);
                    if k - 1 < j - 1 {
                        assert(s.skip(1).insert(j - 1, x)[k - 1] == s.skip(1)[k - 1]);
                        assert(s.skip(1)[k - 1] == s[k]);
                        assert(s.insert(j, x)[k] == s[k]);
                    } else if k - 1 == j - 1 {
                        assert(s.skip(1).insert(j - 1, x)[j - 1] == x);
                        assert(s.insert(j, x)[j] == x);
                    } else {
                        assert(s.skip(1).insert(j - 1, x)[k - 1] == s.skip(1)[k - 2]);
                        assert(s.skip(1)[k - 2] == s[k - 1]);
                        assert(s.insert(j, x)[k] == s[k - 1]);
                    }
                }
            }
        }
    }
}

/// The full candidate order of a search: ascending under the entry order,
/// or exactly its reverse.
pub open spec fn ordered_entries(s: Seq<EntryV>, field: SortingField, order: SortingOrder) -> Seq<
    EntryV,
> {
    if order == SortingOrder::Ascending {
        sort_entries(field, s)
    } else {
        sort_entries(field, s).reverse()
    }
}

/// Whether an entry passes a query's filters: its title matches the glob
/// pattern where one is given, and every lowercased query tag is present
/// in the entry's tag collection.
pub open spec fn entry_matches(e: EntryV, q: MovieSearchQueryV) -> bool {
    (match q.title {
        Some(p) => glob_match(p, e.details.movie.title),
        None => true,
    }) && (forall|k: int|
        0 <= k < q.tags.len() ==> e.details.movie.tags.contains(lower_of(q.tags[k])))
}

/// The query's filter, as a predicate on entries.
pub open spec fn matches_pred(q: MovieSearchQueryV) -> spec_fn(EntryV) -> bool {
    |e: EntryV| entry_matches(e, q)
}

/// The ordered entries that pass the query's filters, before pagination.
pub open spec fn filtered_entries(s: Seq<EntryV>, q: MovieSearchQueryV) -> Seq<EntryV> {
    ordered_entries(s, q.sorting_field, q.sorting_order).filter(matches_pred(q))
}

/// The first position of the page: the requested offset, clipped to the
/// number of filtered results.
pub open spec fn page_start(q: MovieSearchQueryV, total: int) -> int {
    let k = match q.start_index {
        Some(k) => k as int,
        None => 0,
    };
    if k > total {
        total
    } else {
        k
    }
}

/// The position after the page: the offset plus the requested number of
/// results, clipped to the number of filtered results.
pub open spec fn page_end(q: MovieSearchQueryV, total: int) -> int {
    match q.num_results {
        Some(n) => if page_start(q, total) + n > total {
            total
        } else {
            page_start(q, total) + n
        },
        None => total,
    }
}

/// What a search returns: the ids of the `[offset, offset + limit)` window
/// of the filtered, ordered entries.
pub open spec fn search_results(s: Seq<EntryV>, q: MovieSearchQueryV) -> Seq<Seq<char>> {
    let f = filtered_entries(s, q);
    ids_of(f.subrange(page_start(q, f.len() as int), page_end(q, f.len() as int)))
}

/// Copies one slot, value for value.
fn copy_slot(s: &IndexSlot) -> (r: IndexSlot)
    ensures
        r@ == s@,
{
    IndexSlot { id: s.id.clone(), details: copy_detailed(&s.details) }
}

/// Decides the entry order between two slots.
fn entry_le_exec(field: SortingField, a: &IndexSlot, b: &IndexSlot) -> (r: bool)
    ensures
        r == entry_le(field, a@, b@),
{
    match field {
        SortingField::Title => {
            let c = crate::text::lex_compare(
                a.details.movie.title.as_str(),
                b.details.movie.title.as_str(),
            );
            if c < 0 {
                true
            } else if c == 0 {
                crate::text::lex_str_le(a.id.as_str(), b.id.as_str())
            } else {
                false
            }
        },
        SortingField::Date => {
            if a.details.date < b.details.date {
                true
            } else if a.details.date == b.details.date {
                crate::text::lex_str_le(a.id.as_str(), b.id.as_str())
            } else {
                false
            }
        },
    }
}

/// The position in front of the first slot that the entry order does not
/// put the given slot above.
fn slot_lower_position(field: SortingField, r: &Vec<IndexSlot>, x: &IndexSlot) -> (j: usize)
    ensures
        j <= r@.len(),
        forall|k: int| 0 <= k < j ==> !entry_le(field, x@, slot_views(r@)[k]),
        j < r@.len() ==> entry_le(field, x@, slot_views(r@)[j as int]),
{
    let mut j: usize = 0;
    while j < r.len()
        invariant
            0 <= j <= r@.len(),
            forall|k: int| 0 <= k < j ==> !entry_le(field, x@, slot_views(r@)[k]),
        decreases r@.len() - j,
    {
        proof {
            assert(slot_views(r@)[j as int] == r@[j as int]@);
        }
        if entry_le_exec(field, x, &r[j]) {
            return j;
        }
        j = j + 1;
    }
    j
}

/// Inserts a slot into a vector at the position the sorted-insertion order
/// assigns to it.
fn insert_slot_sorted(field: SortingField, r: &mut Vec<IndexSlot>, x: IndexSlot)
    ensures
        slot_views(final(r)@) == insert_entry(field, x@, slot_views(old(r)@)),
{
    let j = slot_lower_position(field, r, &x);
    proof {
        lemma_insert_entry_at(field, x@, slot_views(r@), j as int);
    }
    let ghost prev = r@;
    r.insert(j, x);
    proof {
        prev.insert_ensures(j as int, x);
        slot_views(prev).insert_ensures(j as int, x@);
        assert(slot_views(r@) =~= slot_views(prev).insert(j as int, x@)) by {
            assert forall|k: int|
                0 <= k < r@.len() implies slot_views(r@)[k] == slot_views(prev).insert(
                j as int,
                x@,
            )[k] by {
                assert(slot_views(r@)[k] == r@[k]@);
                if k < j {
                    assert(r@[k] == prev[k]);
                    assert(slot_views(prev)[k] == prev[k]@);
                } else if k == j {
                } else {
                    assert(r@[k] == prev[k - 1]);
                    assert(slot_views(prev)[k - 1] == prev[k - 1]@);
                }
            }
        }
    }
}

/// Sorts copies of the given slots ascending under the entry order.
fn sorted_slots(field: SortingField, v: &Vec<IndexSlot>) -> (r: Vec<IndexSlot>)
    ensures
        slot_views(r@) == sort_entries(field, slot_views(v@)),
{
    let mut r: Vec<IndexSlot> = Vec::new();
    let mut i: usize = 0;
    while i < v.len()
        invariant
            0 <= i <= v@.len(),
            slot_views(r@) == sort_entries(field, slot_views(v@).take(i as int)),
        decreases v@.len() - i,
    {
        proof {
            assert(slot_views(v@)[i as int] == v@[i as int]@);
        }
        insert_slot_sorted(field, &mut r, copy_slot(&v[i]));
        proof {
            let t = slot_views(v@).take(i + 1);
            assert(t.drop_last() =~= slot_views(v@).take(i as int));
            assert(t.last() == slot_views(v@)[i as int]);
        }
        i = i + 1;
    }
    proof {
        assert(slot_views(v@).take(v@.len() as int) =~= slot_views(v@));
    }
    r
}

/// Reverses the order of the slots.
fn reverse_slots(v: Vec<IndexSlot>) -> (r: Vec<IndexSlot>)
    ensures
        slot_views(r@) == slot_views(v@).reverse(),
{
    let ghost orig = v@;
    let mut v = v;
    let mut r: Vec<IndexSlot> = Vec::new();
    while v.len() > 0
        invariant
            v@ == orig.take(v@.len() as int),
            r@.len() + v@.len() == orig.len(),
            forall|k: int| 0 <= k < r@.len() ==> r@[k] == orig[orig.len() - 1 - k],
        decreases v@.len(),
    {
        match v.pop() {
            Some(x) => {
                proof {
                    assert(orig.take(v@.len() as int + 1).last() == orig[v@.len() as int]);
                    assert(orig.take(v@.len() as int + 1).drop_last() =~= orig.take(v@.len() as int));
                }
                r.push(x);
            },
            None => {
                proof {
                    assert(false);
                }
            },
        }
    }
    proof {
        assert(slot_views(r@) =~= slot_views(orig).reverse()) by {
            assert forall|k: int|
                0 <= k < r@.len() implies slot_views(r@)[k] == slot_views(orig).reverse()[k] by {
                assert(slot_views(r@)[k] == r@[k]@);
                assert(slot_views(orig)[orig.len() - 1 - k] == orig[orig.len() - 1 - k]@);
            }
        }
    }
    r
}

/// Decides whether every query tag is present in the entry's tags.
fn all_tags_present(etags: &Vec<String>, qtags: &Vec<String>) -> (r: bool)
    ensures
        r == (forall|k: int| 0 <= k < qtags@.len() ==> str_views(etags@).contains(qtags@[k]@)),
{
    let mut k: usize = 0;
    while k < qtags.len()
        invariant
            0 <= k <= qtags@.len(),
            forall|m: int| 0 <= m < k ==> str_views(etags@).contains(qtags@[m]@),
        decreases qtags@.len() - k,
    {
        if !crate::text::contains_string(etags, &qtags[k]) {
            return false;
        }
        k = k + 1;
    }
    true
}

impl SimpleMoviesIndex {
    /// Searches the index: the entries are ordered by the query's sort
    /// field and order with the id as tiebreak, filtered by title pattern
    /// and tags, and the ids of the requested page of the filtered order
    /// are returned.
    pub fn search_movies(&self, query: MovieSearchQuery) -> (r: Result<Vec<MovieId>, Error>)
        requires
            self.wf(),
        ensures
            r is Ok,
            str_views(r->Ok_0@) == search_results(self@, query@),
    {
        let field = query.sorting_field;
        let asc = sorted_slots(field, &self.slots);
        let ordered = if query.sorting_order == SortingOrder::Descending {
            reverse_slots(asc)
        } else {
            asc
        };
        let ghost ord = slot_views(ordered@);
        proof {
            assert(ord == ordered_entries(self@, query@.sorting_field, query@.sorting_order));
        }
        let mut qtags: Vec<String> = Vec::new();
        let mut k: usize = 0;
        while k < query.tags.len()
            invariant
                0 <= k <= query.tags@.len(),
                qtags@.len() == k,
                forall|m: int| 0 <= m < k ==> qtags@[m]@ == lower_of(query.tags@[m]@),
            decreases query.tags@.len() - k,
        {
            qtags.push(to_lowercase(query.tags[k].as_str()));
            k = k + 1;
        }
        let mut matched: Vec<MovieId> = Vec::new();
        proof {
            reveal(Seq::filter);
            assert(ord.take(0).filter(matches_pred(query@)) =~= Seq::<EntryV>::empty());
            assert(str_views(matched@) =~= ids_of(ord.take(0).filter(matches_pred(query@))));
        }
        let mut i: usize = 0;
        while i < ordered.len()
            invariant
                0 <= i <= ord.len(),
                ord == slot_views(ordered@),
                ord.len() == ordered@.len(),
                qtags@.len() == query.tags@.len(),
                forall|m: int| 0 <= m < qtags@.len() ==> qtags@[m]@ == lower_of(query.tags@[m]@),
                str_views(matched@) == ids_of(ord.take(i as int).filter(matches_pred(query@))),
            decreases ord.len() - i,
        {
            proof {
                assert(ord[i as int] == ordered@[i as int]@);
            }
            let e = &ordered[i];
            let title_ok = match &query.title {
                Some(p) => crate::text::title_matches(p.as_str(), e.details.movie.title.as_str()),
                None => true,
            };
            let tags_ok = all_tags_present(&e.details.movie.tags, &qtags);
            let is_match = title_ok && tags_ok;
            proof {
                let ev = ord[i as int];
                assert(ev == ordered@[i as int]@);
                assert(ev.details.movie.tags == str_views(e.details.movie.tags@));
                assert forall|m: int| 0 <= m < query@.tags.len() implies query@.tags[m]
                    == query.tags@[m]@ by {
                    assert(str_views(query.tags@)[m] == query.tags@[m]@);
                }
                assert(tags_ok == (forall|m: int|
                    0 <= m < query@.tags.len() ==> ev.details.movie.tags.contains(
                        lower_of(query@.tags[m]),
                    ))) by {
                    if tags_ok {
                        assert forall|m: int|
                            0 <= m < query@.tags.len() implies ev.details.movie.tags.contains(
                            lower_of(query@.tags[m]),
                        ) by {
                            assert(str_views(e.details.movie.tags@).contains(qtags@[m]@));
                            assert(qtags@[m]@ == lower_of(query.tags@[m]@));
                        }
                    } else {
                        let m = choose|m: int|
                            0 <= m < qtags@.len() && !str_views(e.details.movie.tags@).contains(
                                qtags@[m]@,
                            );
                        assert(qtags@[m]@ == lower_of(query.tags@[m]@));
                        assert(!ev.details.movie.tags.contains(lower_of(query@.tags[m])));
                    }
                }
                assert(is_match == entry_matches(ev, query@));
            }
            let ghost matched_pre = matched@;
            if is_match {
                matched.push(e.id.clone());
            }
            proof {
                reveal(Seq::filter);
                let t1 = ord.take(i + 1);
                assert(t1.drop_last() =~= ord.take(i as int));
                assert(t1.last() == ord[i as int]);
                let p = matches_pred(query@);
                assert(p(t1.last()) == entry_matches(ord[i as int], query@));
                if entry_matches(ord[i as int], query@) {
                    assert(t1.filter(p) == t1.drop_last().filter(p).push(t1.last()));
                    assert(t1.drop_last().filter(p).len() == matched_pre.len()) by {
                        assert(str_views(matched_pre).len() == matched_pre.len());
                        assert(ids_of(t1.drop_last().filter(p)).len() == t1.drop_last().filter(
                            p,
                        ).len());
                    }
                    assert(matched@ =~= matched_pre.push(matched@.last()));
                    assert(t1.filter(p).len() == matched@.len());
                    assert(str_views(matched@) =~= ids_of(t1.filter(p))) by {
                        assert forall|m: int|
                            0 <= m < matched@.len() implies str_views(matched@)[m] == ids_of(
                            t1.filter(p),
                        )[m] by {
                            assert(str_views(matched@)[m] == matched@[m]@);
                            assert(ids_of(t1.filter(p))[m] == t1.filter(p)[m].id);
                            if m < matched_pre.len() {
                                assert(matched@[m] == matched_pre[m]);
                                assert(str_views(matched_pre)[m] == matched_pre[m]@);
                                assert(t1.filter(p)[m] == t1.drop_last().filter(p)[m]);
                                assert(ids_of(t1.drop_last().filter(p))[m] == t1.drop_last().filter(
                                    p,
                                )[m].id);
                            } else {
                                assert(m == matched_pre.len());
                                assert(t1.filter(p)[m] == t1.last());
                                assert(t1.last().id == e.id@);
                                assert(matched@[m]@ == e.id@);
                            }
                        }
                    }
                } else {
                    assert(t1.filter(p) == t1.drop_last().filter(p));
                }
            }
            i = i + 1;
        }
        proof {
            assert(ord.take(ord.len() as int) =~= ord);
        }
        let ghost f = filtered_entries(self@, query@);
        proof {
            assert(str_views(matched@) == ids_of(f));
            assert(matched@.len() == f.len()) by {
                assert(str_views(matched@).len() == matched@.len());
                assert(ids_of(f).len() == f.len());
            }
        }
        let total = matched.len();
        let start = match query.start_index {
            Some(s) => if s > total {
                total
            } else {
                s
            },
            None => 0,
        };
        let end = match query.num_results {
            Some(n) => {
                let rem = total - start;
                if n > rem {
                    total
                } else {
                    start + n
                }
            },
            None => total,
        };
        proof {
            assert(start as int == page_start(query@, f.len() as int));
            assert(end as int == page_end(query@, f.len() as int));
        }
        let mut out: Vec<MovieId> = Vec::new();
        let mut i: usize = start;
        while i < end
            invariant
                start <= i <= end,
                end <= matched@.len(),
                out@.len() == i - start,
                forall|m: int| 0 <= m < out@.len() ==> out@[m] == matched@[start + m],
            decreases end - i,
        {
            out.push(matched[i].clone());
            i = i + 1;
        }
        proof {
            assert(str_views(out@) =~= search_results(self@, query@)) by {
                let ps = page_start(query@, f.len() as int);
                let pe = page_end(query@, f.len() as int);
                assert(search_results(self@, query@) == ids_of(f.subrange(ps, pe)));
                assert forall|m: int|
                    0 <= m < out@.len() implies str_views(out@)[m] == ids_of(f.subrange(ps, pe))[m]
                    by {
                    assert(str_views(out@)[m] == out@[m]@);
                    assert(out@[m] == matched@[start + m]);
                    assert(str_views(matched@)[start + m] == matched@[start + m]@);
                    assert(ids_of(f)[start + m] == f[start + m].id);
                    assert(f.subrange(ps, pe)[m] == f[ps + m]);
                    assert(ids_of(f.subrange(ps, pe))[m] == f.subrange(ps, pe)[m].id);
                }
                assert(str_views(out@).len() == ids_of(f.subrange(ps, pe)).len());
            }
        }
        Ok(out)
    }
}

/// Every tag occurrence of every entry, in store order.
pub open spec fn all_tags(s: Seq<EntryV>) -> Seq<Seq<char>>
    decreases s.len(),
{
    if s.len() == 0 {
        Seq::empty()
    } else {
        all_tags(s.drop_last()) + s.last().details.movie.tags
    }
}

/// How often a tag occurs in a sequence of tags.
pub open spec fn count_tag(ts: Seq<Seq<char>>, t: Seq<char>) -> nat
    decreases ts.len(),
{
    if ts.len() == 0 {
        0
    } else {
        count_tag(ts.drop_last(), t) + (if ts.last() == t {
            1nat
        } else {
            0nat
        })
    }
}

/// A tag occurs at most as often as there are tags.
pub proof fn lemma_count_tag_le_len(ts: Seq<Seq<char>>, t: Seq<char>)
    ensures
        count_tag(ts, t) <= ts.len(),
    decreases ts.len(),
{
    if ts.len() > 0 {
        lemma_count_tag_le_len(ts.drop_last(), t);
    }
}

/// A tag occurs zero times exactly when the sequence does not contain it.
pub proof fn lemma_count_tag_zero(ts: Seq<Seq<char>>, t: Seq<char>)
    ensures
        (count_tag(ts, t) == 0) <==> !ts.contains(t),
    decreases ts.len(),
{
    if ts.len() > 0 {
        lemma_count_tag_zero(ts.drop_last(), t);
        if ts.last() == t {
            assert(ts.contains(t));
        } else {
            if ts.contains(t) {
                let k = choose|k: int| 0 <= k < ts.len() && ts[k] == t;
                assert(ts.drop_last()[k] == ts[k]);
                assert(ts.drop_last().contains(t));
            }
            if ts.drop_last().contains(t) {
                let k = choose|k: int| 0 <= k < ts.drop_last().len() && ts.drop_last()[k] == t;
                assert(ts[k] == ts.drop_last()[k]);
                assert(ts.contains(t));
            }
        }
    }
}

/// The tags of a prefix of the entries are no more than all tags.
pub proof fn lemma_all_tags_prefix_len(s: Seq<EntryV>, i: int)
    requires
        0 <= i <= s.len(),
    ensures
        all_tags(s.take(i)).len() <= all_tags(s).len(),
    decreases s.len(),
{
    if i == s.len() {
        assert(s.take(i) =~= s);
    } else {
        assert(s.take(i) =~= s.drop_last().take(i));
        lemma_all_tags_prefix_len(s.drop_last(), i);
    }
}

/// The order of the tag statistics: by count descending, then by tag
/// ascending.
pub open spec fn tag_count_le(a: (String, usize), b: (String, usize)) -> bool {
    a.1 > b.1 || (a.1 == b.1 && lex_le(a.0@, b.0@))
}

/// Any two tag statistics are comparable.
pub proof fn lemma_tag_count_le_total(a: (String, usize), b: (String, usize))
    ensures
        tag_count_le(a, b) || tag_count_le(b, a),
{
    lemma_lex_le_total(a.0@, b.0@);
}

/// The tag-statistics order is transitive.
pub proof fn lemma_tag_count_le_trans(a: (String, usize), b: (String, usize), c: (String, usize))
    requires
        tag_count_le(a, b),
        tag_count_le(b, c),
    ensures
        tag_count_le(a, c),
{
    if a.1 == b.1 && b.1 == c.1 {
        lemma_lex_le_trans(a.0@, b.0@, c.0@);
    }
}

/// What the tag statistics promise: sorted by count descending then tag
/// ascending, one row per distinct tag, each row carrying exactly how
/// often its tag occurs over all entries, and a row for every tag that
/// occurs at all.
pub open spec fn tag_counts_correct(s: Seq<EntryV>, l: Seq<(String, usize)>) -> bool {
    &&& forall|a: int, b: int| 0 <= a < b < l.len() ==> tag_count_le(l[a], l[b])
    &&& forall|a: int, b: int| 0 <= a < b < l.len() ==> l[a].0@ != l[b].0@
    &&& forall|a: int|
        0 <= a < l.len() ==> l[a].1 as nat == count_tag(all_tags(s), l[a].0@) && l[a].1 >= 1
    &&& forall|k: int| 0 <= k < all_tags(s).len() ==> has_tag_row(l, #[trigger] all_tags(s)[k])
}

/// Whether the statistics hold the given row.
pub open spec fn has_row(l: Seq<(String, usize)>, x: (String, usize)) -> bool {
    exists|i: int| 0 <= i < l.len() && l[i] == x
}

/// Whether the statistics hold a row for the given tag.
pub open spec fn has_tag_row(l: Seq<(String, usize)>, t: Seq<char>) -> bool {
    exists|i: int| 0 <= i < l.len() && l[i].0@ == t
}

/// The running tally the counting loop maintains over the tags processed
/// so far.
spec fn tally_inv(p: Seq<Seq<char>>, acc: Seq<(String, usize)>) -> bool {
    &&& forall|a: int, b: int| 0 <= a < b < acc.len() ==> acc[a].0@ != acc[b].0@
    &&& forall|a: int|
        0 <= a < acc.len() ==> acc[a].1 as nat == count_tag(p, acc[a].0@) && acc[a].1 >= 1
    &&& forall|k: int| 0 <= k < p.len() ==> has_tag_row(acc, #[trigger] p[k])
}

/// The first row carrying the given tag, if any.
fn find_tag(acc: &Vec<(String, usize)>, x: &String) -> (r: Option<usize>)
    ensures
        r matches Some(a) ==> a < acc@.len() && acc@[a as int].0@ == x@,
        r is None ==> forall|a: int| 0 <= a < acc@.len() ==> acc@[a].0@ != x@,
{
    let mut a: usize = 0;
    while a < acc.len()
        invariant
            0 <= a <= acc@.len(),
            forall|k: int| 0 <= k < a ==> acc@[k].0@ != x@,
        decreases acc@.len() - a,
    {
        if acc[a].0 == *x {
            return Some(a);
        }
        a = a + 1;
    }
    None
}

/// Decides the tag-statistics order between two rows.
fn tag_count_le_exec(a: &(String, usize), b: &(String, usize)) -> (r: bool)
    ensures
        r == tag_count_le(*a, *b),
{
    if a.1 > b.1 {
        true
    } else if a.1 == b.1 {
        crate::text::lex_str_le(a.0.as_str(), b.0.as_str())
    } else {
        false
    }
}

/// The position in front of the first row the given row is not above.
fn tag_lower_position(out: &Vec<(String, usize)>, x: &(String, usize)) -> (j: usize)
    ensures
        j <= out@.len(),
        forall|k: int| 0 <= k < j ==> !tag_count_le(*x, out@[k]),
        j < out@.len() ==> tag_count_le(*x, out@[j as int]),
{
    let mut j: usize = 0;
    while j < out.len()
        invariant
            0 <= j <= out@.len(),
            forall|k: int| 0 <= k < j ==> !tag_count_le(*x, out@[k]),
        decreases out@.len() - j,
    {
        if tag_count_le_exec(x, &out[j]) {
            return j;
        }
        j = j + 1;
    }
    j
}

impl SimpleMoviesIndex {
    /// Tallies the tags of all entries: one row per distinct tag, counting
    /// its occurrences over the whole catalog.
    #[verifier::rlimit(100)]
    fn tally_tags(&self) -> (acc: Vec<(String, usize)>)
        requires
            all_tags(self@).len() <= usize::MAX,
        ensures
            tally_inv(all_tags(self@), acc@),
    {
        let ghost s = self@;
        let mut acc: Vec<(String, usize)> = Vec::new();
        proof {
            assert(all_tags(s.take(0)) =~= Seq::<Seq<char>>::empty());
        }
        let mut i: usize = 0;
        while i < self.slots.len()
            invariant
                0 <= i <= s.len(),
                s == self@,
                s.len() == self.slots@.len(),
                all_tags(s).len() <= usize::MAX,
                tally_inv(all_tags(s.take(i as int)), acc@),
            decreases s.len() - i,
        {
            proof {
                assert(s[i as int] == self.slots@[i as int]@);
            }
            let tags = &self.slots[i].details.movie.tags;
            let ghost base = all_tags(s.take(i as int));
            let mut j: usize = 0;
            proof {
                assert(base + str_views(tags@).take(0) =~= base);
                lemma_all_tags_prefix_len(s, i as int);
            }
            while j < tags.len()
                invariant
                    0 <= j <= tags@.len(),
                    str_views(tags@) == s[i as int].details.movie.tags,
                    0 <= i < s.len(),
                    base == all_tags(s.take(i as int)),
                    all_tags(s).len() <= usize::MAX,
                    base.len() + j <= all_tags(s).len(),
                    tally_inv(base + str_views(tags@).take(j as int), acc@),
                decreases tags@.len() - j,
            {
                let ghost p = base + str_views(tags@).take(j as int);
                let ghost p2 = base + str_views(tags@).take(j as int + 1);
                proof {
                    assert(str_views(tags@)[j as int] == tags@[j as int]@);
                    assert(p2.drop_last() =~= p);
                    assert(p2.last() == tags@[j as int]@);
                    assert(p2.len() <= all_tags(s).len()) by {
                        assert(base.len() + j + 1 <= all_tags(s).len()) by {
                            lemma_all_tags_prefix_len(s, i as int + 1);
                            assert(all_tags(s.take(i as int + 1)).len() == base.len() + str_views(
                                tags@,
                            ).len()) by {
                                assert(s.take(i as int + 1).drop_last() =~= s.take(i as int));
                                assert(s.take(i as int + 1).last() == s[i as int]);
                            }
                        }
                    }
                }
                let x = &tags[j];
                match find_tag(&acc, x) {
                    Some(a) => {
                        let c = acc[a].1;
                        proof {
                            assert(c as nat == count_tag(p, x@));
                            lemma_count_tag_le_len(p2, x@);
                            assert(count_tag(p2, x@) == count_tag(p, x@) + 1);
                            assert(c < usize::MAX);
                        }
                        let nt = (acc[a].0.clone(), c + 1);
                        let ghost accpre = acc@;
                        acc[a] = nt;
                        proof {
                            assert(acc@ == accpre.update(a as int, nt));
                            assert(tally_inv(p2, acc@)) by {
                                assert forall|b: int|
                                    0 <= b < acc@.len() implies acc@[b].1 as nat == count_tag(
                                    p2,
                                    acc@[b].0@,
                                ) && acc@[b].1 >= 1 by {
                                    if b == a {
                                        assert(acc@[b] == nt);
                                        assert(nt.0@ == x@);
                                    } else {
                                        assert(acc@[b] == accpre[b]);
                                        assert(accpre[b].0@ != x@);
                                        assert(count_tag(p2, accpre[b].0@) == count_tag(
                                            p,
                                            accpre[b].0@,
                                        ));
                                    }
                                }
                                assert forall|k: int|
                                    0 <= k < p2.len() implies has_tag_row(acc@, #[trigger] p2[k]) by {
                                    if k < p.len() {
                                        assert(p2[k] == p[k]);
                                        assert(has_tag_row(accpre, p[k]));
                                        let b = choose|b: int|
                                            0 <= b < accpre.len() && accpre[b].0@ == p[k];
                                        if b == a {
                                            assert(acc@[b].0@ == p2[k]);
                                        } else {
                                            assert(acc@[b].0@ == p2[k]);
                                        }
                                    } else {
                                        assert(p2[k] == x@);
                                        assert(acc@[a as int].0@ == x@);
                                    }
                                }
                            }
                        }
                    },
                    None => {
                        proof {
                            lemma_count_tag_zero(p, x@);
                            assert(!p.contains(x@)) by {
                                if p.contains(x@) {
                                    let k = choose|k: int| 0 <= k < p.len() && p[k] == x@;
                                    assert(has_tag_row(acc@, p[k]));
                                    let b = choose|b: int|
                                        0 <= b < acc@.len() && acc@[b].0@ == p[k];
                                }
                            }
                            assert(count_tag(p2, x@) == 1);
                        }
                        let ghost accpre = acc@;
                        acc.push((x.clone(), 1));
                        proof {
                            assert(tally_inv(p2, acc@)) by {
                                assert(acc@ == accpre.push((acc@.last().0, 1usize)));
                                assert(acc@.last().0@ == x@);
                                assert forall|b: int|
                                    0 <= b < acc@.len() implies acc@[b].1 as nat == count_tag(
                                    p2,
                                    acc@[b].0@,
                                ) && acc@[b].1 >= 1 by {
                                    if b < accpre.len() {
                                        assert(acc@[b] == accpre[b]);
                                        assert(accpre[b].0@ != x@);
                                        assert(count_tag(p2, accpre[b].0@) == count_tag(
                                            p,
                                            accpre[b].0@,
                                        ));
                                    } else {
                                        assert(acc@[b].0@ == x@);
                                    }
                                }
                                assert forall|a2: int, b: int|
                                    0 <= a2 < b < acc@.len() implies acc@[a2].0@ != acc@[b].0@ by {
                                    if b == accpre.len() {
                                        assert(acc@[a2] == accpre[a2]);
                                        assert(accpre[a2].0@ != x@);
                                    }
                                }
                                assert forall|k: int|
                                    0 <= k < p2.len() implies has_tag_row(acc@, #[trigger] p2[k]) by {
                                    if k < p.len() {
                                        assert(p2[k] == p[k]);
                                        assert(has_tag_row(accpre, p[k]));
                                        let b = choose|b: int|
                                            0 <= b < accpre.len() && accpre[b].0@ == p[k];
                                        assert(acc@[b].0@ == p2[k]);
                                    } else {
                                        assert(p2[k] == x@);
                                        assert(acc@[accpre.len() as int].0@ == x@);
                                    }
                                }
                            }
                        }
                    },
                }
                j = j + 1;
            }
            proof {
                assert(str_views(tags@).take(tags@.len() as int) =~= str_views(tags@));
                assert(all_tags(s.take(i as int + 1)) =~= base + str_views(tags@)) by {
                    assert(s.take(i as int + 1).drop_last() =~= s.take(i as int));
                    assert(s.take(i as int + 1).last() == s[i as int]);
                }
            }
            i = i + 1;
        }
        proof {
            assert(s.take(s.len() as int) =~= s);
        }
        acc
    }

    /// Returns one row per distinct tag over all entries, with the number
    /// of occurrences of that tag, ordered by count descending and then by
    /// tag ascending.
    pub fn get_tag_list_with_count(&self) -> (r: Result<Vec<(String, usize)>, Error>)
        requires
            self.wf(),
            all_tags(self@).len() <= usize::MAX,
        ensures
            r is Ok,
            tag_counts_correct(self@, r->Ok_0@),
    {
        let ghost full = all_tags(self@);
        let acc = self.tally_tags();
        let out = sort_tag_rows(&acc, Ghost(full));
        proof {
            assert(tag_counts_correct(self@, out@)) by {
                assert forall|k: int|
                    0 <= k < all_tags(self@).len() implies has_tag_row(
                    out@,
                    #[trigger] all_tags(self@)[k],
                ) by {
                    assert(has_tag_row(acc@, full[k]));
                    let b = choose|b: int| 0 <= b < acc@.len() && acc@[b].0@ == full[k];
                    assert(has_tag_row(out@, acc@[b].0@));
                    assert(acc@[b].0@ == all_tags(self@)[k]);
                }
            }
        }
        Ok(out)
    }
}

/// Sorts the tally rows by count descending, then tag ascending; the rows
/// keep their tags, their counts and their distinctness.
#[verifier::rlimit(100)]
fn sort_tag_rows(acc: &Vec<(String, usize)>, Ghost(full): Ghost<Seq<Seq<char>>>) -> (out: Vec<
    (String, usize),
>)
    requires
        forall|a: int, b: int| 0 <= a < b < acc@.len() ==> acc@[a].0@ != acc@[b].0@,
        forall|a: int|
            0 <= a < acc@.len() ==> acc@[a].1 as nat == count_tag(full, acc@[a].0@) && acc@[a].1
                >= 1,
    ensures
        forall|a: int, b: int| 0 <= a < b < out@.len() ==> tag_count_le(out@[a], out@[b]),
        forall|a: int, b: int| 0 <= a < b < out@.len() ==> out@[a].0@ != out@[b].0@,
        forall|a: int|
            0 <= a < out@.len() ==> out@[a].1 as nat == count_tag(full, out@[a].0@) && out@[a].1
                >= 1,
        forall|k: int| 0 <= k < acc@.len() ==> has_tag_row(out@, #[trigger] acc@[k].0@),
{
    let mut out: Vec<(String, usize)> = Vec::new();
    let mut i: usize = 0;
    proof {
        assert(acc@.take(0) =~= Seq::<(String, usize)>::empty());
        assert(Seq::<(String, usize)>::empty().to_multiset() =~= out@.to_multiset()) by {
            broadcast use vstd::seq_lib::group_to_multiset_ensures;

        }
    }
    while i < acc.len()
        invariant
            0 <= i <= acc@.len(),
            forall|a: int, b: int| 0 <= a < b < out@.len() ==> tag_count_le(out@[a], out@[b]),
            out@.to_multiset() == acc@.take(i as int).to_multiset(),
        decreases acc@.len() - i,
    {
        let x = (acc[i].0.clone(), acc[i].1);
        proof {
            assert(x == acc@[i as int]);
        }
        let j = tag_lower_position(&out, &x);
        let ghost outpre = out@;
        out.insert(j, x);
        proof {
            broadcast use vstd::seq_lib::group_to_multiset_ensures;

            assert(out@ == outpre.insert(j as int, x));
            vstd::seq_lib::to_multiset_insert(outpre, j as int, x);
            assert(acc@.take(i as int + 1) =~= acc@.take(i as int).push(acc@[i as int]));
            lemma_tag_sorted_insert(outpre, out@, x, j as int);
        }
        i = i + 1;
    }
    proof {
        assert(acc@.take(acc@.len() as int) =~= acc@);
        lemma_tag_rows_from_permutation(acc@, out@, full);
    }
    out
}

/// A permutation holds exactly the other sequence's rows: every row of
/// one stands somewhere in the other.
proof fn lemma_rows_onto(acc: Seq<(String, usize)>, out: Seq<(String, usize)>)
    requires
        out.to_multiset() == acc.to_multiset(),
    ensures
        forall|b: int| 0 <= b < out.len() ==> has_row(acc, #[trigger] out[b]),
        forall|k: int| 0 <= k < acc.len() ==> has_row(out, #[trigger] acc[k]),
{
    broadcast use vstd::seq_lib::group_to_multiset_ensures;

    assert forall|b: int| 0 <= b < out.len() implies has_row(acc, #[trigger] out[b]) by {
        assert(out.contains(out[b]));
        assert(out.to_multiset().contains(out[b]));
        assert(acc.to_multiset().contains(out[b]));
        assert(acc.contains(out[b]));
    }
    assert forall|k: int| 0 <= k < acc.len() implies has_row(out, #[trigger] acc[k]) by {
        assert(acc.contains(acc[k]));
        assert(acc.to_multiset().contains(acc[k]));
        assert(out.to_multiset().contains(acc[k]));
        assert(out.contains(acc[k]));
    }
}

/// A permutation of rows with pairwise distinct tags has pairwise
/// distinct tags.
proof fn lemma_rows_distinct_tags(acc: Seq<(String, usize)>, out: Seq<(String, usize)>)
    requires
        out.to_multiset() == acc.to_multiset(),
        forall|a: int, b: int| 0 <= a < b < acc.len() ==> acc[a].0@ != acc[b].0@,
    ensures
        forall|a: int, b: int| 0 <= a < b < out.len() ==> out[a].0@ != out[b].0@,
{
    broadcast use vstd::seq_lib::group_to_multiset_ensures;

    lemma_rows_onto(acc, out);
    assert(acc.no_duplicates()) by {
        assert forall|i: int, j: int|
            0 <= i < acc.len() && 0 <= j < acc.len() && i != j implies acc[i] != acc[j] by {
            if i < j {
                assert(acc[i].0@ != acc[j].0@);
            } else {
                assert(acc[j].0@ != acc[i].0@);
            }
        }
    }
    acc.lemma_multiset_has_no_duplicates();
    assert forall|x: (String, usize)|
        out.to_multiset().contains(x) implies out.to_multiset().count(x) == 1 by {
        assert(acc.to_multiset().contains(x));
    }
    out.lemma_multiset_has_no_duplicates_conv();
    assert forall|a: int, b: int| 0 <= a < b < out.len() implies out[a].0@ != out[b].0@ by {
        if out[a].0@ == out[b].0@ {
            assert(out[a] != out[b]);
            assert(has_row(acc, out[a]));
            assert(has_row(acc, out[b]));
            let k1 = choose|k: int| 0 <= k < acc.len() && acc[k] == out[a];
            let k2 = choose|k: int| 0 <= k < acc.len() && acc[k] == out[b];
            assert(k1 != k2);
            if k1 < k2 {
                assert(acc[k1].0@ != acc[k2].0@);
            } else {
                assert(acc[k2].0@ != acc[k1].0@);
            }
        }
    }
}

/// A permutation of distinct, correctly counted tally rows is itself
/// distinct and correctly counted, and holds a row for every tag the
/// original rows hold.
proof fn lemma_tag_rows_from_permutation(
    acc: Seq<(String, usize)>,
    out: Seq<(String, usize)>,
    full: Seq<Seq<char>>,
)
    requires
        out.to_multiset() == acc.to_multiset(),
        forall|a: int, b: int| 0 <= a < b < acc.len() ==> acc[a].0@ != acc[b].0@,
        forall|a: int|
            0 <= a < acc.len() ==> acc[a].1 as nat == count_tag(full, acc[a].0@) && acc[a].1 >= 1,
    ensures
        forall|a: int, b: int| 0 <= a < b < out.len() ==> out[a].0@ != out[b].0@,
        forall|a: int|
            0 <= a < out.len() ==> out[a].1 as nat == count_tag(full, out[a].0@) && out[a].1 >= 1,
        forall|k: int| 0 <= k < acc.len() ==> has_tag_row(out, #[trigger] acc[k].0@),
{
    lemma_rows_onto(acc, out);
    lemma_rows_distinct_tags(acc, out);
    assert forall|a: int|
        0 <= a < out.len() implies out[a].1 as nat == count_tag(full, out[a].0@) && out[a].1
        >= 1 by {
        assert(has_row(acc, out[a]));
        let k = choose|k: int| 0 <= k < acc.len() && acc[k] == out[a];
    }
    assert forall|k: int| 0 <= k < acc.len() implies has_tag_row(out, #[trigger] acc[k].0@) by {
        assert(has_row(out, acc[k]));
        let b = choose|b: int| 0 <= b < out.len() && out[b] == acc[k];
        assert(out[b].0@ == acc[k].0@);
    }
}

/// Inserting a row at its scan position keeps the rows sorted.
proof fn lemma_tag_sorted_insert(
    outpre: Seq<(String, usize)>,
    outp: Seq<(String, usize)>,
    x: (String, usize),
    j: int,
)
    requires
        0 <= j <= outpre.len(),
        outp == outpre.insert(j, x),
        forall|a: int, b: int| 0 <= a < b < outpre.len() ==> tag_count_le(outpre[a], outpre[b]),
        forall|k: int| 0 <= k < j ==> !tag_count_le(x, outpre[k]),
        j < outpre.len() ==> tag_count_le(x, outpre[j]),
    ensures
        forall|a: int, b: int| 0 <= a < b < outp.len() ==> tag_count_le(outp[a], outp[b]),
{
    outpre.insert_ensures(j, x);
    assert forall|a: int, b: int|
        0 <= a < b < outp.len() implies tag_count_le(outp[a], outp[b]) by {
        let xa = outp[a];
        let xb = outp[b];
        if a == j {
            assert(xa == x);
            if b == j {
            } else {
                assert(xb == outpre[b - 1]);
                if b - 1 == j {
                    assert(tag_count_le(x, outpre[j]));
                } else {
                    assert(tag_count_le(x, outpre[j]));
                    assert(tag_count_le(outpre[j], outpre[b - 1]));
                    lemma_tag_count_le_trans(x, outpre[j], outpre[b - 1]);
                }
            }
        } else if a < j {
            assert(xa == outpre[a]);
            assert(!tag_count_le(x, outpre[a]));
            lemma_tag_count_le_total(x, outpre[a]);
            if b == j {
                assert(xb == x);
            } else if b < j {
                assert(xb == outpre[b]);
            } else {
                assert(xb == outpre[b - 1]);
            }
        } else {
            assert(xa == outpre[a - 1]);
            assert(b > j);
            assert(xb == outpre[b - 1]);
        }
    }
}

/// Filtering keeps a sequence whose elements all pass the predicate
/// unchanged.
proof fn lemma_filter_all(s: Seq<EntryV>, p: spec_fn(EntryV) -> bool)
    requires
        forall|k: int| 0 <= k < s.len() ==> p(#[trigger] s[k]),
    ensures
        s.filter(p) == s,
    decreases s.len(),
{
    reveal(Seq::filter);
    if s.len() > 0 {
        assert forall|k: int| 0 <= k < s.drop_last().len() implies p(#[trigger] s.drop_last()[k]) by {
            assert(s.drop_last()[k] == s[k]);
        }
        lemma_filter_all(s.drop_last(), p);
        assert(p(s.last()));
        assert(s.drop_last().push(s.last()) =~= s);
    }
}

/// Every element of a filtered sequence is an element of the original one.
proof fn lemma_filter_subset(s: Seq<EntryV>, p: spec_fn(EntryV) -> bool)
    ensures
        forall|k: int| 0 <= k < s.filter(p).len() ==> s.contains(#[trigger] s.filter(p)[k]),
    decreases s.len(),
{
    reveal(Seq::filter);
    if s.len() > 0 {
        lemma_filter_subset(s.drop_last(), p);
        let sub = s.drop_last().filter(p);
        assert forall|k: int| 0 <= k < s.filter(p).len() implies s.contains(
            #[trigger] s.filter(p)[k],
        ) by {
            if k < sub.len() {
                assert(s.filter(p)[k] == sub[k]);
                let m = choose|m: int| 0 <= m < s.drop_last().len() && s.drop_last()[m] == sub[k];
                assert(s[m] == s.drop_last()[m]);
            } else {
                assert(s.filter(p)[k] == s.last());
                assert(s[s.len() - 1] == s.last());
            }
        }
    }
}

/// Filtering a sorted sequence yields a sorted sequence.
pub proof fn lemma_filter_sorted(field: SortingField, s: Seq<EntryV>, p: spec_fn(EntryV) -> bool)
    requires
        sorted_entries(field, s),
    ensures
        sorted_entries(field, s.filter(p)),
    decreases s.len(),
{
    reveal(Seq::filter);
    if s.len() > 0 {
        assert(sorted_entries(field, s.drop_last())) by {
            assert forall|i: int, j: int|
                0 <= i < j < s.drop_last().len() implies entry_le(
                field,
                s.drop_last()[i],
                s.drop_last()[j],
            ) by {
                assert(s.drop_last()[i] == s[i] && s.drop_last()[j] == s[j]);
            }
        }
        lemma_filter_sorted(field, s.drop_last(), p);
        lemma_filter_subset(s.drop_last(), p);
        let sub = s.drop_last().filter(p);
        if p(s.last()) {
            assert(s.filter(p) == sub.push(s.last()));
            assert forall|i: int, j: int|
                0 <= i < j < s.filter(p).len() implies entry_le(
                field,
                s.filter(p)[i],
                s.filter(p)[j],
            ) by {
                if j < sub.len() {
                    assert(s.filter(p)[i] == sub[i] && s.filter(p)[j] == sub[j]);
                } else {
                    assert(s.filter(p)[j] == s.last());
                    assert(s.filter(p)[i] == sub[i]);
                    let m = choose|m: int|
                        0 <= m < s.drop_last().len() && s.drop_last()[m] == sub[i];
                    assert(s[m] == s.drop_last()[m]);
                    assert(entry_le(field, s[m], s[s.len() - 1]));
                }
            }
        }
    }
}

/// Filtering after prepending one element keeps or drops exactly that
/// element in front.
proof fn lemma_filter_cons(x: EntryV, t: Seq<EntryV>, p: spec_fn(EntryV) -> bool)
    ensures
        (seq![x] + t).filter(p) == if p(x) {
            seq![x] + t.filter(p)
        } else {
            t.filter(p)
        },
    decreases t.len(),
{
    reveal(Seq::filter);
    let s = seq![x] + t;
    if t.len() == 0 {
        assert(s.drop_last() =~= t);
        assert(s.last() == x);
        assert(t.filter(p) == t);
        if p(x) {
            assert(s.filter(p) == t.filter(p).push(x));
            assert(t.filter(p).push(x) =~= seq![x] + t.filter(p));
        } else {
            assert(s.filter(p) == t.filter(p));
        }
    } else {
        assert(s.drop_last() =~= seq![x] + t.drop_last());
        assert(s.last() == t.last());
        lemma_filter_cons(x, t.drop_last(), p);
        if p(x) {
            if p(t.last()) {
                assert((seq![x] + t.drop_last().filter(p)).push(t.last()) =~= seq![x]
                    + t.drop_last().filter(p).push(t.last()));
            }
            assert(s.filter(p) =~= seq![x] + t.filter(p));
        } else {
            assert(s.filter(p) =~= t.filter(p));
        }
    }
}

/// Filtering commutes with reversal.
pub proof fn lemma_filter_reverse(s: Seq<EntryV>, p: spec_fn(EntryV) -> bool)
    ensures
        s.reverse().filter(p) == s.filter(p).reverse(),
    decreases s.len(),
{
    reveal(Seq::filter);
    if s.len() == 0 {
        assert(s.reverse().filter(p) =~= s.filter(p).reverse());
    } else {
        assert(s.reverse().drop_last() =~= s.skip(1).reverse());
        assert(s.reverse().last() == s[0]);
        lemma_filter_reverse(s.skip(1), p);
        assert(s =~= seq![s[0]] + s.skip(1));
        lemma_filter_cons(s[0], s.skip(1), p);
        if p(s[0]) {
            assert(s.filter(p) == seq![s[0]] + s.skip(1).filter(p));
            assert((seq![s[0]] + s.skip(1).filter(p)).reverse() =~= s.skip(1).filter(
                p,
            ).reverse().push(s[0]));
            assert(s.reverse().filter(p) == s.skip(1).reverse().filter(p).push(s[0]));
            assert(s.reverse().filter(p) =~= s.filter(p).reverse());
        } else {
            assert(s.filter(p) == s.skip(1).filter(p));
            assert(s.reverse().filter(p) == s.skip(1).reverse().filter(p));
            assert(s.reverse().filter(p) =~= s.filter(p).reverse());
        }
    }
}

/// Two pointwise-equal predicates filter alike.
proof fn lemma_filter_congruence(
    s: Seq<EntryV>,
    p1: spec_fn(EntryV) -> bool,
    p2: spec_fn(EntryV) -> bool,
)
    requires
        forall|e: EntryV| #[trigger] p1(e) == p2(e),
    ensures
        s.filter(p1) == s.filter(p2),
    decreases s.len(),
{
    reveal(Seq::filter);
    if s.len() > 0 {
        lemma_filter_congruence(s.drop_last(), p1, p2);
    }
}

/// With no filters and no pagination, a search returns exactly one id per
/// stored entry: the result is a permutation of the stored ids, and where
/// ids are unique it holds each of them exactly once.
pub proof fn lemma_search_unfiltered_exact(s: Seq<EntryV>, q: MovieSearchQueryV)
    requires
        unique_ids(s),
        q.title is None,
        q.tags.len() == 0,
        q.start_index is None,
        q.num_results is None,
    ensures
        search_results(s, q).to_multiset() =~= ids_of(s).to_multiset(),
        search_results(s, q).len() == s.len(),
        search_results(s, q).no_duplicates(),
        forall|i: int| 0 <= i < s.len() ==> search_results(s, q).contains(#[trigger] s[i].id),
{
    broadcast use vstd::seq_lib::group_to_multiset_ensures;
    broadcast use vstd::multiset::group_multiset_axioms;

    let field = q.sorting_field;
    let asc = sort_entries(field, s);
    lemma_sort_entries_ensures(field, s);
    let ordered = ordered_entries(s, field, q.sorting_order);
    assert(ids_of(ordered).to_multiset() =~= ids_of(s).to_multiset()) by {
        if q.sorting_order == SortingOrder::Descending {
            assert(ids_of(asc.reverse()) =~= ids_of(asc).reverse()) by {
                assert forall|k: int|
                    0 <= k < asc.len() implies ids_of(asc.reverse())[k] == ids_of(
                    asc,
                ).reverse()[k] by {
                    assert(ids_of(asc.reverse())[k] == asc.reverse()[k].id);
                    assert(ids_of(asc)[asc.len() - 1 - k] == asc[asc.len() - 1 - k].id);
                }
            }
            ids_of(asc).lemma_reverse_to_multiset();
        }
    }
    assert(ordered.len() == s.len());
    assert forall|k: int| 0 <= k < ordered.len() implies matches_pred(q)(#[trigger] ordered[k]) by {
        assert(entry_matches(ordered[k], q));
    }
    lemma_filter_all(ordered, matches_pred(q));
    let f = filtered_entries(s, q);
    assert(f == ordered);
    assert(page_start(q, f.len() as int) == 0);
    assert(page_end(q, f.len() as int) == f.len());
    assert(f.subrange(0, f.len() as int) =~= f);
    assert(search_results(s, q) == ids_of(f));
    assert(ids_of(s).no_duplicates()) by {
        assert forall|i: int, j: int|
            0 <= i < ids_of(s).len() && 0 <= j < ids_of(s).len() && i != j implies ids_of(s)[i]
            != ids_of(s)[j] by {
            assert(ids_of(s)[i] == s[i].id);
            assert(ids_of(s)[j] == s[j].id);
        }
    }
    ids_of(s).lemma_multiset_has_no_duplicates();
    search_results(s, q).lemma_multiset_has_no_duplicates_conv();
    assert forall|i: int| 0 <= i < s.len() implies search_results(s, q).contains(
        #[trigger] s[i].id,
    ) by {
        assert(ids_of(s)[i] == s[i].id);
        assert(ids_of(s).contains(s[i].id));
        assert(ids_of(s).to_multiset().contains(s[i].id));
        assert(search_results(s, q).to_multiset().contains(s[i].id));
    }
}

/// Tag filtering is conjunctive: with no title pattern, an entry passes a
/// query exactly when every lowercased query tag is present among its
/// tags.
pub proof fn lemma_tag_filter_conjunctive(e: EntryV, q: MovieSearchQueryV)
    requires
        q.title is None,
    ensures
        entry_matches(e, q) <==> (forall|k: int|
            0 <= k < q.tags.len() ==> e.details.movie.tags.contains(
                #[trigger] lower_of(q.tags[k]),
            )),
{
}

/// Sorting by title ascending yields titles in non-decreasing
/// codepoint-lexicographic order across the filtered results.
pub proof fn lemma_search_titles_nondecreasing(
    s: Seq<EntryV>,
    q: MovieSearchQueryV,
    a: int,
    b: int,
)
    requires
        q.sorting_field == SortingField::Title,
        q.sorting_order == SortingOrder::Ascending,
        0 <= a < b < filtered_entries(s, q).len(),
    ensures
        lex_le(
            filtered_entries(s, q)[a].details.movie.title,
            filtered_entries(s, q)[b].details.movie.title,
        ),
{
    lemma_sort_entries_ensures(q.sorting_field, s);
    lemma_filter_sorted(q.sorting_field, sort_entries(q.sorting_field, s), matches_pred(q));
    let f = filtered_entries(s, q);
    assert(entry_le(q.sorting_field, f[a], f[b]));
}

/// Sorting descending yields exactly the reverse of the ascending result,
/// for the same filters and without pagination.
pub proof fn lemma_search_descending_reverse(
    s: Seq<EntryV>,
    qa: MovieSearchQueryV,
    qd: MovieSearchQueryV,
)
    requires
        qa.sorting_order == SortingOrder::Ascending,
        qd.sorting_order == SortingOrder::Descending,
        qd.sorting_field == qa.sorting_field,
        qd.title == qa.title,
        qd.tags == qa.tags,
        qa.start_index is None,
        qa.num_results is None,
        qd.start_index is None,
        qd.num_results is None,
    ensures
        search_results(s, qd) == search_results(s, qa).reverse(),
{
    let field = qa.sorting_field;
    let asc = sort_entries(field, s);
    assert forall|e: EntryV| #[trigger] matches_pred(qd)(e) == matches_pred(qa)(e) by {
        assert(matches_pred(qd)(e) == entry_matches(e, qd));
        assert(matches_pred(qa)(e) == entry_matches(e, qa));
    }
    lemma_filter_congruence(asc.reverse(), matches_pred(qd), matches_pred(qa));
    lemma_filter_reverse(asc, matches_pred(qa));
    let fa = filtered_entries(s, qa);
    let fd = filtered_entries(s, qd);
    assert(fd == fa.reverse());
    assert(fa.subrange(0, fa.len() as int) =~= fa);
    assert(fd.subrange(0, fd.len() as int) =~= fd);
    assert(search_results(s, qa) == ids_of(fa));
    assert(search_results(s, qd) == ids_of(fd));
    assert(ids_of(fa.reverse()) =~= ids_of(fa).reverse()) by {
        assert forall|k: int|
            0 <= k < fa.len() implies ids_of(fa.reverse())[k] == ids_of(fa).reverse()[k] by {
            assert(ids_of(fa.reverse())[k] == fa.reverse()[k].id);
            assert(ids_of(fa)[fa.len() - 1 - k] == fa[fa.len() - 1 - k].id);
        }
    }
}

/// With `offset = k` and `limit = n`, a search returns the `[k, k + n)`
/// window of the filtered, ordered sequence.
pub proof fn lemma_search_window(s: Seq<EntryV>, q: MovieSearchQueryV, k: usize, n: usize)
    requires
        q.start_index == Some(k),
        q.num_results == Some(n),
        k + n <= filtered_entries(s, q).len(),
    ensures
        search_results(s, q) == ids_of(filtered_entries(s, q).subrange(k as int, k as int + n)),
{
}

/// An offset at or beyond the filtered count returns an empty result.
pub proof fn lemma_search_offset_beyond(s: Seq<EntryV>, q: MovieSearchQueryV, k: usize)
    requires
        q.start_index == Some(k),
        k >= filtered_entries(s, q).len(),
    ensures
        search_results(s, q).len() == 0,
{
    let f = filtered_entries(s, q);
    assert(page_start(q, f.len() as int) == f.len());
    assert(page_end(q, f.len() as int) == f.len());
    assert(f.subrange(f.len() as int, f.len() as int).len() == 0);
}

/// A removed id is gone: after the removal the id is no longer found, so a
/// second removal or a lookup of the same id reports not-found.
pub proof fn lemma_remove_then_absent(s: Seq<EntryV>, id: Seq<char>)
    requires
        unique_ids(s),
        contains_id(s, id),
    ensures
        !contains_id(s.remove(find_index(s, id)), id),
        lookup(s.remove(find_index(s, id)), id) is None,
{
    lemma_find_index(s, id);
    let i = find_index(s, id);
    let r = s.remove(i);
    s.remove_ensures(i);
    assert forall|k: int| 0 <= k < r.len() implies r[k].id != id by {
        if k < i {
            assert(r[k] == s[k]);
        } else {
            assert(r[k] == s[k + 1]);
        }
    }
    lemma_lookup_contains(r, id);
}

} // verus!
