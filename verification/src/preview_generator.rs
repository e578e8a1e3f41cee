//! The preview pipeline's decision logic: which entries need a preview at
//! startup, how one job advances through its collaborator calls, and what
//! the strict-FIFO worker does to the catalog for given collaborator
//! outcomes. The blocking calls themselves (blob paths, probing, frame
//! extraction, byte writes) are performed by the surrounding program; every
//! decision between them is made and verified here.

use vstd::prelude::*;

use crate::error::Error;
use crate::id::MovieId;
use crate::movies_index::{
    FileInfoV, MovieSearchQuery, MovieSearchQueryV, ScreenshotInfo, SortingField, SortingOrder,
};
use crate::simple_movies_index::{
    contains_id, lemma_lookup_at, lemma_lookup_contains, lookup, set_screenshot_info, unique_ids,
    EntryV, SimpleMoviesIndex,
};
use crate::text::str_views;

verus! {

/// The request to generate a preview for one movie.
#[derive(Clone, Debug)]
pub struct ScreenshotRequest {
    /// The id of the movie to generate the preview for.
    pub movie_id: MovieId,
    /// The file extension of the movie's media blob.
    pub ext: String,
}

/// The mathematical value of a [`ScreenshotRequest`].
pub struct RequestV {
    pub movie_id: Seq<char>,
    pub ext: Seq<char>,
}

impl View for ScreenshotRequest {
    type V = RequestV;

    open spec fn view(&self) -> RequestV {
        RequestV { movie_id: self.movie_id@, ext: self.ext@ }
    }
}

/// The preview metadata the pipeline writes: always a PNG image.
pub open spec fn png_info_v() -> FileInfoV {
    FileInfoV { extension: "png"@, mime_type: "image/png"@ }
}

/// The screenshot info the pipeline stores for every generated preview.
pub fn preview_screenshot_info() -> (r: ScreenshotInfo)
    ensures
        r@ == png_info_v(),
{
    ScreenshotInfo { extension: "png".to_owned(), mime_type: "image/png".to_owned() }
}

/// The capture instant of the preview: the middle of the movie.
pub fn capture_instant_ms(duration_ms: u64) -> (r: u64)
    ensures
        r == duration_ms / 2,
{
    duration_ms / 2
}

/// Whether an entry is waiting for a preview: media present, preview not.
pub open spec fn needs_preview(d: crate::movies_index::MovieDetailedV) -> bool {
    d.movie_file_info is Some && d.screenshot_file_info is None
}

/// The requests the reconciliation pass derives from the catalog: one per
/// listed id whose entry has media but no preview, in listing order,
/// carrying the media blob's extension.
pub open spec fn plan_spec(s: Seq<EntryV>, ids: Seq<Seq<char>>) -> Seq<RequestV>
    decreases ids.len(),
{
    if ids.len() == 0 {
        Seq::empty()
    } else {
        plan_spec(s, ids.drop_last()) + (match lookup(s, ids.last()) {
            Some(d) => if needs_preview(d) {
                seq![RequestV { movie_id: ids.last(), ext: d.movie_file_info->Some_0.extension }]
            } else {
                Seq::empty()
            },
            None => Seq::empty(),
        })
    }
}

/// The query the reconciliation pass lists the catalog with: everything,
/// in the default order.
pub open spec fn reconcile_query() -> MovieSearchQueryV {
    MovieSearchQueryV {
        sorting_field: SortingField::Date,
        sorting_order: SortingOrder::Descending,
        title: None,
        tags: Seq::empty(),
        start_index: None,
        num_results: None,
    }
}

/// The views of a sequence of requests.
pub open spec fn request_views(v: Seq<ScreenshotRequest>) -> Seq<RequestV> {
    v.map_values(|r: ScreenshotRequest| r@)
}

/// The startup reconciliation pass: lists every entry of the catalog and
/// returns one request per entry that has media but no preview yet.
pub fn plan_missing_previews(index: &SimpleMoviesIndex) -> (r: Vec<ScreenshotRequest>)
    requires
        index.wf(),
    ensures
        request_views(r@) == plan_spec(
            index@,
            crate::simple_movies_index::search_results(index@, reconcile_query()),
        ),
{
    let q = MovieSearchQuery::default();
    let ghost qv = q@;
    proof {
        assert(qv == reconcile_query()) by {
            assert(str_views(q.tags@) =~= Seq::<Seq<char>>::empty());
            assert(qv.tags =~= reconcile_query().tags);
        }
    }
    let ids = match index.search_movies(q) {
        Ok(ids) => ids,
        Err(_) => {
            proof {
                assert(false);
            }
            Vec::new()
        },
    };
    let ghost idv = str_views(ids@);
    proof {
        assert(idv == crate::simple_movies_index::search_results(index@, reconcile_query()));
    }
    let mut r: Vec<ScreenshotRequest> = Vec::new();
    let mut i: usize = 0;
    while i < ids.len()
        invariant
            0 <= i <= ids@.len(),
            idv == str_views(ids@),
            idv.len() == ids@.len(),
            index.wf(),
            request_views(r@) == plan_spec(index@, idv.take(i as int)),
        decreases ids@.len() - i,
    {
        proof {
            assert(idv[i as int] == ids@[i as int]@);
        }
        let ghost rpre = r@;
        match index.get_movie(&ids[i]) {
            Ok(d) => {
                proof {
                    if !contains_id(index@, ids@[i as int]@) {
                        assert(false);
                    }
                    lemma_lookup_contains(index@, ids@[i as int]@);
                }
                match (&d.movie_file_info, &d.screenshot_file_info) {
                    (Some(fi), None) => {
                        r.push(
                            ScreenshotRequest {
                                movie_id: ids[i].clone(),
                                ext: fi.extension.clone(),
                            },
                        );
                    },
                    _ => {},
                }
            },
            Err(_) => {
                proof {
                    lemma_lookup_contains(index@, ids@[i as int]@);
                }
            },
        }
        proof {
            let t = idv.take(i as int + 1);
            assert(t.drop_last() =~= idv.take(i as int));
            assert(t.last() == idv[i as int]);
            assert(request_views(r@) =~= plan_spec(index@, t)) by {
                assert forall|k: int|
                    0 <= k < r@.len() implies request_views(r@)[k] == plan_spec(index@, t)[k] by {
                    assert(request_views(r@)[k] == r@[k]@);
                    if k < rpre.len() {
                        assert(r@[k] == rpre[k]);
                        assert(request_views(rpre)[k] == rpre[k]@);
                    }
                }
                assert(request_views(r@).len() == plan_spec(index@, t).len());
            }
        }
        i = i + 1;
    }
    proof {
        assert(idv.take(idv.len() as int) =~= idv);
    }
    r
}

/// Whether the queue holds a job for the given movie.
pub open spec fn plan_has_job(p: Seq<RequestV>, id: Seq<char>) -> bool {
    exists|i: int| 0 <= i < p.len() && p[i].movie_id == id
}

/// The reconciliation pass misses nothing: every listed entry that has
/// media but no preview gets a job.
pub proof fn lemma_plan_covers(s: Seq<EntryV>, ids: Seq<Seq<char>>, k: int)
    requires
        unique_ids(s),
        0 <= k < s.len(),
        needs_preview(s[k].details),
        ids.contains(s[k].id),
    ensures
        plan_has_job(plan_spec(s, ids), s[k].id),
    decreases ids.len(),
{
    lemma_lookup_at(s, k);
    let p = plan_spec(s, ids);
    let p0 = plan_spec(s, ids.drop_last());
    if ids.last() == s[k].id {
        assert(p[p0.len() as int].movie_id == s[k].id);
        assert(p0.len() < p.len());
    } else {
        let m = choose|m: int| 0 <= m < ids.len() && ids[m] == s[k].id;
        assert(m < ids.len() - 1);
        assert(ids.drop_last()[m] == ids[m]);
        assert(ids.drop_last().contains(s[k].id));
        lemma_plan_covers(s, ids.drop_last(), k);
        let i = choose|i: int| 0 <= i < p0.len() && p0[i].movie_id == s[k].id;
        assert(p[i] == p0[i]);
        assert(p[i].movie_id == s[k].id);
    }
}

/// After the reconciliation pass, an entry that had media but no preview
/// carries the PNG preview metadata once its job's collaborator steps all
/// succeeded — whatever happened to the other queued jobs.
pub proof fn lemma_reconciliation_recovers(
    s: Seq<EntryV>,
    jobs: Seq<RequestV>,
    outs: Seq<JobOutcome>,
    k: int,
)
    requires
        unique_ids(s),
        0 <= k < s.len(),
        needs_preview(s[k].details),
        jobs == plan_spec(
            s,
            crate::simple_movies_index::search_results(s, reconcile_query()),
        ),
        outs.len() == jobs.len(),
        forall|j: int|
            0 <= j < jobs.len() && (#[trigger] jobs[j]).movie_id == s[k].id ==> job_reaches_index(
                outs[j],
            ),
    ensures
        lookup(drain_spec(s, jobs, outs), s[k].id) is Some,
        lookup(drain_spec(s, jobs, outs), s[k].id)->Some_0.screenshot_file_info == Some(
            png_info_v(),
        ),
{
    let rq = reconcile_query();
    let results = crate::simple_movies_index::search_results(s, rq);
    crate::simple_movies_index::lemma_search_unfiltered_exact(s, rq);
    assert(results.contains(s[k].id));
    lemma_plan_covers(s, results, k);
    let i = choose|i: int| 0 <= i < jobs.len() && jobs[i].movie_id == s[k].id;
    assert(jobs =~= jobs.take(i) + jobs.skip(i));
    assert(outs =~= outs.take(i) + outs.skip(i));
    lemma_drain_append(s, jobs.take(i), outs.take(i), jobs.skip(i), outs.skip(i));
    let s1 = drain_spec(s, jobs.take(i), outs.take(i));
    assert(contains_id(s, s[k].id));
    lemma_drain_ids(s, jobs.take(i), outs.take(i), s[k].id);
    assert(contains_id(s1, s[k].id));
    assert(jobs.skip(i)[0] == jobs[i]);
    assert(outs.skip(i)[0] == outs[i]);
    assert(job_reaches_index(outs[i]));
    let s2 = job_step_spec(s1, jobs[i], outs[i]);
    assert(s2 == set_screenshot_info(s1, s[k].id, png_info_v()));
    lemma_lookup_contains(s1, s[k].id);
    lemma_set_screenshot_lookup(s1, s[k].id, png_info_v(), s[k].id);
    assert(lookup(s2, s[k].id) is Some);
    assert(lookup(s2, s[k].id)->Some_0.screenshot_file_info == Some(png_info_v()));
    assert(jobs.skip(i).skip(1) =~= jobs.skip(i + 1));
    assert(outs.skip(i).skip(1) =~= outs.skip(i + 1));
    assert(drain_spec(s1, jobs.skip(i), outs.skip(i)) == drain_spec(
        s2,
        jobs.skip(i + 1),
        outs.skip(i + 1),
    ));
    lemma_drain_preserves_png(s2, jobs.skip(i + 1), outs.skip(i + 1), s[k].id);
}

/// What the collaborators answered for one job: whether the media blob's
/// path could be resolved, the probed duration where probing succeeded,
/// and whether frame extraction and the preview-blob write succeeded.
#[derive(Clone, Copy, Debug)]
pub struct JobOutcome {
    pub resolved: bool,
    pub duration_ms: Option<u64>,
    pub extracted: bool,
    pub stored: bool,
}

/// Whether a job got through every collaborator step and reaches the
/// final index update.
pub open spec fn job_reaches_index(o: JobOutcome) -> bool {
    o.resolved && o.duration_ms is Some && o.extracted && o.stored
}

/// What one job does to the catalog: where every collaborator step
/// succeeded and the movie is still present, its preview metadata becomes
/// the PNG info; on any failure the catalog is left as it was.
pub open spec fn job_step_spec(s: Seq<EntryV>, j: RequestV, o: JobOutcome) -> Seq<EntryV> {
    if job_reaches_index(o) && contains_id(s, j.movie_id) {
        set_screenshot_info(s, j.movie_id, png_info_v())
    } else {
        s
    }
}

/// What the worker loop does to the catalog for a queue of jobs, strictly
/// first-in first-out: each job's effect is applied to the state the
/// previous jobs left behind, and a failed job changes nothing.
pub open spec fn drain_spec(s: Seq<EntryV>, jobs: Seq<RequestV>, outs: Seq<JobOutcome>) -> Seq<
    EntryV,
>
    decreases jobs.len(),
{
    if jobs.len() == 0 {
        s
    } else {
        drain_spec(job_step_spec(s, jobs[0], outs[0]), jobs.skip(1), outs.skip(1))
    }
}

/// What overwriting one entry's preview metadata does to lookups: the
/// targeted id reads back the new metadata, every other id is unchanged.
pub proof fn lemma_set_screenshot_lookup(
    s: Seq<EntryV>,
    tid: Seq<char>,
    fi: FileInfoV,
    qid: Seq<char>,
)
    ensures
        lookup(set_screenshot_info(s, tid, fi), qid) == (match lookup(s, qid) {
            Some(d) => Some(
                if qid == tid {
                    crate::movies_index::MovieDetailedV {
                        movie: d.movie,
                        movie_file_info: d.movie_file_info,
                        screenshot_file_info: Some(fi),
                        date: d.date,
                    }
                } else {
                    d
                },
            ),
            None => None,
        }),
    decreases s.len(),
{
    let t = set_screenshot_info(s, tid, fi);
    if s.len() > 0 {
        assert(t[0] == set_screenshot_info(s, tid, fi)[0]);
        assert(t.skip(1) =~= set_screenshot_info(s.skip(1), tid, fi)) by {
            assert forall|k: int|
                0 <= k < s.skip(1).len() implies t.skip(1)[k] == set_screenshot_info(
                s.skip(1),
                tid,
                fi,
            )[k] by {
                assert(t.skip(1)[k] == t[k + 1]);
                assert(s.skip(1)[k] == s[k + 1]);
            }
        }
        lemma_set_screenshot_lookup(s.skip(1), tid, fi, qid);
    }
}

/// Overwriting preview metadata keeps every id in place.
pub proof fn lemma_set_screenshot_ids(s: Seq<EntryV>, tid: Seq<char>, fi: FileInfoV)
    ensures
        forall|qid: Seq<char>|
            contains_id(set_screenshot_info(s, tid, fi), qid) == #[trigger] contains_id(s, qid),
{
    let t = set_screenshot_info(s, tid, fi);
    assert forall|qid: Seq<char>|
        contains_id(t, qid) == #[trigger] contains_id(s, qid) by {
        assert forall|k: int| 0 <= k < s.len() implies t[k].id == s[k].id by {}
        if contains_id(s, qid) {
            let k = choose|k: int| 0 <= k < s.len() && s[k].id == qid;
            assert(t[k].id == qid);
        }
        if contains_id(t, qid) {
            let k = choose|k: int| 0 <= k < t.len() && t[k].id == qid;
            assert(s[k].id == qid);
        }
    }
}

/// One job keeps every id in place, whatever its outcome.
pub proof fn lemma_job_step_ids(s: Seq<EntryV>, j: RequestV, o: JobOutcome)
    ensures
        forall|qid: Seq<char>|
            contains_id(job_step_spec(s, j, o), qid) == #[trigger] contains_id(s, qid),
{
    if job_reaches_index(o) && contains_id(s, j.movie_id) {
        lemma_set_screenshot_ids(s, j.movie_id, png_info_v());
    }
}

/// Draining the queue keeps every id in place, whatever the outcomes.
pub proof fn lemma_drain_ids(
    s: Seq<EntryV>,
    jobs: Seq<RequestV>,
    outs: Seq<JobOutcome>,
    qid: Seq<char>,
)
    requires
        jobs.len() == outs.len(),
    ensures
        contains_id(drain_spec(s, jobs, outs), qid) == contains_id(s, qid),
    decreases jobs.len(),
{
    if jobs.len() > 0 {
        lemma_job_step_ids(s, jobs[0], outs[0]);
        lemma_drain_ids(job_step_spec(s, jobs[0], outs[0]), jobs.skip(1), outs.skip(1), qid);
    }
}

/// A PNG preview, once recorded, survives the rest of the queue: no job
/// ever removes an entry or writes anything but the PNG metadata.
pub proof fn lemma_drain_preserves_png(
    s: Seq<EntryV>,
    jobs: Seq<RequestV>,
    outs: Seq<JobOutcome>,
    id: Seq<char>,
)
    requires
        jobs.len() == outs.len(),
        lookup(s, id) is Some,
        lookup(s, id)->Some_0.screenshot_file_info == Some(png_info_v()),
    ensures
        lookup(drain_spec(s, jobs, outs), id) is Some,
        lookup(drain_spec(s, jobs, outs), id)->Some_0.screenshot_file_info == Some(png_info_v()),
    decreases jobs.len(),
{
    if jobs.len() > 0 {
        let s1 = job_step_spec(s, jobs[0], outs[0]);
        assert(lookup(s1, id) is Some && lookup(s1, id)->Some_0.screenshot_file_info == Some(
            png_info_v(),
        )) by {
            if job_reaches_index(outs[0]) && contains_id(s, jobs[0].movie_id) {
                lemma_set_screenshot_lookup(s, jobs[0].movie_id, png_info_v(), id);
            }
        }
        lemma_drain_preserves_png(s1, jobs.skip(1), outs.skip(1), id);
    }
}

/// A job that failed at any collaborator step leaves the catalog exactly
/// as it was, and the queue drains as if the job had never been enqueued:
/// the jobs behind it are processed unchanged.
pub proof fn lemma_failed_job_skipped(
    s: Seq<EntryV>,
    jobs: Seq<RequestV>,
    outs: Seq<JobOutcome>,
    i: int,
)
    requires
        jobs.len() == outs.len(),
        0 <= i < jobs.len(),
        !job_reaches_index(outs[i]),
    ensures
        drain_spec(s, jobs, outs) == drain_spec(s, jobs.remove(i), outs.remove(i)),
    decreases i,
{
    jobs.remove_ensures(i);
    outs.remove_ensures(i);
    if i == 0 {
        assert(job_step_spec(s, jobs[0], outs[0]) == s);
        assert(jobs.remove(0) =~= jobs.skip(1));
        assert(outs.remove(0) =~= outs.skip(1));
    } else {
        let s1 = job_step_spec(s, jobs[0], outs[0]);
        assert(jobs.skip(1)[i - 1] == jobs[i]);
        assert(outs.skip(1)[i - 1] == outs[i]);
        lemma_failed_job_skipped(s1, jobs.skip(1), outs.skip(1), i - 1);
        assert(jobs.remove(i)[0] == jobs[0]);
        assert(outs.remove(i)[0] == outs[0]);
        assert(jobs.remove(i).skip(1) =~= jobs.skip(1).remove(i - 1)) by {
            jobs.skip(1).remove_ensures(i - 1);
            assert forall|k: int|
                0 <= k < jobs.len() - 2 implies jobs.remove(i).skip(1)[k] == jobs.skip(1).remove(
                i - 1,
            )[k] by {
                assert(jobs.remove(i).skip(1)[k] == jobs.remove(i)[k + 1]);
                if k < i - 1 {
                    assert(jobs.remove(i)[k + 1] == jobs[k + 1]);
                    assert(jobs.skip(1).remove(i - 1)[k] == jobs.skip(1)[k]);
                    assert(jobs.skip(1)[k] == jobs[k + 1]);
                } else {
                    assert(jobs.remove(i)[k + 1] == jobs[k + 2]);
                    assert(jobs.skip(1).remove(i - 1)[k] == jobs.skip(1)[k + 1]);
                    assert(jobs.skip(1)[k + 1] == jobs[k + 2]);
                }
            }
        }
        assert(outs.remove(i).skip(1) =~= outs.skip(1).remove(i - 1)) by {
            outs.skip(1).remove_ensures(i - 1);
            assert forall|k: int|
                0 <= k < outs.len() - 2 implies outs.remove(i).skip(1)[k] == outs.skip(1).remove(
                i - 1,
            )[k] by {
                assert(outs.remove(i).skip(1)[k] == outs.remove(i)[k + 1]);
                if k < i - 1 {
                    assert(outs.remove(i)[k + 1] == outs[k + 1]);
                    assert(outs.skip(1).remove(i - 1)[k] == outs.skip(1)[k]);
                    assert(outs.skip(1)[k] == outs[k + 1]);
                } else {
                    assert(outs.remove(i)[k + 1] == outs[k + 2]);
                    assert(outs.skip(1).remove(i - 1)[k] == outs.skip(1)[k + 1]);
                    assert(outs.skip(1)[k + 1] == outs[k + 2]);
                }
            }
        }
    }
}

/// Draining splits over a split of the queue.
pub proof fn lemma_drain_append(
    s: Seq<EntryV>,
    j1: Seq<RequestV>,
    o1: Seq<JobOutcome>,
    j2: Seq<RequestV>,
    o2: Seq<JobOutcome>,
)
    requires
        j1.len() == o1.len(),
    ensures
        drain_spec(s, j1 + j2, o1 + o2) == drain_spec(drain_spec(s, j1, o1), j2, o2),
    decreases j1.len(),
{
    if j1.len() == 0 {
        assert(j1 + j2 =~= j2);
        assert(o1 + o2 =~= o2);
    } else {
        assert((j1 + j2)[0] == j1[0]);
        assert((o1 + o2)[0] == o1[0]);
        assert((j1 + j2).skip(1) =~= j1.skip(1) + j2);
        assert((o1 + o2).skip(1) =~= o1.skip(1) + o2);
        lemma_drain_append(job_step_spec(s, j1[0], o1[0]), j1.skip(1), o1.skip(1), j2, o2);
    }
}

/// One pass of the worker for one job: where every collaborator step
/// succeeded, the entry's preview metadata is set to the PNG info; on any
/// failure, or where the movie has meanwhile been removed, the catalog is
/// left unchanged and the worker goes on.
fn apply_job(index: &mut SimpleMoviesIndex, job: &ScreenshotRequest, outcome: &JobOutcome)
    requires
        old(index).wf(),
    ensures
        final(index).wf(),
        final(index)@ == job_step_spec(old(index)@, job@, *outcome),
{
    let runs = outcome.resolved && outcome.duration_ms.is_some() && outcome.extracted
        && outcome.stored;
    if runs {
        match index.update_screenshot_info(&job.movie_id, preview_screenshot_info()) {
            Ok(()) => {},
            Err(_) => {
                proof {
                    assert(!contains_id(old(index)@, job@.movie_id));
                }
            },
        }
    }
}

/// The worker loop, as a verified function of the collaborator outcomes:
/// processes the queue strictly first-in first-out and writes the PNG
/// preview metadata for every job whose collaborator steps all succeeded.
pub fn drain_queue(
    index: &mut SimpleMoviesIndex,
    jobs: &Vec<ScreenshotRequest>,
    outcomes: &Vec<JobOutcome>,
)
    requires
        old(index).wf(),
        jobs@.len() == outcomes@.len(),
    ensures
        final(index).wf(),
        final(index)@ == drain_spec(old(index)@, request_views(jobs@), outcomes@),
{
    let ghost jv = request_views(jobs@);
    let ghost pre = index@;
    let mut i: usize = 0;
    while i < jobs.len()
        invariant
            0 <= i <= jobs@.len(),
            jobs@.len() == outcomes@.len(),
            jv == request_views(jobs@),
            jv.len() == jobs@.len(),
            index.wf(),
            index@ == drain_spec(pre, jv.take(i as int), outcomes@.take(i as int)),
        decreases jobs@.len() - i,
    {
        proof {
            assert(jv[i as int] == jobs@[i as int]@);
        }
        let ghost state_pre = index@;
        apply_job(index, &jobs[i], &outcomes[i]);
        proof {
            let t = jv.take(i as int + 1);
            let u = outcomes@.take(i as int + 1);
            assert(t =~= jv.take(i as int) + seq![jv[i as int]]);
            assert(u =~= outcomes@.take(i as int) + seq![outcomes@[i as int]]);
            lemma_drain_append(
                pre,
                jv.take(i as int),
                outcomes@.take(i as int),
                seq![jv[i as int]],
                seq![outcomes@[i as int]],
            );
            assert(seq![jv[i as int]].skip(1) =~= Seq::<RequestV>::empty());
            assert(seq![outcomes@[i as int]].skip(1) =~= Seq::<JobOutcome>::empty());
            assert(seq![jv[i as int]][0] == jv[i as int]);
            assert(seq![outcomes@[i as int]][0] == outcomes@[i as int]);
            assert(drain_spec(
                job_step_spec(state_pre, jv[i as int], outcomes@[i as int]),
                Seq::<RequestV>::empty(),
                Seq::<JobOutcome>::empty(),
            ) == job_step_spec(state_pre, jv[i as int], outcomes@[i as int]));
            assert(drain_spec(state_pre, seq![jv[i as int]], seq![outcomes@[i as int]])
                == job_step_spec(state_pre, jv[i as int], outcomes@[i as int]));
        }
        i = i + 1;
    }
    proof {
        assert(jv.take(jv.len() as int) =~= jv);
        assert(outcomes@.take(outcomes@.len() as int) =~= outcomes@);
    }
}

} // verus!
