use vstd::prelude::*;

use crate::run::{later, JobRunDAO, RunView, Timestamp, views};
use crate::text::push_text;

verus! {

/// Why an operation on the store did not take place.
#[derive(Clone, Copy, Debug, PartialEq, Eq, Structural)]
pub enum DbError {
    /// The store cannot accept the write: its identity space is used up.
    StorageUnavailable,
    /// No run has the given identity.
    NotFound,
}

/// The largest identity the store hands out is one below this bound.
pub const ID_LIMIT: i32 = 2147483647;

/// The table of job runs: rows ordered by identity, and the next identity to hand out.
pub struct DbConn {
    runs: Vec<JobRunDAO>,
    next_id: i32,
}

/// The mathematical value of the store.
pub ghost struct StoreView {
    pub runs: Seq<RunView>,
    pub next_id: int,
}

impl View for DbConn {
    type V = StoreView;

    closed spec fn view(&self) -> StoreView {
        StoreView { runs: views(self.runs@), next_id: self.next_id as int }
    }
}

/// Whether the run `id` is taken by a listing: it is in `ids` when a set is
/// given, and lies strictly beyond `cursor` in the direction of travel.
pub open spec fn selected(id: i32, ids: Option<Seq<i32>>, cursor: Option<i32>, backwards: bool) -> bool {
    &&& (ids matches Some(s) ==> s.contains(id))
    &&& (cursor matches Some(c) ==> if backwards { id < c } else { id > c })
}

/// The identities a listing is restricted to, if any.
pub open spec fn id_seq(ids: Option<Vec<i32>>) -> Option<Seq<i32>> {
    match ids {
        Some(v) => Some(v@),
        None => None,
    }
}

/// The rows of `rows` (ascending by identity) that a listing returns: of
/// those selected, the first `limit` going forward, or the last `limit`
/// going backwards (the page just before the cursor), in ascending order.
pub open spec fn page(
    rows: Seq<RunView>,
    ids: Option<Seq<i32>>,
    limit: Option<usize>,
    cursor: Option<i32>,
    backwards: bool,
) -> Seq<RunView> {
    let m = rows.filter(|r: RunView| selected(r.id, ids, cursor, backwards));
    match limit {
        None => m,
        Some(n) => if n >= m.len() {
            m
        } else if backwards {
            m.subrange(m.len() - n, m.len() as int)
        } else {
            m.subrange(0, n as int)
        },
    }
}

/// An operation on the store, with the time at which it runs.
pub ghost enum Op {
    Create { name: Seq<char>, now: Timestamp },
    AppendStdout { id: i32, fragment: Seq<char>, now: Timestamp },
    AppendStderr { id: i32, fragment: Seq<char>, now: Timestamp },
    Finish { id: i32, code: i32, now: Timestamp },
    Cleanup,
}

impl StoreView {
    /// Identities strictly ascend, lie in `1 .. next_id`, and each run is well formed.
    pub open spec fn well_formed(self) -> bool {
        &&& 1 <= self.next_id <= ID_LIMIT
        &&& forall|i: int, j: int|
            0 <= i < j < self.runs.len() ==> self.runs[i].id < self.runs[j].id
        &&& forall|i: int|
            0 <= i < self.runs.len() ==> 1 <= self.runs[i].id < self.next_id
                && self.runs[i].well_formed()
    }

    pub open spec fn contains_id(self, id: i32) -> bool {
        exists|i: int| 0 <= i < self.runs.len() && self.runs[i].id == id
    }

    /// The store after a run named `name` is created at `now`; unchanged when
    /// the identity space is used up.
    pub open spec fn with_created(self, name: Seq<char>, now: Timestamp) -> StoreView {
        if self.next_id >= ID_LIMIT {
            self
        } else {
            StoreView {
                runs: self.runs.push(RunView::fresh(self.next_id as i32, name, now)),
                next_id: self.next_id + 1,
            }
        }
    }

    /// The store with the run `id` replaced by `f` of it.
    pub open spec fn with_run(self, id: i32, f: spec_fn(RunView) -> RunView) -> StoreView {
        StoreView {
            runs: self.runs.map_values(|r: RunView| if r.id == id { f(r) } else { r }),
            next_id: self.next_id,
        }
    }

    /// The store after every run without an exit code is removed.
    pub open spec fn without_stale(self) -> StoreView {
        StoreView { runs: self.runs.filter(|r: RunView| r.exit_code.is_some()), next_id: self.next_id }
    }

    /// The store after `op`.
    pub open spec fn apply(self, op: Op) -> StoreView {
        match op {
            Op::Create { name, now } => self.with_created(name, now),
            Op::AppendStdout { id, fragment, now } =>
                self.with_run(id, |r: RunView| r.with_stdout(fragment, now)),
            Op::AppendStderr { id, fragment, now } =>
                self.with_run(id, |r: RunView| r.with_stderr(fragment, now)),
            Op::Finish { id, code, now } => self.with_run(id, |r: RunView| r.with_exit(code, now)),
            Op::Cleanup => self.without_stale(),
        }
    }
}

/// Whether `id` is one of `ids`.
fn contains_id(ids: &Vec<i32>, id: i32) -> (r: bool)
    ensures
        r == ids@.contains(id),
{
    let mut i: usize = 0;
    while i < ids.len()
        invariant
            i <= ids.len(),
            forall|k: int| 0 <= k < i ==> ids@[k] != id,
        decreases ids.len() - i,
    {
        if ids[i] == id {
            return true;
        }
        i = i + 1;
    }
    false
}

/// Copies of the runs at indices `lo .. hi` of `v`.
fn copy_range(v: &Vec<JobRunDAO>, lo: usize, hi: usize) -> (r: Vec<JobRunDAO>)
    requires
        lo <= hi <= v.len(),
    ensures
        views(r@) == views(v@).subrange(lo as int, hi as int),
{
    let mut r: Vec<JobRunDAO> = Vec::new();
    let mut i: usize = lo;
    while i < hi
        invariant
            lo <= i <= hi <= v.len(),
            views(r@) =~= views(v@).subrange(lo as int, i as int),
        decreases hi - i,
    {
        let run = v[i].duplicate();
        let ghost prev = r@;
        r.push(run);
        proof {
            assert(views(r@) =~= views(r@.drop_last()).push(run@));
            assert(r@.drop_last() =~= prev);
        }
        i = i + 1;
    }
    r
}

impl DbConn {
    /// An empty store.
    pub fn new() -> (r: DbConn)
        ensures
            r@.runs.len() == 0,
            r@.next_id == 1,
            r@.well_formed(),
    {
        DbConn { runs: Vec::new(), next_id: 1 }
    }

    /// The index of the run `id`, if there is one.
    fn find(&self, id: i32) -> (r: Option<usize>)
        requires
            self@.well_formed(),
        ensures
            r matches Some(i) ==> i < self.runs.len() && self.runs@[i as int].id == id,
            r is None <==> !self@.contains_id(id),
    {
        let mut i: usize = 0;
        while i < self.runs.len()
            invariant
                i <= self.runs.len(),
                forall|k: int| 0 <= k < i ==> self.runs@[k].id != id,
            decreases self.runs.len() - i,
        {
            if self.runs[i].id == id {
                proof {
                    assert(self@.runs[i as int] == self.runs@[i as int]@);
                }
                return Some(i);
            }
            i = i + 1;
        }
        proof {
            assert forall|k: int| 0 <= k < self@.runs.len() implies self@.runs[k].id != id by {
                assert(self@.runs[k] == self.runs@[k]@);
            }
        }
        None
    }

    /// Puts `run` in the place of the run at index `i`, whose new value is `f` of the old.
    fn replace_run(&mut self, i: usize, run: JobRunDAO, f: Ghost<spec_fn(RunView) -> RunView>)
        requires
            old(self)@.well_formed(),
            i < old(self).runs.len(),
            run@ == f@(old(self).runs@[i as int]@),
            run@.id == old(self).runs@[i as int].id,
            run@.well_formed(),
            run@.id < old(self).next_id,
        ensures
            final(self)@ == old(self)@.with_run(old(self).runs@[i as int].id, f@),
            final(self)@.well_formed(),
    {
        let ghost before = self@;
        let ghost id = self.runs@[i as int].id;
        self.runs.set(i, run);
        proof {
            let expect = before.with_run(id, f@);
            assert forall|k: int| 0 <= k < self@.runs.len() implies self@.runs[k] == expect.runs[k] by {
                if k != i {
                    assert(self@.runs[k] == before.runs[k]);
                    if k < i {
                        assert(before.runs[k].id < before.runs[i as int].id);
                    } else {
                        assert(before.runs[i as int].id < before.runs[k].id);
                    }
                }
            }
            assert(self@.runs =~= expect.runs);
        }
    }

    /// Appends `fragment` to the standard output of the run `job_id`, and
    /// moves its update time to `now` unless it is already later.
    pub fn update_job_stdout(&mut self, job_id: i32, stdout: String, now: Timestamp) -> (r: Result<(), DbError>)
        requires
            old(self)@.well_formed(),
        ensures
            final(self)@.well_formed(),
            final(self)@ == old(self)@.apply(Op::AppendStdout { id: job_id, fragment: stdout@, now }),
            r is Ok <==> old(self)@.contains_id(job_id),
            r matches Err(e) ==> e == DbError::NotFound,
    {
        match self.find(job_id) {
            None => {
                proof { self.lemma_absent_unchanged(job_id, |r: RunView| r.with_stdout(stdout@, now)); }
                Err(DbError::NotFound)
            },
            Some(i) => {
                proof { assert(self@.runs[i as int] == self.runs@[i as int]@); }
                let mut run = self.runs[i].duplicate();
                push_text(&mut run.stdout, stdout.as_str());
                run.updated_at = later(run.updated_at, now);
                self.replace_run(i, run, Ghost(|r: RunView| r.with_stdout(stdout@, now)));
                Ok(())
            },
        }
    }

    /// Appends `fragment` to the error output of the run `job_id`, and
    /// moves its update time to `now` unless it is already later.
    pub fn update_job_stderr(&mut self, job_id: i32, stderr: String, now: Timestamp) -> (r: Result<(), DbError>)
        requires
            old(self)@.well_formed(),
        ensures
            final(self)@.well_formed(),
            final(self)@ == old(self)@.apply(Op::AppendStderr { id: job_id, fragment: stderr@, now }),
            r is Ok <==> old(self)@.contains_id(job_id),
            r matches Err(e) ==> e == DbError::NotFound,
    {
        match self.find(job_id) {
            None => {
                proof { self.lemma_absent_unchanged(job_id, |r: RunView| r.with_stderr(stderr@, now)); }
                Err(DbError::NotFound)
            },
            Some(i) => {
                proof { assert(self@.runs[i as int] == self.runs@[i as int]@); }
                let mut run = self.runs[i].duplicate();
                push_text(&mut run.stderr, stderr.as_str());
                run.updated_at = later(run.updated_at, now);
                self.replace_run(i, run, Ghost(|r: RunView| r.with_stderr(stderr@, now)));
                Ok(())
            },
        }
    }

    /// Records that the run `job_id` finished with `exit_code`: sets the exit
    /// code, and the finish and update times to `now` unless the update time
    /// is already later. A second call overwrites the first.
    pub fn update_job_status(&mut self, job_id: i32, exit_code: i32, now: Timestamp) -> (r: Result<(), DbError>)
        requires
            old(self)@.well_formed(),
        ensures
            final(self)@.well_formed(),
            final(self)@ == old(self)@.apply(Op::Finish { id: job_id, code: exit_code, now }),
            r is Ok <==> old(self)@.contains_id(job_id),
            r matches Err(e) ==> e == DbError::NotFound,
    {
        match self.find(job_id) {
            None => {
                proof { self.lemma_absent_unchanged(job_id, |r: RunView| r.with_exit(exit_code, now)); }
                Err(DbError::NotFound)
            },
            Some(i) => {
                proof { assert(self@.runs[i as int] == self.runs@[i as int]@); }
                let mut run = self.runs[i].duplicate();
                let t = later(run.updated_at, now);
                run.exit_code = Some(exit_code);
                run.finished_at = Some(t);
                run.updated_at = t;
                self.replace_run(i, run, Ghost(|r: RunView| r.with_exit(exit_code, now)));
                Ok(())
            },
        }
    }

    proof fn lemma_absent_unchanged(&self, id: i32, f: spec_fn(RunView) -> RunView)
        requires
            !self@.contains_id(id),
        ensures
            self@.with_run(id, f) == self@,
    {
        assert(self@.with_run(id, f).runs =~= self@.runs);
    }

    /// Removes every run that has no exit code, and returns how many were removed.
    pub fn cleanup_stale_job_runs(&mut self) -> (r: usize)
        requires
            old(self)@.well_formed(),
        ensures
            final(self)@.well_formed(),
            final(self)@ == old(self)@.apply(Op::Cleanup),
            r == old(self)@.runs.len() - final(self)@.runs.len(),
    {
        let ghost pred = |r: RunView| r.exit_code.is_some();
        let ghost all = self@.runs;
        assert(all.subrange(0, 0).filter(pred) =~= Seq::empty()) by { reveal(Seq::filter); }
        let mut kept: Vec<JobRunDAO> = Vec::new();
        let mut i: usize = 0;
        while i < self.runs.len()
            invariant
                self@.well_formed(),
                self@.runs == all,
                pred == (|r: RunView| r.exit_code.is_some()),
                i <= self.runs.len(),
                views(kept@) =~= all.subrange(0, i as int).filter(pred),
                kept.len() <= i,
                forall|a: int, b: int| 0 <= a < b < kept.len() ==> kept@[a].id < kept@[b].id,
                forall|a: int, j: int|
                    0 <= a < kept.len() && i <= j < all.len() ==> kept@[a].id < all[j].id,
                forall|a: int|
                    0 <= a < kept.len() ==> 1 <= kept@[a].id < self.next_id && kept@[a]@.well_formed(),
            decreases self.runs.len() - i,
        {
            proof {
                reveal(Seq::filter);
                assert(all[i as int] == self.runs@[i as int]@);
                assert(all.subrange(0, i + 1).drop_last() =~= all.subrange(0, i as int));
                assert(all.subrange(0, i + 1).last() == all[i as int]);
            }
            if self.runs[i].exit_code.is_some() {
                let run = self.runs[i].duplicate();
                let ghost prev = kept@;
                kept.push(run);
                proof {
                    assert(views(kept@) =~= views(kept@.drop_last()).push(run@));
                    assert(kept@.drop_last() =~= prev);
                }
            }
            i = i + 1;
        }
        proof {
            assert(all.subrange(0, i as int) =~= all);
            all.lemma_filter_len(pred);
        }
        let removed = self.runs.len() - kept.len();
        self.runs = kept;
        removed
    }

    /// Lists runs by keyset pagination. Of the runs whose identity is in `ids`
    /// (all runs when `ids` is `None`; none when it is empty) and lies strictly
    /// after `skip_id` (strictly before it when `backwards`), returns the
    /// first `limit` (the last `limit` when `backwards`), in ascending order
    /// of identity; without a limit, all of them.
    pub fn list_job_runs_with_filter(
        &self,
        ids: Option<Vec<i32>>,
        limit: Option<usize>,
        skip_id: Option<i32>,
        backwards: bool,
    ) -> (r: Vec<JobRunDAO>)
        requires
            self@.well_formed(),
        ensures
            views(r@) == page(self@.runs, id_seq(ids), limit, skip_id, backwards),
    {
        let ghost sids = id_seq(ids);
        let ghost pred = |r: RunView| selected(r.id, sids, skip_id, backwards);
        let ghost all = self@.runs;
        assert(all.subrange(0, 0).filter(pred) =~= Seq::empty()) by { reveal(Seq::filter); }
        let mut matched: Vec<JobRunDAO> = Vec::new();
        let mut i: usize = 0;
        while i < self.runs.len()
            invariant
                self@.runs == all,
                i <= self.runs.len(),
                views(matched@) =~= all.subrange(0, i as int).filter(pred),
                sids == id_seq(ids),
                pred == (|r: RunView| selected(r.id, sids, skip_id, backwards)),
            decreases self.runs.len() - i,
        {
            proof {
                reveal(Seq::filter);
                assert(all[i as int] == self.runs@[i as int]@);
                assert(all.subrange(0, i + 1).drop_last() =~= all.subrange(0, i as int));
                assert(all.subrange(0, i + 1).last() == all[i as int]);
            }
            let id = self.runs[i].id;
            let in_set = match &ids {
                None => true,
                Some(v) => contains_id(v, id),
            };
            let beyond = match skip_id {
                None => true,
                Some(c) => if backwards { id < c } else { id > c },
            };
            if in_set && beyond {
                let run = self.runs[i].duplicate();
                let ghost prev = matched@;
                matched.push(run);
                proof {
                    assert(views(matched@) =~= views(matched@.drop_last()).push(run@));
                    assert(matched@.drop_last() =~= prev);
                }
            }
            i = i + 1;
        }
        proof {
            assert(all.subrange(0, i as int) =~= all);
        }
        let n = matched.len();
        match limit {
            None => matched,
            Some(k) => {
                if k >= n {
                    matched
                } else if backwards {
                    copy_range(&matched, n - k, n)
                } else {
                    copy_range(&matched, 0, k)
                }
            },
        }
    }

    /// Creates a run named `job` at `now`, with no output and no exit code,
    /// and returns its identity: one that no run of the store has had before.
    pub fn create_job_run(&mut self, job: String, now: Timestamp) -> (r: Result<i32, DbError>)
        requires
            old(self)@.well_formed(),
        ensures
            final(self)@.well_formed(),
            final(self)@ == old(self)@.with_created(job@, now),
            old(self)@.next_id < ID_LIMIT <==> r is Ok,
            r matches Ok(id) ==> id == old(self)@.next_id && !old(self)@.contains_id(id),
            r matches Err(e) ==> e == DbError::StorageUnavailable,
    {
        if self.next_id >= ID_LIMIT {
            return Err(DbError::StorageUnavailable);
        }
        let id = self.next_id;
        let ghost before = self@;
        let run = JobRunDAO {
            id,
            name: job,
            exit_code: None,
            stdout: String::new(),
            stderr: String::new(),
            created_at: now,
            updated_at: now,
            finished_at: None,
        };
        self.runs.push(run);
        self.next_id = id + 1;
        proof {
            assert(self@.runs =~= before.runs.push(RunView::fresh(id, job@, now)));
        }
        Ok(id)
    }
}

} // verus!
