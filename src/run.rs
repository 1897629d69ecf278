use vstd::prelude::*;

verus! {

/// A point in time, as whole seconds since the Unix epoch (UTC).
#[derive(Clone, Copy, Debug, PartialEq, Eq, Structural)]
pub struct Timestamp {
    pub secs: i64,
}

/// The later of two timestamps.
pub open spec fn later_of(a: Timestamp, b: Timestamp) -> Timestamp {
    if a.secs >= b.secs { a } else { b }
}

/// The later of two timestamps.
pub fn later(a: Timestamp, b: Timestamp) -> (r: Timestamp)
    ensures
        r == later_of(a, b),
{
    if a.secs >= b.secs { a } else { b }
}

/// One execution of a background job, as a row of the job-runs table.
#[derive(Clone, Debug)]
pub struct JobRunDAO {
    pub id: i32,
    pub name: String,
    pub exit_code: Option<i32>,
    pub stdout: String,
    pub stderr: String,
    pub created_at: Timestamp,
    pub updated_at: Timestamp,
    pub finished_at: Option<Timestamp>,
}

/// The mathematical value of a job run: its fields, with text as character sequences.
pub ghost struct RunView {
    pub id: i32,
    pub name: Seq<char>,
    pub exit_code: Option<i32>,
    pub stdout: Seq<char>,
    pub stderr: Seq<char>,
    pub created_at: Timestamp,
    pub updated_at: Timestamp,
    pub finished_at: Option<Timestamp>,
}

impl View for JobRunDAO {
    type V = RunView;

    open spec fn view(&self) -> RunView {
        RunView {
            id: self.id,
            name: self.name@,
            exit_code: self.exit_code,
            stdout: self.stdout@,
            stderr: self.stderr@,
            created_at: self.created_at,
            updated_at: self.updated_at,
            finished_at: self.finished_at,
        }
    }
}

impl RunView {
    /// A run's own invariant: finish time and exit code come together, and
    /// the update time is never before the creation time or the finish time.
    pub open spec fn well_formed(self) -> bool {
        &&& self.finished_at.is_some() == self.exit_code.is_some()
        &&& self.created_at.secs <= self.updated_at.secs
        &&& (self.finished_at matches Some(t) ==> t.secs <= self.updated_at.secs)
    }

    /// A run just created: no exit code, no output.
    pub open spec fn fresh(id: i32, name: Seq<char>, now: Timestamp) -> RunView {
        RunView {
            id,
            name,
            exit_code: None,
            stdout: Seq::empty(),
            stderr: Seq::empty(),
            created_at: now,
            updated_at: now,
            finished_at: None,
        }
    }

    /// The run after `fragment` is appended to its standard output at `now`.
    pub open spec fn with_stdout(self, fragment: Seq<char>, now: Timestamp) -> RunView {
        RunView { stdout: self.stdout + fragment, updated_at: later_of(self.updated_at, now), ..self }
    }

    /// The run after `fragment` is appended to its error output at `now`.
    pub open spec fn with_stderr(self, fragment: Seq<char>, now: Timestamp) -> RunView {
        RunView { stderr: self.stderr + fragment, updated_at: later_of(self.updated_at, now), ..self }
    }

    /// The run after it finished with `code` at `now`.
    pub open spec fn with_exit(self, code: i32, now: Timestamp) -> RunView {
        let t = later_of(self.updated_at, now);
        RunView { exit_code: Some(code), finished_at: Some(t), updated_at: t, ..self }
    }
}

/// The views of a sequence of runs.
pub open spec fn views(v: Seq<JobRunDAO>) -> Seq<RunView> {
    v.map_values(|r: JobRunDAO| r@)
}

impl JobRunDAO {
    /// A copy of the run, field for field.
    pub fn duplicate(&self) -> (r: JobRunDAO)
        ensures
            r@ == self@,
    {
        JobRunDAO {
            id: self.id,
            name: self.name.clone(),
            exit_code: self.exit_code,
            stdout: self.stdout.clone(),
            stderr: self.stderr.clone(),
            created_at: self.created_at,
            updated_at: self.updated_at,
            finished_at: self.finished_at,
        }
    }
}

} // verus!
