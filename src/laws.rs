use vstd::prelude::*;

use crate::run::{RunView, Timestamp};
use crate::store::{page, selected, Op, StoreView, ID_LIMIT};

verus! {

/// The store after each of `ops` in turn.
pub open spec fn apply_all(s: StoreView, ops: Seq<Op>) -> StoreView
    decreases ops.len(),
{
    if ops.len() == 0 {
        s
    } else {
        apply_all(s.apply(ops[0]), ops.drop_first())
    }
}

/// The fragments that `ops` append to standard output, joined in order.
pub open spec fn stdout_text(ops: Seq<Op>) -> Seq<char>
    decreases ops.len(),
{
    if ops.len() == 0 {
        Seq::empty()
    } else {
        let head = match ops[0] {
            Op::AppendStdout { fragment, .. } => fragment,
            _ => Seq::empty(),
        };
        head + stdout_text(ops.drop_first())
    }
}

/// The fragments that `ops` append to error output, joined in order.
pub open spec fn stderr_text(ops: Seq<Op>) -> Seq<char>
    decreases ops.len(),
{
    if ops.len() == 0 {
        Seq::empty()
    } else {
        let head = match ops[0] {
            Op::AppendStderr { fragment, .. } => fragment,
            _ => Seq::empty(),
        };
        head + stderr_text(ops.drop_first())
    }
}

/// Whether `op` appends to either output of the run `id`.
pub open spec fn appends_to(op: Op, id: i32) -> bool {
    match op {
        Op::AppendStdout { id: j, .. } => j == id,
        Op::AppendStderr { id: j, .. } => j == id,
        _ => false,
    }
}

/// Whether `op` finishes the run `id`.
pub open spec fn finishes(op: Op, id: i32) -> bool {
    op matches Op::Finish { id: j, .. } && j == id
}

/// The identities that the successful creations among `ops` hand out, in order.
pub open spec fn created_ids(s: StoreView, ops: Seq<Op>) -> Seq<int>
    decreases ops.len(),
{
    if ops.len() == 0 {
        Seq::empty()
    } else {
        let head = if ops[0] is Create && s.next_id < ID_LIMIT {
            seq![s.next_id]
        } else {
            Seq::empty()
        };
        head + created_ids(s.apply(ops[0]), ops.drop_first())
    }
}

/// Appends to one run, in whatever order they are serialized, leave each
/// output of that run equal to its old text followed by every fragment sent
/// to it, each once and whole, in that order; the exit status and every
/// other run stay as they were.
pub proof fn lemma_appends_concatenate(s: StoreView, id: i32, ops: Seq<Op>)
    requires
        forall|i: int| 0 <= i < ops.len() ==> appends_to(#[trigger] ops[i], id),
    ensures
        apply_all(s, ops).runs.len() == s.runs.len(),
        apply_all(s, ops).next_id == s.next_id,
        forall|k: int| 0 <= k < s.runs.len() && s.runs[k].id == id ==> {
            let r = #[trigger] apply_all(s, ops).runs[k];
            &&& r.stdout == s.runs[k].stdout + stdout_text(ops)
            &&& r.stderr == s.runs[k].stderr + stderr_text(ops)
            &&& r.id == id
            &&& r.exit_code == s.runs[k].exit_code
            &&& r.finished_at == s.runs[k].finished_at
        },
        forall|k: int| 0 <= k < s.runs.len() && s.runs[k].id != id
            ==> #[trigger] apply_all(s, ops).runs[k] == s.runs[k],
    decreases ops.len(),
{
    if ops.len() > 0 {
        let s1 = s.apply(ops[0]);
        let rest = ops.drop_first();
        assert(appends_to(ops[0], id));
        assert forall|i: int| 0 <= i < rest.len() implies appends_to(#[trigger] rest[i], id) by {
            assert(rest[i] == ops[i + 1]);
        }
        lemma_appends_concatenate(s1, id, rest);
        assert forall|k: int| 0 <= k < s.runs.len() && s.runs[k].id == id implies {
            let r = #[trigger] apply_all(s, ops).runs[k];
            &&& r.stdout == s.runs[k].stdout + stdout_text(ops)
            &&& r.stderr == s.runs[k].stderr + stderr_text(ops)
        } by {
            match ops[0] {
                Op::AppendStdout { fragment, .. } => {
                    assert(s1.runs[k].stdout == s.runs[k].stdout + fragment);
                    assert(s.runs[k].stdout + fragment + stdout_text(rest)
                        =~= s.runs[k].stdout + (fragment + stdout_text(rest)));
                    assert(Seq::<char>::empty() + stderr_text(rest) =~= stderr_text(rest));
                },
                Op::AppendStderr { fragment, .. } => {
                    assert(s1.runs[k].stderr == s.runs[k].stderr + fragment);
                    assert(s.runs[k].stderr + fragment + stderr_text(rest)
                        =~= s.runs[k].stderr + (fragment + stderr_text(rest)));
                    assert(Seq::<char>::empty() + stdout_text(rest) =~= stdout_text(rest));
                },
                _ => {},
            }
        }
    }
}

/// Whether the identities of `rows` strictly ascend.
pub open spec fn ascending(rows: Seq<RunView>) -> bool {
    forall|i: int, j: int| 0 <= i < j < rows.len() ==> rows[i].id < rows[j].id
}

proof fn lemma_filter_none(rows: Seq<RunView>, pred: spec_fn(RunView) -> bool)
    requires
        forall|i: int| 0 <= i < rows.len() ==> !pred(#[trigger] rows[i]),
    ensures
        rows.filter(pred) == Seq::<RunView>::empty(),
    decreases rows.len(),
{
    reveal(Seq::filter);
    if rows.len() > 0 {
        let r = rows.drop_last();
        assert forall|i: int| 0 <= i < r.len() implies !pred(#[trigger] r[i]) by {
            assert(r[i] == rows[i]);
        }
        lemma_filter_none(r, pred);
        assert(!pred(rows[rows.len() - 1]));
    }
}

proof fn lemma_split_rows(rows: Seq<RunView>, ids: Option<Seq<i32>>, c: i32)
    requires
        ascending(rows),
    ensures
        rows.filter(|r: RunView| selected(r.id, ids, Some(c), true))
            + rows.filter(|r: RunView| r.id == c && selected(r.id, ids, None, false))
            + rows.filter(|r: RunView| selected(r.id, ids, Some(c), false))
            == rows.filter(|r: RunView| selected(r.id, ids, None, false)),
    decreases rows.len(),
{
    let p1 = |r: RunView| selected(r.id, ids, Some(c), true);
    let p2 = |r: RunView| r.id == c && selected(r.id, ids, None, false);
    let p3 = |r: RunView| selected(r.id, ids, Some(c), false);
    let p = |r: RunView| selected(r.id, ids, None, false);
    reveal(Seq::filter);
    if rows.len() > 0 {
        let rest = rows.drop_last();
        let last = rows.last();
        assert forall|i: int, j: int| 0 <= i < j < rest.len() implies rest[i].id < rest[j].id by {
            assert(rest[i] == rows[i] && rest[j] == rows[j]);
        }
        lemma_split_rows(rest, ids, c);
        assert forall|i: int| 0 <= i < rest.len() implies #[trigger] rest[i].id < last.id by {
            assert(rest[i] == rows[i]);
        }
        if last.id <= c {
            assert forall|i: int| 0 <= i < rest.len() implies !p3(#[trigger] rest[i]) by {
                assert(rest[i].id < last.id);
            }
            lemma_filter_none(rest, p3);
            if last.id < c {
                assert forall|i: int| 0 <= i < rest.len() implies !p2(#[trigger] rest[i]) by {
                    assert(rest[i].id < last.id);
                }
                lemma_filter_none(rest, p2);
            }
        }
        assert(rows.filter(p1) + rows.filter(p2) + rows.filter(p3) =~= rows.filter(p));
    }
}

/// Paging backwards and paging forwards from the same cursor split one
/// listing: the runs before the cursor, then the run at the cursor when it
/// is selected, then the runs after it, make up the listing without a cursor,
/// in the same ascending order.
pub proof fn lemma_directions_split(s: StoreView, ids: Option<Seq<i32>>, c: i32)
    requires
        s.well_formed(),
    ensures
        page(s.runs, ids, None, Some(c), true)
            + s.runs.filter(|r: RunView| r.id == c && selected(r.id, ids, None, false))
            + page(s.runs, ids, None, Some(c), false)
            == page(s.runs, ids, None, None, false),
{
    lemma_split_rows(s.runs, ids, c);
}

proof fn lemma_filter_ascending(rows: Seq<RunView>, pred: spec_fn(RunView) -> bool)
    requires
        ascending(rows),
    ensures
        ascending(rows.filter(pred)),
    decreases rows.len(),
{
    reveal(Seq::filter);
    if rows.len() > 0 {
        let rest = rows.drop_last();
        assert forall|i: int, j: int| 0 <= i < j < rest.len() implies rest[i].id < rest[j].id by {
            assert(rest[i] == rows[i] && rest[j] == rows[j]);
        }
        lemma_filter_ascending(rest, pred);
        let sub = rest.filter(pred);
        if pred(rows.last()) {
            assert forall|i: int| 0 <= i < sub.len() implies #[trigger] sub[i].id < rows.last().id by {
                lemma_filter_from(rest, pred, i);
                let j = choose|j: int| 0 <= j < rest.len() && rest[j] == sub[i];
                assert(rows[j] == sub[i]);
            }
            let f = rows.filter(pred);
            assert forall|i: int, j: int| 0 <= i < j < f.len() implies f[i].id < f[j].id by {
                if j == f.len() - 1 {
                    assert(f[i] == sub[i]);
                } else {
                    assert(f[i] == sub[i] && f[j] == sub[j]);
                }
            }
        }
    }
}

proof fn lemma_filter_beyond(rows: Seq<RunView>, ids: Option<Seq<i32>>, c: i32)
    ensures
        rows.filter(|r: RunView| selected(r.id, ids, Some(c), false))
            == rows.filter(|r: RunView| selected(r.id, ids, None, false)).filter(|r: RunView| r.id > c),
    decreases rows.len(),
{
    let p = |r: RunView| selected(r.id, ids, None, false);
    let g = |r: RunView| r.id > c;
    reveal(Seq::filter);
    if rows.len() > 0 {
        lemma_filter_beyond(rows.drop_last(), ids, c);
        let m = rows.filter(p);
        if p(rows.last()) {
            assert(m.drop_last() =~= rows.drop_last().filter(p));
        } else {
            assert(m == rows.drop_last().filter(p));
        }
    }
}

proof fn lemma_after_index(m: Seq<RunView>, n: int)
    requires
        ascending(m),
        0 < n <= m.len(),
    ensures
        m.filter(|r: RunView| r.id > m[n - 1].id) == m.subrange(n, m.len() as int),
    decreases m.len(),
{
    let g = |r: RunView| r.id > m[n - 1].id;
    reveal(Seq::filter);
    if m.len() == n {
        assert forall|i: int| 0 <= i < m.len() implies !g(#[trigger] m[i]) by {
            if i < n - 1 {
                assert(m[i].id < m[n - 1].id);
            }
        }
        lemma_filter_none(m, g);
        assert(m.subrange(n, m.len() as int) =~= Seq::<RunView>::empty());
    } else {
        let rest = m.drop_last();
        assert forall|i: int, j: int| 0 <= i < j < rest.len() implies rest[i].id < rest[j].id by {
            assert(rest[i] == m[i] && rest[j] == m[j]);
        }
        assert(rest[n - 1] == m[n - 1]);
        lemma_after_index(rest, n);
        assert(rest.filter(g) == rest.subrange(n, rest.len() as int));
        assert(m[n - 1].id < m.last().id);
        assert(m.subrange(n, m.len() as int) =~= rest.subrange(n, rest.len() as int).push(m.last()));
    }
}

/// Paging forward continues where a page stopped: a first page of at most
/// `n` runs, followed by everything strictly after its last run, is the
/// whole listing, with nothing lost or repeated.
pub proof fn lemma_forward_continues(s: StoreView, ids: Option<Seq<i32>>, n: usize)
    requires
        s.well_formed(),
        n > 0,
        page(s.runs, ids, None, None, false).len() > 0,
    ensures
        ({
            let first = page(s.runs, ids, Some(n), None, false);
            first + page(s.runs, ids, None, Some(first.last().id), false)
                == page(s.runs, ids, None, None, false)
        }),
{
    let p = |r: RunView| selected(r.id, ids, None, false);
    let m = s.runs.filter(p);
    assert(m == page(s.runs, ids, None, None, false));
    lemma_filter_ascending(s.runs, p);
    let k: int = if n >= m.len() { m.len() as int } else { n as int };
    let first = page(s.runs, ids, Some(n), None, false);
    assert(first =~= m.subrange(0, k));
    assert(first.last() == m[k - 1]);
    lemma_filter_beyond(s.runs, ids, m[k - 1].id);
    lemma_after_index(m, k);
    assert(first + m.subrange(k, m.len() as int) =~= m);
}

/// The state that the law on finishing carries along: the run `id` is not
/// finished, and every identity still to be handed out is above it.
pub open spec fn unfinished(s: StoreView, id: i32) -> bool {
    &&& id < s.next_id
    &&& forall|k: int| 0 <= k < s.runs.len() && #[trigger] s.runs[k].id == id
        ==> s.runs[k].exit_code is None && s.runs[k].finished_at is None
}

/// Each element that a filter keeps is an element of the sequence filtered.
proof fn lemma_filter_from(rows: Seq<RunView>, pred: spec_fn(RunView) -> bool, k: int)
    requires
        0 <= k < rows.filter(pred).len(),
    ensures
        rows.contains(rows.filter(pred)[k]),
    decreases rows.len(),
{
    reveal(Seq::filter);
    if rows.len() > 0 {
        let sub = rows.drop_last().filter(pred);
        if k < sub.len() {
            lemma_filter_from(rows.drop_last(), pred, k);
            let j = choose|j: int| 0 <= j < rows.drop_last().len() && rows.drop_last()[j] == sub[k];
            assert(rows[j] == sub[k]);
        } else {
            assert(rows[rows.len() - 1] == rows.filter(pred)[k]);
        }
    }
}

proof fn lemma_unfinished_step(s: StoreView, id: i32, op: Op)
    requires
        unfinished(s, id),
        !finishes(op, id),
    ensures
        unfinished(s.apply(op), id),
{
    let t = s.apply(op);
    match op {
        Op::Cleanup => {
            let pred = |r: RunView| r.exit_code.is_some();
            assert forall|k: int| 0 <= k < t.runs.len() && #[trigger] t.runs[k].id == id implies
                t.runs[k].exit_code is None && t.runs[k].finished_at is None by {
                lemma_filter_from(s.runs, pred, k);
            }
        },
        Op::Create { name, now } => {
            if s.next_id < ID_LIMIT {
                assert forall|k: int| 0 <= k < t.runs.len() && #[trigger] t.runs[k].id == id implies
                    t.runs[k].exit_code is None && t.runs[k].finished_at is None by {
                    if k < s.runs.len() {
                        assert(t.runs[k] == s.runs[k]);
                    }
                }
            }
        },
        _ => {},
    }
}

/// A run created by the store has neither an exit code nor a finish time
/// until the store is told that it finished; once it is told, the run has
/// the exit code given and a finish time.
pub proof fn lemma_finish_exclusive(s: StoreView, name: Seq<char>, now: Timestamp, ops: Seq<Op>, code: i32, at: Timestamp)
    requires
        s.well_formed(),
        s.next_id < ID_LIMIT,
        forall|i: int| 0 <= i < ops.len() ==> !finishes(#[trigger] ops[i], s.next_id as i32),
    ensures
        ({
            let id = s.next_id as i32;
            let t = apply_all(s.with_created(name, now), ops);
            let f = t.apply(Op::Finish { id, code, now: at });
            &&& forall|k: int| 0 <= k < t.runs.len() && #[trigger] t.runs[k].id == id
                ==> t.runs[k].exit_code is None && t.runs[k].finished_at is None
            &&& forall|k: int| 0 <= k < f.runs.len() && #[trigger] f.runs[k].id == id
                ==> f.runs[k].exit_code == Some(code) && f.runs[k].finished_at is Some
        }),
{
    let id = s.next_id as i32;
    let s1 = s.with_created(name, now);
    assert forall|k: int| 0 <= k < s1.runs.len() && #[trigger] s1.runs[k].id == id implies
        s1.runs[k].exit_code is None && s1.runs[k].finished_at is None by {
        if k < s.runs.len() {
            assert(s1.runs[k] == s.runs[k]);
        }
    }
    lemma_unfinished_all(s1, id, ops);
}

proof fn lemma_unfinished_all(s: StoreView, id: i32, ops: Seq<Op>)
    requires
        unfinished(s, id),
        forall|i: int| 0 <= i < ops.len() ==> !finishes(#[trigger] ops[i], id),
    ensures
        unfinished(apply_all(s, ops), id),
    decreases ops.len(),
{
    if ops.len() > 0 {
        assert(!finishes(ops[0], id));
        lemma_unfinished_step(s, id, ops[0]);
        let rest = ops.drop_first();
        assert forall|i: int| 0 <= i < rest.len() implies !finishes(#[trigger] rest[i], id) by {
            assert(rest[i] == ops[i + 1]);
        }
        lemma_unfinished_all(s.apply(ops[0]), id, rest);
    }
}

/// However creations interleave with other operations, the identities they
/// hand out strictly ascend, so no two are equal, and none is the identity
/// of a run already in the store.
pub proof fn lemma_created_ids_distinct(s: StoreView, ops: Seq<Op>)
    requires
        s.well_formed(),
    ensures
        forall|i: int, j: int|
            0 <= i < j < created_ids(s, ops).len()
                ==> created_ids(s, ops)[i] < created_ids(s, ops)[j],
        forall|i: int, k: int|
            0 <= i < created_ids(s, ops).len() && 0 <= k < s.runs.len()
                ==> created_ids(s, ops)[i] != s.runs[k].id,
{
    lemma_created_ids_above(s, ops);
}

proof fn lemma_created_ids_above(s: StoreView, ops: Seq<Op>)
    ensures
        forall|i: int| 0 <= i < created_ids(s, ops).len() ==> created_ids(s, ops)[i] >= s.next_id,
        forall|i: int, j: int|
            0 <= i < j < created_ids(s, ops).len()
                ==> created_ids(s, ops)[i] < created_ids(s, ops)[j],
    decreases ops.len(),
{
    if ops.len() > 0 {
        let s1 = s.apply(ops[0]);
        let rest = ops.drop_first();
        lemma_created_ids_above(s1, rest);
        assert(s1.next_id >= s.next_id);
        let head = if ops[0] is Create && s.next_id < ID_LIMIT {
            seq![s.next_id]
        } else {
            Seq::empty()
        };
        if head.len() == 1 {
            assert(s1.next_id == s.next_id + 1);
        }
        let all = created_ids(s, ops);
        assert(all == head + created_ids(s1, rest));
    }
}

} // verus!
