use vstd::prelude::*;

use crate::store::id_seq;
use crate::text::{decimal, push_decimal, push_digits, push_text};

verus! {

/// The identities, in decimal, separated by ", ".
pub open spec fn id_list(ids: Seq<i32>) -> Seq<char>
    decreases ids.len(),
{
    if ids.len() == 0 {
        Seq::empty()
    } else if ids.len() == 1 {
        decimal(ids[0] as int)
    } else {
        id_list(ids.drop_last()) + ", "@ + decimal(ids.last() as int)
    }
}

/// The condition that keeps the runs beyond `cursor` in the direction of travel.
pub open spec fn cursor_condition(cursor: Option<i32>, backwards: bool) -> Option<Seq<char>> {
    match cursor {
        None => None,
        Some(c) => Some((if backwards { "id < "@ } else { "id > "@ }) + decimal(c as int)),
    }
}

/// The condition that keeps the runs whose identity is one of `ids`.
pub open spec fn set_condition(ids: Option<Seq<i32>>) -> Option<Seq<char>> {
    match ids {
        None => None,
        Some(s) => Some("id IN ("@ + id_list(s) + ")"@),
    }
}

/// The `WHERE` clause that joins the conditions given with `AND`; empty when none is.
pub open spec fn where_clause(a: Option<Seq<char>>, b: Option<Seq<char>>) -> Seq<char> {
    match (a, b) {
        (None, None) => Seq::empty(),
        (Some(x), None) => " WHERE "@ + x,
        (None, Some(y)) => " WHERE "@ + y,
        (Some(x), Some(y)) => " WHERE "@ + x + " AND "@ + y,
    }
}

/// The SQL text of a listing: the inner query picks the page in the direction
/// of travel, the outer one puts it in ascending order of identity.
pub open spec fn list_query_text(
    ids: Option<Seq<i32>>,
    limit: Option<usize>,
    cursor: Option<i32>,
    backwards: bool,
) -> Seq<char> {
    "SELECT id, job, exit_code, stdout, stderr, created_at, updated_at, end_ts FROM (SELECT * FROM job_runs"@
        + where_clause(cursor_condition(cursor, backwards), set_condition(ids))
        + (if backwards { " ORDER BY id DESC"@ } else { " ORDER BY id ASC"@ })
        + (match limit {
            None => Seq::empty(),
            Some(n) => " LIMIT "@ + decimal(n as int),
        })
        + ") ORDER BY id ASC"@
}

/// Appends the identities, in decimal, separated by ", ".
fn push_id_list(s: &mut String, ids: &Vec<i32>)
    ensures
        final(s)@ == old(s)@ + id_list(ids@),
{
    let ghost start = s@;
    let mut i: usize = 0;
    while i < ids.len()
        invariant
            i <= ids.len(),
            s@ == start + id_list(ids@.subrange(0, i as int)),
        decreases ids.len() - i,
    {
        let ghost before = s@;
        if i > 0 {
            push_text(s, ", ");
        }
        push_decimal(s, ids[i] as i64);
        proof {
            let p = ids@.subrange(0, i + 1);
            assert(p.drop_last() =~= ids@.subrange(0, i as int));
            if i == 0 {
                assert(ids@.subrange(0, 0) =~= Seq::<i32>::empty());
                assert(s@ =~= start + id_list(p));
            } else {
                assert(s@ =~= start + id_list(p));
            }
        }
        i = i + 1;
    }
    proof {
        assert(ids@.subrange(0, ids@.len() as int) =~= ids@);
    }
}

/// The SQL text that lists job runs: restricted to `ids` when given (an
/// empty list matches nothing), strictly beyond `skip_id` in the direction of
/// travel, at most `limit` rows, returned in ascending order of identity.
/// Only integers are written into the text.
pub fn list_query(ids: &Option<Vec<i32>>, limit: Option<usize>, skip_id: Option<i32>, backwards: bool) -> (r: String)
    ensures
        r@ == list_query_text(id_seq(*ids), limit, skip_id, backwards),
{
    let mut s = String::new();
    push_text(&mut s, "SELECT id, job, exit_code, stdout, stderr, created_at, updated_at, end_ts FROM (SELECT * FROM job_runs");
    let ghost head = s@;
    if skip_id.is_some() || ids.is_some() {
        push_text(&mut s, " WHERE ");
    }
    if let Some(c) = skip_id {
        if backwards {
            push_text(&mut s, "id < ");
        } else {
            push_text(&mut s, "id > ");
        }
        push_decimal(&mut s, c as i64);
        if ids.is_some() {
            push_text(&mut s, " AND ");
        }
    }
    if let Some(v) = ids {
        push_text(&mut s, "id IN (");
        push_id_list(&mut s, v);
        push_text(&mut s, ")");
    }
    proof {
        assert(s@ =~= head + where_clause(cursor_condition(skip_id, backwards), set_condition(id_seq(*ids))));
    }
    let ghost mid = s@;
    if backwards {
        push_text(&mut s, " ORDER BY id DESC");
    } else {
        push_text(&mut s, " ORDER BY id ASC");
    }
    if let Some(n) = limit {
        push_text(&mut s, " LIMIT ");
        push_digits(&mut s, n as u64);
    }
    push_text(&mut s, ") ORDER BY id ASC");
    proof {
        assert(s@ =~= list_query_text(id_seq(*ids), limit, skip_id, backwards));
    }
    s
}

} // verus!
