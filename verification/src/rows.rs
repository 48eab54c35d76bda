//! The row model of an edit script.
//!
//! Written out line by line, an edit script is a column of rows, one row for
//! each line that it keeps, deletes or inserts.  Where a row stands decides
//! everything about it: the before-line of a row is found by counting the
//! rows above it that are no insertions, its after-line by counting those
//! that are no deletions.  Hunks are defined on this column.

use crate::script::{
    chain_after_end, chain_before_end, chained, lemma_chained_prefix, lemma_chained_push, EditOp,
    OpKind,
};
use vstd::prelude::*;

verus! {

/// `len` rows of one kind.
pub open spec fn run(kind: OpKind, len: int) -> Seq<OpKind> {
    Seq::new(len as nat, |i: int| kind)
}

/// The rows of a sequence of operations: `len` rows of its kind for each
/// operation, in order.
pub open spec fn rows(ops: Seq<EditOp>) -> Seq<OpKind>
    decreases ops.len(),
{
    if ops.len() == 0 {
        Seq::empty()
    } else {
        rows(ops.drop_last()) + run(ops.last().kind, ops.last().len as int)
    }
}

/// Number of before-lines among the rows: those that are no insertions.
pub open spec fn before_count(rows: Seq<OpKind>) -> int
    decreases rows.len(),
{
    if rows.len() == 0 {
        0
    } else {
        before_count(rows.drop_last()) + if rows.last() != OpKind::Insert {
            1int
        } else {
            0int
        }
    }
}

/// Number of after-lines among the rows: those that are no deletions.
pub open spec fn after_count(rows: Seq<OpKind>) -> int
    decreases rows.len(),
{
    if rows.len() == 0 {
        0
    } else {
        after_count(rows.drop_last()) + if rows.last() != OpKind::Delete {
            1int
        } else {
            0int
        }
    }
}

/// The operations with `len` more rows of `kind` behind them: the last
/// operation grows where it has that kind, else a new operation follows at
/// the positions `before_start` and `after_start`.
pub open spec fn append_run(
    ops: Seq<EditOp>,
    kind: OpKind,
    before_start: int,
    after_start: int,
    len: int,
) -> Seq<EditOp> {
    if ops.len() > 0 && ops.last().kind == kind {
        ops.update(
            ops.len() - 1,
            EditOp {
                kind,
                before_start: ops.last().before_start,
                after_start: ops.last().after_start,
                len: (ops.last().len + len) as usize,
            },
        )
    } else {
        ops.push(
            EditOp {
                kind,
                before_start: before_start as usize,
                after_start: after_start as usize,
                len: len as usize,
            },
        )
    }
}

/// The run-length encoding of a column of rows that begins at the positions
/// `b0` and `a0`: one operation for each maximal stretch of rows of one
/// kind.
pub open spec fn encode(rows: Seq<OpKind>, b0: int, a0: int) -> Seq<EditOp>
    decreases rows.len(),
{
    if rows.len() == 0 {
        Seq::empty()
    } else {
        append_run(
            encode(rows.drop_last(), b0, a0),
            rows.last(),
            b0 + before_count(rows.drop_last()),
            a0 + after_count(rows.drop_last()),
            1,
        )
    }
}

/// Counting is additive over concatenation.
pub proof fn lemma_count_concat(r1: Seq<OpKind>, r2: Seq<OpKind>)
    ensures
        before_count(r1 + r2) == before_count(r1) + before_count(r2),
        after_count(r1 + r2) == after_count(r1) + after_count(r2),
    decreases r2.len(),
{
    if r2.len() == 0 {
        assert(r1 + r2 =~= r1);
    } else {
        lemma_count_concat(r1, r2.drop_last());
        assert((r1 + r2).drop_last() =~= r1 + r2.drop_last());
    }
}

/// A run counts on the sides that its kind covers.
pub proof fn lemma_count_run(kind: OpKind, len: int)
    requires
        0 <= len,
    ensures
        run(kind, len).len() == len,
        before_count(run(kind, len)) == if kind != OpKind::Insert {
            len
        } else {
            0
        },
        after_count(run(kind, len)) == if kind != OpKind::Delete {
            len
        } else {
            0
        },
    decreases len,
{
    if len > 0 {
        lemma_count_run(kind, len - 1);
        assert(run(kind, len).drop_last() =~= run(kind, len - 1));
    }
}

/// Counts lie between 0 and the number of rows.
pub proof fn lemma_count_bounds(r: Seq<OpKind>)
    ensures
        0 <= before_count(r) <= r.len(),
        0 <= after_count(r) <= r.len(),
    decreases r.len(),
{
    if r.len() > 0 {
        lemma_count_bounds(r.drop_last());
    }
}

/// The rows of a concatenation are the rows of its parts.
pub proof fn lemma_rows_concat(a: Seq<EditOp>, b: Seq<EditOp>)
    ensures
        rows(a + b) == rows(a) + rows(b),
    decreases b.len(),
{
    if b.len() == 0 {
        assert(a + b =~= a);
        assert(rows(a) + rows(b) =~= rows(a));
    } else {
        lemma_rows_concat(a, b.drop_last());
        assert((a + b).drop_last() =~= a + b.drop_last());
        assert((a + b).last() == b.last());
        assert(rows(a + b) =~= rows(a) + rows(b));
    }
}

/// The rows of the first `i + 1` operations are those of the first `i`
/// followed by the run of operation `i`; both are prefixes of all rows.
pub proof fn lemma_rows_take_step(ops: Seq<EditOp>, i: int)
    requires
        0 <= i < ops.len(),
    ensures
        rows(ops.take(i + 1)) == rows(ops.take(i)) + run(ops[i].kind, ops[i].len as int),
        rows(ops.take(i)) == rows(ops).take(rows(ops.take(i)).len() as int),
        rows(ops.take(i + 1)) == rows(ops).take(rows(ops.take(i + 1)).len() as int),
        rows(ops.take(i + 1)).len() <= rows(ops).len(),
{
    assert(ops.take(i + 1).drop_last() =~= ops.take(i));
    lemma_rows_concat(ops.take(i), ops.skip(i));
    assert(ops.take(i) + ops.skip(i) =~= ops);
    lemma_rows_concat(ops.take(i + 1), ops.skip(i + 1));
    assert(ops.take(i + 1) + ops.skip(i + 1) =~= ops);
    assert(rows(ops.take(i)) =~= rows(ops).take(rows(ops.take(i)).len() as int));
    assert(rows(ops.take(i + 1)) =~= rows(ops).take(rows(ops.take(i + 1)).len() as int));
}

/// A chain ends where the counts of its rows say.
pub proof fn lemma_chain_counts(ops: Seq<EditOp>, b0: int, a0: int)
    requires
        chained(ops, b0, a0),
    ensures
        chain_before_end(ops, b0) == b0 + before_count(rows(ops)),
        chain_after_end(ops, a0) == a0 + after_count(rows(ops)),
    decreases ops.len(),
{
    if ops.len() > 0 {
        let n = ops.len() - 1;
        lemma_chained_prefix(ops, b0, a0, n);
        assert(ops.take(n) =~= ops.drop_last());
        lemma_chain_counts(ops.drop_last(), b0, a0);
        lemma_count_concat(rows(ops.drop_last()), run(ops.last().kind, ops.last().len as int));
        lemma_count_run(ops.last().kind, ops.last().len as int);
    }
}

/// Encoding rows that end in a run appends the run to the encoding of the
/// rows before it.
pub proof fn lemma_encode_run(body: Seq<OpKind>, b0: int, a0: int, kind: OpKind, len: int)
    requires
        0 < len <= usize::MAX,
        0 <= b0 + before_count(body) <= usize::MAX,
        0 <= a0 + after_count(body) <= usize::MAX,
        encode(body, b0, a0).len() > 0 && encode(body, b0, a0).last().kind == kind ==> encode(
            body,
            b0,
            a0,
        ).last().len + len <= usize::MAX,
    ensures
        encode(body + run(kind, len), b0, a0) == append_run(
            encode(body, b0, a0),
            kind,
            b0 + before_count(body),
            a0 + after_count(body),
            len,
        ),
    decreases len,
{
    let e = encode(body, b0, a0);
    let full = body + run(kind, len);
    assert(full.last() == kind);
    if len == 1 {
        assert(full.drop_last() =~= body);
    } else {
        let shorter = body + run(kind, len - 1);
        assert(full.drop_last() =~= shorter);
        lemma_encode_run(body, b0, a0, kind, len - 1);
        let prev = encode(shorter, b0, a0);
        assert(prev.len() > 0 && prev.last().kind == kind);
        assert(encode(full, b0, a0) =~= append_run(
            e,
            kind,
            b0 + before_count(body),
            a0 + after_count(body),
            len,
        ));
    }
}

/// Unchanged rows count on both sides.
pub proof fn lemma_count_equal_rows(r: Seq<OpKind>, x: int, y: int)
    requires
        0 <= x <= y <= r.len(),
        forall|k: int| x <= k < y ==> r[k] == OpKind::Equal,
    ensures
        before_count(r.take(y)) == before_count(r.take(x)) + (y - x),
        after_count(r.take(y)) == after_count(r.take(x)) + (y - x),
{
    assert(r.take(y) =~= r.take(x) + run(OpKind::Equal, y - x));
    lemma_count_concat(r.take(x), run(OpKind::Equal, y - x));
    lemma_count_run(OpKind::Equal, y - x);
}

/// A chain with a run appended is a chain, and ends behind the run.
pub proof fn lemma_append_run_chained(ops: Seq<EditOp>, b0: int, a0: int, kind: OpKind, len: int)
    requires
        chained(ops, b0, a0),
        0 <= b0,
        0 <= a0,
        0 < len,
        chain_before_end(ops, b0) + (if kind != OpKind::Insert {
            len
        } else {
            0
        }) <= usize::MAX,
        chain_after_end(ops, a0) + (if kind != OpKind::Delete {
            len
        } else {
            0
        }) <= usize::MAX,
    ensures
        ({
            let r = append_run(ops, kind, chain_before_end(ops, b0), chain_after_end(ops, a0), len);
            &&& chained(r, b0, a0)
            &&& r.len() > 0
            &&& chain_before_end(r, b0) == chain_before_end(ops, b0) + (if kind != OpKind::Insert {
                len
            } else {
                0
            })
            &&& chain_after_end(r, a0) == chain_after_end(ops, a0) + (if kind != OpKind::Delete {
                len
            } else {
                0
            })
            &&& ops.len() > 0 && ops.last().kind == kind ==> ops.last().len + len <= usize::MAX
        }),
{
    lemma_chained_prefix(ops, b0, a0, ops.len() as int);
    let b = chain_before_end(ops, b0);
    let a = chain_after_end(ops, a0);
    let r = append_run(ops, kind, b, a, len);
    if ops.len() > 0 && ops.last().kind == kind {
        let n = ops.len() - 1;
        assert(ops[n].before_end() <= usize::MAX && ops[n].after_end() <= usize::MAX);
        assert forall|i: int| 0 < i < r.len() implies (#[trigger] r[i]).before_start == r[i
            - 1].before_end() && r[i].after_start == r[i - 1].after_end() by {
            assert(r[i - 1] == ops[i - 1]);
            if i < n {
                assert(r[i] == ops[i]);
            } else {
                assert(ops[i].before_start == ops[i - 1].before_end());
            }
        }
        assert forall|i: int| 0 <= i < r.len() implies (#[trigger] r[i]).before_end()
            <= usize::MAX && r[i].after_end() <= usize::MAX by {
            if i < n {
                assert(r[i] == ops[i]);
            }
        }
        if n > 0 {
            assert(r[0] == ops[0]);
        }
    } else {
        let op = EditOp { kind, before_start: b as usize, after_start: a as usize, len: len as usize };
        lemma_chained_push(ops, b0, a0, op);
    }
}

/// The rows of operations with a run appended are the rows of the
/// operations followed by the run.
pub proof fn lemma_rows_append_run(
    ops: Seq<EditOp>,
    kind: OpKind,
    before_start: int,
    after_start: int,
    len: int,
)
    requires
        0 < len <= usize::MAX,
        ops.len() > 0 && ops.last().kind == kind ==> ops.last().len + len <= usize::MAX,
    ensures
        rows(append_run(ops, kind, before_start, after_start, len)) == rows(ops) + run(kind, len),
{
    let r = append_run(ops, kind, before_start, after_start, len);
    if ops.len() > 0 && ops.last().kind == kind {
        assert(r.drop_last() =~= ops.drop_last());
        assert(run(kind, ops.last().len + len) =~= run(kind, ops.last().len as int) + run(
            kind,
            len,
        ));
        assert(rows(r) =~= rows(ops) + run(kind, len));
    } else {
        assert(r.drop_last() =~= ops);
    }
}

/// The run-length encoding of rows is a chain that starts at the given
/// positions, ends where the counts of the rows say, and has the rows it
/// was made of.
pub proof fn lemma_encode_chained(body: Seq<OpKind>, b0: int, a0: int)
    requires
        0 <= b0,
        0 <= a0,
        b0 + before_count(body) <= usize::MAX,
        a0 + after_count(body) <= usize::MAX,
    ensures
        chained(encode(body, b0, a0), b0, a0),
        chain_before_end(encode(body, b0, a0), b0) == b0 + before_count(body),
        chain_after_end(encode(body, b0, a0), a0) == a0 + after_count(body),
        rows(encode(body, b0, a0)) == body,
        body.len() > 0 ==> encode(body, b0, a0).len() > 0,
    decreases body.len(),
{
    if body.len() == 0 {
        assert(rows(encode(body, b0, a0)) =~= body);
    } else {
        let front = body.drop_last();
        let kind = body.last();
        lemma_count_bounds(front);
        lemma_encode_chained(front, b0, a0);
        let e = encode(front, b0, a0);
        lemma_append_run_chained(e, b0, a0, kind, 1);
        lemma_rows_append_run(e, kind, b0 + before_count(front), a0 + after_count(front), 1);
        assert(front + run(kind, 1) =~= body);
    }
}

} // verus!
