//! Reading an edit script backwards.
//!
//! The mirror image of a script from `before` to `after` is a script from
//! `after` to `before`: deletions and insertions change places, kept lines
//! stay.  The hunks of the mirror image are the mirror images of the
//! hunks.

use crate::hunks::{hunk_at, hunks_of, is_change, near_change, shown_end, spans_from, HunkView};
use crate::render::row_text;
use crate::rows::{after_count, append_run, before_count, encode, rows, run};
use crate::script::{chain_after_end, chain_before_end, chained, is_script, EditOp, OpKind};
use crate::spans::{lemma_shown_end_props, lemma_span_props};
use vstd::prelude::*;

verus! {

/// The kind with deletion and insertion exchanged.
pub open spec fn mirror_kind(kind: OpKind) -> OpKind {
    match kind {
        OpKind::Equal => OpKind::Equal,
        OpKind::Delete => OpKind::Insert,
        OpKind::Insert => OpKind::Delete,
    }
}

/// The operation with the two sides exchanged.
pub open spec fn mirror_op(op: EditOp) -> EditOp {
    EditOp {
        kind: mirror_kind(op.kind),
        before_start: op.after_start,
        after_start: op.before_start,
        len: op.len,
    }
}

/// The operations with the two sides exchanged.
pub open spec fn mirror_ops(ops: Seq<EditOp>) -> Seq<EditOp> {
    Seq::new(ops.len(), |i: int| mirror_op(ops[i]))
}

/// The rows with the two sides exchanged.
pub open spec fn mirror_rows(rows: Seq<OpKind>) -> Seq<OpKind> {
    Seq::new(rows.len(), |i: int| mirror_kind(rows[i]))
}

/// The hunk with the two sides exchanged.
pub open spec fn mirror_hunk(hunk: HunkView) -> HunkView {
    HunkView {
        before_start: hunk.after_start,
        before_count: hunk.after_count,
        after_start: hunk.before_start,
        after_count: hunk.before_count,
        ops: mirror_ops(hunk.ops),
    }
}

/// The hunks with the two sides exchanged.
pub open spec fn mirror_hunks(hunks: Seq<HunkView>) -> Seq<HunkView> {
    Seq::new(hunks.len(), |i: int| mirror_hunk(hunks[i]))
}

/// The mirror image of a chain is a chain between the exchanged
/// positions.
pub proof fn lemma_mirror_chained(ops: Seq<EditOp>, b0: int, a0: int)
    requires
        chained(ops, b0, a0),
    ensures
        chained(mirror_ops(ops), a0, b0),
        chain_before_end(mirror_ops(ops), a0) == chain_after_end(ops, a0),
        chain_after_end(mirror_ops(ops), b0) == chain_before_end(ops, b0),
{
    let m = mirror_ops(ops);
    assert forall|i: int| 0 < i < m.len() implies (#[trigger] m[i]).before_start == m[i
        - 1].before_end() && m[i].after_start == m[i - 1].after_end() by {
        assert(ops[i].before_start == ops[i - 1].before_end());
    }
    assert forall|i: int| 0 <= i < m.len() implies (#[trigger] m[i]).before_end() <= usize::MAX
        && m[i].after_end() <= usize::MAX by {
        assert(ops[i].before_end() <= usize::MAX);
    }
}

/// The mirror image of an edit script from `before` to `after` is an edit
/// script from `after` to `before`.
pub proof fn lemma_mirror_is_script(ops: Seq<EditOp>, before: Seq<Seq<char>>, after: Seq<Seq<char>>)
    requires
        is_script(ops, before, after),
    ensures
        is_script(mirror_ops(ops), after, before),
{
    lemma_mirror_chained(ops, 0, 0);
    let m = mirror_ops(ops);
    assert forall|i: int| 0 <= i < m.len() && (#[trigger] m[i]).kind
        == OpKind::Equal implies m[i].pairs_equal_lines(after, before) by {
        assert(ops[i].kind == OpKind::Equal);
        assert(ops[i].pairs_equal_lines(before, after));
    }
}

/// The rows of the mirror image are the mirror image of the rows.
pub proof fn lemma_mirror_rows(ops: Seq<EditOp>)
    ensures
        rows(mirror_ops(ops)) == mirror_rows(rows(ops)),
    decreases ops.len(),
{
    if ops.len() == 0 {
        assert(rows(mirror_ops(ops)) =~= mirror_rows(rows(ops)));
    } else {
        lemma_mirror_rows(ops.drop_last());
        assert(mirror_ops(ops).drop_last() =~= mirror_ops(ops.drop_last()));
        let last = ops.last();
        assert(run(mirror_kind(last.kind), last.len as int) =~= mirror_rows(
            run(last.kind, last.len as int),
        ));
        assert(mirror_rows(rows(ops.drop_last()) + run(last.kind, last.len as int))
            =~= mirror_rows(rows(ops.drop_last())) + mirror_rows(run(last.kind, last.len as int)));
    }
}

/// Mirrored rows count on the other side.
pub proof fn lemma_mirror_counts(r: Seq<OpKind>)
    ensures
        before_count(mirror_rows(r)) == after_count(r),
        after_count(mirror_rows(r)) == before_count(r),
    decreases r.len(),
{
    if r.len() > 0 {
        lemma_mirror_counts(r.drop_last());
        assert(mirror_rows(r).drop_last() =~= mirror_rows(r.drop_last()));
    }
}

/// A row is shown in the mirror image where it is shown in the script.
pub proof fn lemma_mirror_near(r: Seq<OpKind>, context: int, k: int)
    ensures
        near_change(mirror_rows(r), context, k) == near_change(r, context, k),
{
    reveal(near_change);
    if near_change(r, context, k) {
        let c = choose|c: int| #[trigger] is_change(r, c) && k - context <= c <= k + context;
        assert(is_change(mirror_rows(r), c));
    }
    if near_change(mirror_rows(r), context, k) {
        let c = choose|c: int| #[trigger]
            is_change(mirror_rows(r), c) && k - context <= c <= k + context;
        assert(is_change(r, c));
    }
}

/// The runs of shown rows end in the mirror image where they end in the
/// script.
pub proof fn lemma_mirror_shown_end(r: Seq<OpKind>, context: int, k: int)
    ensures
        shown_end(mirror_rows(r), context, k) == shown_end(r, context, k),
    decreases r.len() - k,
{
    lemma_mirror_near(r, context, k);
    if 0 <= k < r.len() && near_change(r, context, k) {
        lemma_mirror_shown_end(r, context, k + 1);
    }
}

/// The mirror image has the spans of the script.
pub proof fn lemma_mirror_spans(r: Seq<OpKind>, context: int, k: int)
    ensures
        spans_from(mirror_rows(r), context, k) == spans_from(r, context, k),
    decreases r.len() - k,
{
    lemma_mirror_near(r, context, k);
    if k < 0 || k >= r.len() {
    } else if !near_change(r, context, k) {
        lemma_mirror_spans(r, context, k + 1);
    } else {
        lemma_mirror_shown_end(r, context, k);
        lemma_shown_end_props(r, context, k);
        lemma_mirror_spans(r, context, shown_end(r, context, k));
    }
}

/// Appending a run and mirroring can be done in either order.
pub proof fn lemma_mirror_append_run(ops: Seq<EditOp>, kind: OpKind, b: int, a: int, len: int)
    ensures
        append_run(mirror_ops(ops), mirror_kind(kind), a, b, len) == mirror_ops(
            append_run(ops, kind, b, a, len),
        ),
{
    assert(append_run(mirror_ops(ops), mirror_kind(kind), a, b, len) =~= mirror_ops(
        append_run(ops, kind, b, a, len),
    ));
}

/// Encoding and mirroring can be done in either order.
pub proof fn lemma_mirror_encode(body: Seq<OpKind>, b0: int, a0: int)
    ensures
        encode(mirror_rows(body), a0, b0) == mirror_ops(encode(body, b0, a0)),
    decreases body.len(),
{
    if body.len() == 0 {
        assert(encode(mirror_rows(body), a0, b0) =~= mirror_ops(encode(body, b0, a0)));
    } else {
        let front = body.drop_last();
        lemma_mirror_encode(front, b0, a0);
        lemma_mirror_counts(front);
        assert(mirror_rows(body).drop_last() =~= mirror_rows(front));
        lemma_mirror_append_run(
            encode(front, b0, a0),
            body.last(),
            b0 + before_count(front),
            a0 + after_count(front),
            1,
        );
    }
}

/// The hunk of a span of the mirror image is the mirror image of the
/// hunk of that span.
pub proof fn lemma_mirror_hunk_at(r: Seq<OpKind>, lo: int, hi: int)
    requires
        0 <= lo <= hi <= r.len(),
    ensures
        hunk_at(mirror_rows(r), lo, hi) == mirror_hunk(hunk_at(r, lo, hi)),
{
    assert(mirror_rows(r).take(lo) =~= mirror_rows(r.take(lo)));
    assert(mirror_rows(r).subrange(lo, hi) =~= mirror_rows(r.subrange(lo, hi)));
    lemma_mirror_counts(r.take(lo));
    lemma_mirror_counts(r.subrange(lo, hi));
    lemma_mirror_encode(
        r.subrange(lo, hi),
        before_count(r.take(lo)),
        after_count(r.take(lo)),
    );
}

/// Mirror law.  Where the rows of one script are the mirror image of the
/// rows of another, its hunks are the mirror images of the hunks of the
/// other: the same spans, with the header numbers of the two sides
/// exchanged and every deletion an insertion of the same lines and the
/// other way round.
pub proof fn lemma_mirrored_rows_give_mirrored_hunks(
    script: Seq<EditOp>,
    reversed: Seq<EditOp>,
    context: int,
)
    requires
        rows(reversed) == mirror_rows(rows(script)),
    ensures
        hunks_of(reversed, context) == mirror_hunks(hunks_of(script, context)),
{
    let r = rows(script);
    lemma_mirror_spans(r, context, 0);
    let spans = spans_from(r, context, 0);
    let left = hunks_of(reversed, context);
    let right = mirror_hunks(hunks_of(script, context));
    assert(left.len() == right.len());
    assert forall|i: int| 0 <= i < left.len() implies left[i] == right[i] by {
        lemma_span_props(r, context, 0, i);
        lemma_mirror_hunk_at(r, spans[i].0, spans[i].1);
    }
    assert(left =~= right);
}

/// Mirror law.  The hunks of the mirror image of a script are the mirror
/// images of the hunks of the script.
pub proof fn lemma_mirror_hunks(script: Seq<EditOp>, context: int)
    ensures
        hunks_of(mirror_ops(script), context) == mirror_hunks(hunks_of(script, context)),
{
    lemma_mirror_rows(script);
    lemma_mirrored_rows_give_mirrored_hunks(script, mirror_ops(script), context);
}

/// A row of the mirror image shows the line that the row of the script
/// shows: a deleted line of the script is the inserted line of the mirror
/// image, an inserted line its deleted line, and a kept line has the same
/// text on both sides.
pub proof fn lemma_mirror_row_text(
    op: EditOp,
    k: int,
    before: Seq<Seq<char>>,
    after: Seq<Seq<char>>,
)
    requires
        0 <= k < op.len,
        op.before_end() <= before.len(),
        op.after_end() <= after.len(),
        op.kind == OpKind::Equal ==> op.pairs_equal_lines(before, after),
    ensures
        row_text(mirror_op(op), k, after, before) == row_text(op, k, before, after),
{
    if op.kind == OpKind::Equal {
        let b = before.subrange(op.before_start as int, op.before_start + op.len);
        let a = after.subrange(op.after_start as int, op.after_start + op.len);
        assert(b[k] == before[op.before_start + k]);
        assert(a[k] == after[op.after_start + k]);
    }
}

} // verus!
