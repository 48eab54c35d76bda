//! The steps of the hunk builder.
//!
//! The builder reads a script operation by operation.  What it holds
//! between two operations is described by `Progress`; each lemma here
//! follows one step that the builder can take and shows that it keeps what
//! `progress_ok` says.

use crate::hunks::{
    hunk_at, hunk_of_ops, hunk_views, hunks_at, is_change, near_change, spans_from, Hunk, HunkView,
};
use crate::rows::{
    after_count, append_run, before_count, encode, lemma_append_run_chained, lemma_chain_counts,
    lemma_count_bounds, lemma_count_concat, lemma_count_equal_rows, lemma_count_run,
    lemma_encode_run, lemma_rows_take_step, rows, run,
};
use crate::script::{chain_after_end, chain_before_end, chained, lemma_chained_prefix, EditOp, OpKind};
use crate::spans::{
    lemma_first_change, lemma_last_span, lemma_next_change_merges, lemma_next_change_splits,
    lemma_no_change_no_span,
};
use vstd::prelude::*;

verus! {

/// `ops` holds the rows from `lo` up to `q` of `rows`: it is their
/// run-length encoding, placed where the rows above `lo` end, and it ends
/// where the rows above `q` end.
#[verifier::opaque]
pub open spec fn encodes(rows: Seq<OpKind>, lo: int, q: int, ops: Seq<EditOp>) -> bool {
    let b0 = before_count(rows.take(lo));
    let a0 = after_count(rows.take(lo));
    &&& 0 <= lo <= q <= rows.len()
    &&& ops == encode(rows.subrange(lo, q), b0, a0)
    &&& chained(ops, b0, a0)
    &&& chain_before_end(ops, b0) == before_count(rows.take(q))
    &&& chain_after_end(ops, a0) == after_count(rows.take(q))
}

/// No operation holds no row.
pub proof fn lemma_encodes_nothing(rows: Seq<OpKind>, lo: int)
    requires
        0 <= lo <= rows.len(),
    ensures
        encodes(rows, lo, lo, Seq::empty()),
{
    reveal(encodes);
    assert(rows.subrange(lo, lo) =~= Seq::<OpKind>::empty());
}

/// Operations that hold the rows up to `q`, with the run of the next `len`
/// rows appended, hold the rows up to `q + len`.
pub proof fn lemma_encodes_more(
    rows: Seq<OpKind>,
    lo: int,
    q: int,
    ops: Seq<EditOp>,
    kind: OpKind,
    len: int,
)
    requires
        encodes(rows, lo, q, ops),
        0 < len,
        q + len <= rows.len(),
        forall|k: int| q <= k < q + len ==> rows[k] == kind,
        before_count(rows.take(q + len)) <= usize::MAX,
        after_count(rows.take(q + len)) <= usize::MAX,
    ensures
        encodes(
            rows,
            lo,
            q + len,
            append_run(ops, kind, before_count(rows.take(q)), after_count(rows.take(q)), len),
        ),
        append_run(ops, kind, before_count(rows.take(q)), after_count(rows.take(q)), len).len() > 0,
        ops.len() > 0 && ops.last().kind == kind ==> ops.last().len + len <= usize::MAX,
        before_count(rows.take(q + len)) == before_count(rows.take(q)) + (if kind
            != OpKind::Insert {
            len
        } else {
            0
        }),
        after_count(rows.take(q + len)) == after_count(rows.take(q)) + (if kind != OpKind::Delete {
            len
        } else {
            0
        }),
{
    reveal(encodes);
    let b0 = before_count(rows.take(lo));
    let a0 = after_count(rows.take(lo));
    let body = rows.subrange(lo, q);
    assert(rows.take(q + len) =~= rows.take(q) + run(kind, len));
    lemma_count_concat(rows.take(q), run(kind, len));
    lemma_count_run(kind, len);
    assert(rows.take(q) =~= rows.take(lo) + body);
    lemma_count_concat(rows.take(lo), body);
    lemma_count_bounds(rows.take(lo));
    lemma_count_bounds(rows.take(q));
    lemma_append_run_chained(ops, b0, a0, kind, len);
    lemma_encode_run(body, b0, a0, kind, len);
    assert(body + run(kind, len) =~= rows.subrange(lo, q + len));
}

/// Operations that hold the rows from `lo` up to `hi` make the hunk of
/// those rows.
pub proof fn lemma_encodes_hunk(rows: Seq<OpKind>, lo: int, hi: int, ops: Seq<EditOp>)
    requires
        encodes(rows, lo, hi, ops),
        ops.len() > 0,
    ensures
        hunk_of_ops(ops) == hunk_at(rows, lo, hi),
        ops[0].before_start <= ops.last().before_end() <= usize::MAX,
        ops[0].after_start <= ops.last().after_end() <= usize::MAX,
{
    reveal(encodes);
    let body = rows.subrange(lo, hi);
    assert(rows.take(hi) =~= rows.take(lo) + body);
    lemma_count_concat(rows.take(lo), body);
    lemma_count_bounds(body);
    assert(ops[ops.len() - 1].before_end() <= usize::MAX);
}

/// What operation `i` of a script adds to the rows of the operations
/// before it.
pub proof fn lemma_script_step(script: Seq<EditOp>, i: int, p: int)
    requires
        chained(script, 0, 0),
        0 <= i < script.len(),
        0 <= p <= rows(script).len(),
        rows(script.take(i)) == rows(script).take(p),
    ensures
        p + script[i].len <= rows(script).len(),
        rows(script.take(i + 1)) == rows(script).take(p + script[i].len),
        forall|k: int| p <= k < p + script[i].len ==> rows(script)[k] == script[i].kind,
        script[i].before_start == before_count(rows(script).take(p)),
        script[i].after_start == after_count(rows(script).take(p)),
        script[i].before_end() == before_count(rows(script).take(p + script[i].len)),
        script[i].after_end() == after_count(rows(script).take(p + script[i].len)),
        script[i].before_end() <= usize::MAX,
        script[i].after_end() <= usize::MAX,
{
    let r = rows(script);
    let op = script[i];
    lemma_rows_take_step(script, i);
    lemma_count_run(op.kind, op.len as int);
    assert(rows(script.take(i)).len() == p);
    assert(rows(script.take(i + 1)).len() == p + op.len);
    assert forall|k: int| p <= k < p + op.len implies r[k] == op.kind by {
        assert(r.take(p + op.len)[k] == r[k]);
        assert((r.take(p) + run(op.kind, op.len as int))[k] == op.kind);
    }
    lemma_chained_prefix(script, 0, 0, i);
    lemma_chain_counts(script.take(i), 0, 0);
    lemma_count_concat(r.take(p), run(op.kind, op.len as int));
}

/// The values of a vector of hunks with one more hunk.
pub proof fn lemma_hunk_views_push(hunks: Seq<Hunk>, hunk: Hunk)
    ensures
        hunk_views(hunks.push(hunk)) == hunk_views(hunks).push(hunk@),
{
    assert(hunk_views(hunks.push(hunk)) =~= hunk_views(hunks).push(hunk@));
}

/// The hunks of spans with one more span.
pub proof fn lemma_hunks_at_push(rows: Seq<OpKind>, spans: Seq<(int, int)>, lo: int, hi: int)
    ensures
        hunks_at(rows, spans.push((lo, hi))) == hunks_at(rows, spans).push(hunk_at(rows, lo, hi)),
{
    assert(hunks_at(rows, spans.push((lo, hi))) =~= hunks_at(rows, spans).push(
        hunk_at(rows, lo, hi),
    ));
}

/// How far the hunk builder has come in the rows of a script.
pub struct Progress {
    /// Number of rows read.
    pub p: int,
    /// Number of unchanged rows at the end of the rows read.
    pub gap: int,
    /// Number of before-lines among the rows read.
    pub b_pos: int,
    /// Number of after-lines among the rows read.
    pub a_pos: int,
    /// A change has been read.
    pub open: bool,
    /// First row of the hunk that is being collected.
    pub lo: int,
    /// The spans of the hunks that are complete.
    pub done: Seq<(int, int)>,
    /// The operations of the hunk that is being collected.
    pub cur: Seq<EditOp>,
    /// The hunks that are complete.
    pub hunks: Seq<HunkView>,
}

/// What holds of the builder between two operations of the script.  The
/// complete hunks are those of the spans found so far; the hunk that is
/// being collected holds the rows from its first row up to the last change
/// read; the unchanged rows behind that change wait for the next change or
/// the end of the script to decide how many of them are shown.
#[verifier::opaque]
pub open spec fn progress_ok(rows: Seq<OpKind>, context: int, s: Progress) -> bool {
    &&& 0 <= context
    &&& 0 <= s.gap <= s.p <= rows.len()
    &&& s.b_pos == before_count(rows.take(s.p))
    &&& s.a_pos == after_count(rows.take(s.p))
    &&& s.b_pos <= usize::MAX
    &&& s.a_pos <= usize::MAX
    &&& s.gap <= s.b_pos
    &&& s.gap <= s.a_pos
    &&& s.b_pos - s.gap == before_count(rows.take(s.p - s.gap))
    &&& s.a_pos - s.gap == after_count(rows.take(s.p - s.gap))
    &&& forall|k: int| s.p - s.gap <= k < s.p ==> rows[k] == OpKind::Equal
    &&& s.open <==> s.gap < s.p
    &&& s.open ==> is_change(rows, s.p - s.gap - 1)
    &&& !s.open ==> s.cur.len() == 0 && s.done.len() == 0
    &&& s.open ==> 0 <= s.lo < s.p - s.gap && s.cur.len() > 0 && encodes(
        rows,
        s.lo,
        s.p - s.gap,
        s.cur,
    )
    &&& s.open ==> forall|k: int| s.lo <= k < s.p - s.gap ==> near_change(rows, context, k)
    &&& spans_from(rows, context, 0) == s.done + spans_from(
        rows,
        context,
        if s.open {
            s.lo
        } else {
            0
        },
    )
    &&& s.hunks == hunks_at(rows, s.done)
}

/// Number of before-lines that `len` rows of `kind` cover.
pub open spec fn before_rows(kind: OpKind, len: int) -> int {
    if kind != OpKind::Insert {
        len
    } else {
        0
    }
}

/// Number of after-lines that `len` rows of `kind` cover.
pub open spec fn after_rows(kind: OpKind, len: int) -> int {
    if kind != OpKind::Delete {
        len
    } else {
        0
    }
}

/// The operations with `len` unchanged rows appended that end at the
/// positions `b` and `a`; the operations themselves where `len` is 0.
pub open spec fn with_context(ops: Seq<EditOp>, b: int, a: int, len: int) -> Seq<EditOp> {
    if len > 0 {
        append_run(ops, OpKind::Equal, b - len, a - len, len)
    } else {
        ops
    }
}

/// The smaller of two numbers.
pub open spec fn least(x: int, y: int) -> int {
    if x < y {
        x
    } else {
        y
    }
}

/// The builder before any operation is read.
pub proof fn lemma_progress_start(rows: Seq<OpKind>, context: int) -> (s: Progress)
    requires
        0 <= context,
    ensures
        progress_ok(rows, context, s),
        s == (Progress {
            p: 0,
            gap: 0,
            b_pos: 0,
            a_pos: 0,
            open: false,
            lo: 0,
            done: Seq::empty(),
            cur: Seq::empty(),
            hunks: Seq::empty(),
        }),
{
    reveal(progress_ok);
    let s = Progress {
        p: 0,
        gap: 0,
        b_pos: 0,
        a_pos: 0,
        open: false,
        lo: 0,
        done: Seq::empty(),
        cur: Seq::empty(),
        hunks: Seq::empty(),
    };
    assert(rows.take(0) =~= Seq::<OpKind>::empty());
    assert(s.done + spans_from(rows, context, 0) =~= spans_from(rows, context, 0));
    assert(s.hunks =~= hunks_at(rows, s.done));
    s
}

/// The builder reads unchanged rows.
pub proof fn lemma_read_equal(rows: Seq<OpKind>, context: int, s: Progress, len: int) -> (t:
    Progress)
    requires
        progress_ok(rows, context, s),
        0 < len,
        s.p + len <= rows.len(),
        forall|k: int| s.p <= k < s.p + len ==> rows[k] == OpKind::Equal,
        s.b_pos + len <= usize::MAX,
        s.a_pos + len <= usize::MAX,
    ensures
        progress_ok(rows, context, t),
        t == (Progress {
            p: s.p + len,
            gap: s.gap + len,
            b_pos: s.b_pos + len,
            a_pos: s.a_pos + len,
            ..s
        }),
        s.gap <= s.b_pos,
        s.gap <= s.a_pos,
{
    reveal(progress_ok);
    lemma_count_equal_rows(rows, s.p, s.p + len);
    Progress { p: s.p + len, gap: s.gap + len, b_pos: s.b_pos + len, a_pos: s.a_pos + len, ..s }
}

/// The builder reads the first change of the script.
pub proof fn lemma_read_first_change(
    rows: Seq<OpKind>,
    context: int,
    s: Progress,
    kind: OpKind,
    len: int,
) -> (t: Progress)
    requires
        progress_ok(rows, context, s),
        !s.open,
        kind != OpKind::Equal,
        0 < len,
        s.p + len <= rows.len(),
        forall|k: int| s.p <= k < s.p + len ==> rows[k] == kind,
        s.b_pos + before_rows(kind, len) <= usize::MAX,
        s.a_pos + after_rows(kind, len) <= usize::MAX,
    ensures
        progress_ok(rows, context, t),
        least(s.gap, context) <= s.b_pos,
        least(s.gap, context) <= s.a_pos,
        t == (Progress {
            p: s.p + len,
            gap: 0,
            b_pos: s.b_pos + before_rows(kind, len),
            a_pos: s.a_pos + after_rows(kind, len),
            open: true,
            lo: s.p - least(s.gap, context),
            cur: append_run(
                with_context(s.cur, s.b_pos, s.a_pos, least(s.gap, context)),
                kind,
                s.b_pos,
                s.a_pos,
                len,
            ),
            ..s
        }),
        s.cur.len() == 0,
{
    reveal(progress_ok);
    lemma_count_bounds(rows.take(s.p));
    lemma_count_bounds(rows.take(s.p + len));
    let lead = least(s.gap, context);
    let lo = s.p - lead;
    lemma_first_change(rows, context, s.p, len, lead);
    assert(s.cur =~= Seq::<EditOp>::empty());
    lemma_encodes_nothing(rows, lo);
    lemma_count_equal_rows(rows, lo, s.p);
    let cur1 = with_context(s.cur, s.b_pos, s.a_pos, lead);
    if lead > 0 {
        lemma_encodes_more(rows, lo, lo, s.cur, OpKind::Equal, lead);
    }
    lemma_read_change_common(rows, lo, s.p, cur1, kind, len);
    let t = Progress {
        p: s.p + len,
        gap: 0,
        b_pos: s.b_pos + before_rows(kind, len),
        a_pos: s.a_pos + after_rows(kind, len),
        open: true,
        lo,
        cur: append_run(cur1, kind, s.b_pos, s.a_pos, len),
        ..s
    };
    assert(is_change(rows, t.p - 1));
    t
}

/// Appending the rows of a change to the operations that hold the rows up
/// to it.
proof fn lemma_read_change_common(
    rows: Seq<OpKind>,
    lo: int,
    p: int,
    cur: Seq<EditOp>,
    kind: OpKind,
    len: int,
)
    requires
        encodes(rows, lo, p, cur),
        0 < len,
        p + len <= rows.len(),
        forall|k: int| p <= k < p + len ==> rows[k] == kind,
        before_count(rows.take(p)) + before_rows(kind, len) <= usize::MAX,
        after_count(rows.take(p)) + after_rows(kind, len) <= usize::MAX,
    ensures
        encodes(
            rows,
            lo,
            p + len,
            append_run(cur, kind, before_count(rows.take(p)), after_count(rows.take(p)), len),
        ),
        append_run(cur, kind, before_count(rows.take(p)), after_count(rows.take(p)), len).len() > 0,
        cur.len() > 0 && cur.last().kind == kind ==> cur.last().len + len <= usize::MAX,
        before_count(rows.take(p + len)) == before_count(rows.take(p)) + before_rows(kind, len),
        after_count(rows.take(p + len)) == after_count(rows.take(p)) + after_rows(kind, len),
{
    assert(0 <= lo <= p) by {
        reveal(encodes);
    }
    assert(rows.take(p + len) =~= rows.take(p) + run(kind, len));
    lemma_count_concat(rows.take(p), run(kind, len));
    lemma_count_run(kind, len);
    lemma_encodes_more(rows, lo, p, cur, kind, len);
}

/// The builder reads a change that continues the hunk being collected.
pub proof fn lemma_read_near_change(
    rows: Seq<OpKind>,
    context: int,
    s: Progress,
    kind: OpKind,
    len: int,
) -> (t: Progress)
    requires
        progress_ok(rows, context, s),
        s.open,
        s.gap <= 2 * context,
        kind != OpKind::Equal,
        0 < len,
        s.p + len <= rows.len(),
        forall|k: int| s.p <= k < s.p + len ==> rows[k] == kind,
        s.b_pos + before_rows(kind, len) <= usize::MAX,
        s.a_pos + after_rows(kind, len) <= usize::MAX,
    ensures
        progress_ok(rows, context, t),
        s.gap <= s.b_pos,
        s.gap <= s.a_pos,
        t == (Progress {
            p: s.p + len,
            gap: 0,
            b_pos: s.b_pos + before_rows(kind, len),
            a_pos: s.a_pos + after_rows(kind, len),
            cur: append_run(
                with_context(s.cur, s.b_pos, s.a_pos, s.gap),
                kind,
                s.b_pos,
                s.a_pos,
                len,
            ),
            ..s
        }),
        s.cur.len() > 0 && s.cur.last().kind == OpKind::Equal ==> s.cur.last().len + s.gap
            <= usize::MAX,
        ({
            let cur1 = with_context(s.cur, s.b_pos, s.a_pos, s.gap);
            cur1.len() > 0 && cur1.last().kind == kind ==> cur1.last().len + len <= usize::MAX
        }),
{
    reveal(progress_ok);
    lemma_count_bounds(rows.take(s.p));
    lemma_count_bounds(rows.take(s.p + len));
    lemma_next_change_merges(rows, context, s.lo, s.p, s.gap, len);
    let cur1 = with_context(s.cur, s.b_pos, s.a_pos, s.gap);
    if s.gap > 0 {
        lemma_encodes_more(rows, s.lo, s.p - s.gap, s.cur, OpKind::Equal, s.gap);
    }
    lemma_read_change_common(rows, s.lo, s.p, cur1, kind, len);
    let t = Progress {
        p: s.p + len,
        gap: 0,
        b_pos: s.b_pos + before_rows(kind, len),
        a_pos: s.a_pos + after_rows(kind, len),
        cur: append_run(cur1, kind, s.b_pos, s.a_pos, len),
        ..s
    };
    assert(is_change(rows, t.p - 1));
    t
}

/// The builder reads a change that lies too far from the last one: the
/// hunk being collected is complete, and a new one begins.
pub proof fn lemma_read_far_change(
    rows: Seq<OpKind>,
    context: int,
    s: Progress,
    kind: OpKind,
    len: int,
) -> (t: Progress)
    requires
        progress_ok(rows, context, s),
        s.open,
        s.gap > 2 * context,
        kind != OpKind::Equal,
        0 < len,
        s.p + len <= rows.len(),
        forall|k: int| s.p <= k < s.p + len ==> rows[k] == kind,
        s.b_pos + before_rows(kind, len) <= usize::MAX,
        s.a_pos + after_rows(kind, len) <= usize::MAX,
    ensures
        progress_ok(rows, context, t),
        s.gap <= s.b_pos,
        s.gap <= s.a_pos,
        ({
            let closing = with_context(
                s.cur,
                s.b_pos - s.gap + context,
                s.a_pos - s.gap + context,
                context,
            );
            let opening = with_context(Seq::empty(), s.b_pos, s.a_pos, context);
            &&& s.cur.len() > 0 && s.cur.last().kind == OpKind::Equal ==> s.cur.last().len + context
                <= usize::MAX
            &&& closing.len() > 0
            &&& closing[0].before_start <= closing.last().before_end() <= usize::MAX
            &&& closing[0].after_start <= closing.last().after_end() <= usize::MAX
            &&& opening.len() > 0 && opening.last().kind == kind ==> opening.last().len + len
                <= usize::MAX
            &&& t == (Progress {
                p: s.p + len,
                gap: 0,
                b_pos: s.b_pos + before_rows(kind, len),
                a_pos: s.a_pos + after_rows(kind, len),
                lo: s.p - context,
                done: s.done.push((s.lo, s.p - s.gap + context)),
                cur: append_run(opening, kind, s.b_pos, s.a_pos, len),
                hunks: s.hunks.push(hunk_of_ops(closing)),
                ..s
            })
        }),
{
    reveal(progress_ok);
    lemma_count_bounds(rows.take(s.p));
    lemma_count_bounds(rows.take(s.p + len));
    let hi = s.p - s.gap + context;
    let lo2 = s.p - context;
    lemma_next_change_splits(rows, context, s.lo, s.p, s.gap, len);
    lemma_count_equal_rows(rows, s.p - s.gap, hi);
    lemma_count_equal_rows(rows, lo2, s.p);
    let closing = with_context(s.cur, s.b_pos - s.gap + context, s.a_pos - s.gap + context, context);
    if context > 0 {
        lemma_encodes_more(rows, s.lo, s.p - s.gap, s.cur, OpKind::Equal, context);
    } else {
        assert(encodes(rows, s.lo, hi, closing));
    }
    lemma_encodes_hunk(rows, s.lo, hi, closing);
    lemma_hunks_at_push(rows, s.done, s.lo, hi);
    let opening = with_context(Seq::empty(), s.b_pos, s.a_pos, context);
    lemma_encodes_nothing(rows, lo2);
    if context > 0 {
        lemma_encodes_more(rows, lo2, lo2, Seq::empty(), OpKind::Equal, context);
    }
    lemma_read_change_common(rows, lo2, s.p, opening, kind, len);
    let t = Progress {
        p: s.p + len,
        gap: 0,
        b_pos: s.b_pos + before_rows(kind, len),
        a_pos: s.a_pos + after_rows(kind, len),
        lo: lo2,
        done: s.done.push((s.lo, hi)),
        cur: append_run(opening, kind, s.b_pos, s.a_pos, len),
        hunks: s.hunks.push(hunk_of_ops(closing)),
        ..s
    };
    assert(is_change(rows, t.p - 1));
    assert(t.done + spans_from(rows, context, lo2) =~= s.done + (seq![(s.lo, hi)] + spans_from(
        rows,
        context,
        lo2,
    )));
    t
}

/// The builder at the end of the script: the hunk being collected, if
/// there is one, is the last.
pub proof fn lemma_read_end(rows: Seq<OpKind>, context: int, s: Progress)
    requires
        progress_ok(rows, context, s),
        s.p == rows.len(),
    ensures
        s.gap <= s.b_pos,
        s.gap <= s.a_pos,
        !s.open ==> s.hunks == hunks_at(rows, spans_from(rows, context, 0)),
        s.open ==> ({
            let trail = least(s.gap, context);
            let closing = with_context(
                s.cur,
                s.b_pos - s.gap + trail,
                s.a_pos - s.gap + trail,
                trail,
            );
            &&& s.cur.len() > 0 && s.cur.last().kind == OpKind::Equal ==> s.cur.last().len + trail
                <= usize::MAX
            &&& closing.len() > 0
            &&& closing[0].before_start <= closing.last().before_end() <= usize::MAX
            &&& closing[0].after_start <= closing.last().after_end() <= usize::MAX
            &&& s.hunks.push(hunk_of_ops(closing)) == hunks_at(
                rows,
                spans_from(rows, context, 0),
            )
        }),
{
    reveal(progress_ok);
    if s.open {
        let trail = least(s.gap, context);
        let hi = s.p - s.gap + trail;
        let closing = with_context(s.cur, s.b_pos - s.gap + trail, s.a_pos - s.gap + trail, trail);
        lemma_last_span(rows, context, s.lo, s.gap, trail);
        lemma_count_equal_rows(rows, s.p - s.gap, hi);
        if trail > 0 {
            lemma_encodes_more(rows, s.lo, s.p - s.gap, s.cur, OpKind::Equal, trail);
        } else {
            assert(encodes(rows, s.lo, hi, closing));
        }
        lemma_encodes_hunk(rows, s.lo, hi, closing);
        lemma_hunks_at_push(rows, s.done, s.lo, hi);
        assert(s.done.push((s.lo, hi)) =~= s.done + seq![(s.lo, hi)]);
    } else {
        lemma_no_change_no_span(rows, context);
        assert(s.done =~= spans_from(rows, context, 0));
    }
}

} // verus!
