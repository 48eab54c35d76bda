//! Hunks: the changed stretches of an edit script with their context.
//!
//! A row of the script is shown when a changed row stands at most `context`
//! rows away from it.  A hunk is a maximal run of shown rows.  Two changes
//! with at most twice the context between them therefore share a hunk, and a
//! script without changes has no hunk.

use crate::hunk_laws::{lemma_hunk_is_hunk, lemma_hunks_within};
use crate::progress::{
    lemma_hunk_views_push, lemma_progress_start, lemma_read_end, lemma_read_equal,
    lemma_read_far_change, lemma_read_first_change, lemma_read_near_change, lemma_script_step,
    progress_ok,
};
use crate::rows::{after_count, append_run, before_count, encode, rows};
use crate::script::{chain_after_end, chain_before_end, chained, EditOp, OpKind};
use vstd::prelude::*;

verus! {

/// Row `c` exists and is a deletion or an insertion.
pub open spec fn is_change(rows: Seq<OpKind>, c: int) -> bool {
    0 <= c < rows.len() && rows[c] != OpKind::Equal
}

/// A changed row stands at most `context` rows away from row `k`.
#[verifier::opaque]
pub open spec fn near_change(rows: Seq<OpKind>, context: int, k: int) -> bool {
    exists|c: int| #[trigger] is_change(rows, c) && k - context <= c <= k + context
}

/// The first row from `k` on that is not shown, or the number of rows.
pub open spec fn shown_end(rows: Seq<OpKind>, context: int, k: int) -> int
    decreases rows.len() - k,
{
    if 0 <= k < rows.len() && near_change(rows, context, k) {
        shown_end(rows, context, k + 1)
    } else {
        k
    }
}

/// The maximal runs of shown rows from row `k` on, each as the pair of its
/// first row and the row behind its last.
pub open spec fn spans_from(rows: Seq<OpKind>, context: int, k: int) -> Seq<(int, int)>
    decreases rows.len() - k,
    via spans_from_decreases
{
    if k < 0 || k >= rows.len() {
        Seq::empty()
    } else if !near_change(rows, context, k) {
        spans_from(rows, context, k + 1)
    } else {
        seq![(k, shown_end(rows, context, k))] + spans_from(
            rows,
            context,
            shown_end(rows, context, k),
        )
    }
}

#[via_fn]
proof fn spans_from_decreases(rows: Seq<OpKind>, context: int, k: int) {
    if 0 <= k < rows.len() && near_change(rows, context, k) {
        lemma_shown_end_bounds(rows, context, k + 1);
    }
}

/// The end of a run lies between its start and the number of rows.
pub proof fn lemma_shown_end_bounds(rows: Seq<OpKind>, context: int, k: int)
    requires
        0 <= k <= rows.len(),
    ensures
        k <= shown_end(rows, context, k) <= rows.len(),
    decreases rows.len() - k,
{
    if k < rows.len() && near_change(rows, context, k) {
        lemma_shown_end_bounds(rows, context, k + 1);
    }
}

/// A line number as a hunk header gives it: lines are counted from 1, and a
/// side of the hunk that covers no line names the line before it.
pub open spec fn line_number(index: int, count: int) -> int {
    if count == 0 {
        index
    } else {
        index + 1
    }
}

/// A hunk, as a mathematical value.
pub struct HunkView {
    pub before_start: int,
    pub before_count: int,
    pub after_start: int,
    pub after_count: int,
    pub ops: Seq<EditOp>,
}

/// A hunk: consecutive operations of an edit script, the unchanged ones cut
/// down to the context, with the line number of the first line and the
/// number of lines that it covers on each side.
#[derive(Clone, Debug, PartialEq, Eq)]
pub struct Hunk {
    /// Line number, counted from 1, of the first before-line of the hunk;
    /// where the hunk covers no before-line, the number of the line before
    /// it.
    pub before_start: usize,
    /// Number of before-lines that the hunk covers.
    pub before_count: usize,
    /// Line number of the first after-line, in the same way.
    pub after_start: usize,
    /// Number of after-lines that the hunk covers.
    pub after_count: usize,
    /// The operations of the hunk, with positions counted from 0.
    pub ops: Vec<EditOp>,
}

impl View for Hunk {
    type V = HunkView;

    open spec fn view(&self) -> HunkView {
        HunkView {
            before_start: self.before_start as int,
            before_count: self.before_count as int,
            after_start: self.after_start as int,
            after_count: self.after_count as int,
            ops: self.ops@,
        }
    }
}

/// The values of a vector of hunks.
pub open spec fn hunk_views(hunks: Seq<Hunk>) -> Seq<HunkView> {
    Seq::new(hunks.len(), |i: int| hunks[i]@)
}

/// The hunk that shows the rows from `lo` up to `hi`: its operations are the
/// run-length encoding of those rows, placed where the rows above them end.
pub open spec fn hunk_at(rows: Seq<OpKind>, lo: int, hi: int) -> HunkView {
    let b0 = before_count(rows.take(lo));
    let a0 = after_count(rows.take(lo));
    let body = rows.subrange(lo, hi);
    HunkView {
        before_start: line_number(b0, before_count(body)),
        before_count: before_count(body),
        after_start: line_number(a0, after_count(body)),
        after_count: after_count(body),
        ops: encode(body, b0, a0),
    }
}

/// The hunks of the given spans, in order.
pub open spec fn hunks_at(rows: Seq<OpKind>, spans: Seq<(int, int)>) -> Seq<HunkView> {
    Seq::new(spans.len(), |i: int| hunk_at(rows, spans[i].0, spans[i].1))
}

/// The hunks of an edit script for a context size.
pub open spec fn hunks_of(script: Seq<EditOp>, context: int) -> Seq<HunkView> {
    hunks_at(rows(script), spans_from(rows(script), context, 0))
}

/// Every operation reads lines that exist: it lies within `before_len`
/// before-lines and `after_len` after-lines.
pub open spec fn ops_within(ops: Seq<EditOp>, before_len: int, after_len: int) -> bool {
    forall|i: int|
        0 <= i < ops.len() ==> (#[trigger] ops[i]).before_end() <= before_len
            && ops[i].after_end() <= after_len
}

/// Every hunk reads lines that exist.
pub open spec fn hunks_within(hunks: Seq<HunkView>, before_len: int, after_len: int) -> bool {
    forall|i: int| 0 <= i < hunks.len() ==> ops_within((#[trigger] hunks[i]).ops, before_len, after_len)
}

/// Tells whether every hunk lies within `before_len` before-lines and
/// `after_len` after-lines.
pub fn hunks_fit(hunks: &Vec<Hunk>, before_len: usize, after_len: usize) -> (fit: bool)
    ensures
        fit == hunks_within(hunk_views(hunks@), before_len as int, after_len as int),
{
    let ghost views = hunk_views(hunks@);
    let mut i: usize = 0;
    while i < hunks.len()
        invariant
            0 <= i <= hunks.len(),
            views == hunk_views(hunks@),
            forall|j: int|
                0 <= j < i ==> ops_within(
                    (#[trigger] views[j]).ops,
                    before_len as int,
                    after_len as int,
                ),
        decreases hunks.len() - i,
    {
        let hunk = &hunks[i];
        assert(views[i as int].ops == hunk.ops@);
        let mut k: usize = 0;
        while k < hunk.ops.len()
            invariant
                0 <= k <= hunk.ops.len(),
                0 <= i < hunks.len(),
                views == hunk_views(hunks@),
                views[i as int].ops == hunk.ops@,
                forall|j: int|
                    0 <= j < k ==> (#[trigger] hunk.ops@[j]).before_end() <= before_len
                        && hunk.ops@[j].after_end() <= after_len,
            decreases hunk.ops.len() - k,
        {
            let op = hunk.ops[k];
            let before_rows = match op.kind {
                OpKind::Insert => 0,
                _ => op.len,
            };
            let after_rows = match op.kind {
                OpKind::Delete => 0,
                _ => op.len,
            };
            if op.before_start > before_len || before_rows > before_len - op.before_start
                || op.after_start > after_len || after_rows > after_len - op.after_start {
                assert(!ops_within(views[i as int].ops, before_len as int, after_len as int));
                return false;
            }
            k += 1;
        }
        i += 1;
    }
    true
}

/// The hunk that is made of operations: the header numbers are read off
/// the first and the last operation.
pub open spec fn hunk_of_ops(ops: Seq<EditOp>) -> HunkView {
    let before_count = ops.last().before_end() - ops[0].before_start;
    let after_count = ops.last().after_end() - ops[0].after_start;
    HunkView {
        before_start: line_number(ops[0].before_start as int, before_count),
        before_count,
        after_start: line_number(ops[0].after_start as int, after_count),
        after_count,
        ops,
    }
}

/// A hunk is well formed when it has operations, they follow one another,
/// and its header says what they cover.
pub open spec fn is_hunk(hunk: HunkView) -> bool {
    &&& hunk.ops.len() > 0
    &&& chained(hunk.ops, hunk.ops[0].before_start as int, hunk.ops[0].after_start as int)
    &&& hunk == hunk_of_ops(hunk.ops)
}

/// Appends `len` rows of `kind` to the operations: the last operation grows
/// where it has that kind, else a new one is pushed.
fn push_run(ops: &mut Vec<EditOp>, kind: OpKind, before_start: usize, after_start: usize, len: usize)
    requires
        old(ops)@.len() > 0 && old(ops)@.last().kind == kind ==> old(ops)@.last().len + len
            <= usize::MAX,
    ensures
        final(ops)@ == append_run(
            old(ops)@,
            kind,
            before_start as int,
            after_start as int,
            len as int,
        ),
{
    let n = ops.len();
    if n > 0 && ops[n - 1].kind == kind {
        let last = ops[n - 1];
        ops.set(
            n - 1,
            EditOp {
                kind,
                before_start: last.before_start,
                after_start: last.after_start,
                len: last.len + len,
            },
        );
    } else {
        ops.push(EditOp { kind, before_start, after_start, len });
    }
}

/// Makes a hunk of its operations.
fn finish_hunk(ops: Vec<EditOp>) -> (hunk: Hunk)
    requires
        ops@.len() > 0,
        ops@[0].before_start <= ops@.last().before_end() <= usize::MAX,
        ops@[0].after_start <= ops@.last().after_end() <= usize::MAX,
    ensures
        hunk@ == hunk_of_ops(ops@),
{
    let first = ops[0];
    let last = ops[ops.len() - 1];
    let before_end = match last.kind {
        OpKind::Insert => last.before_start,
        _ => last.before_start + last.len,
    };
    let after_end = match last.kind {
        OpKind::Delete => last.after_start,
        _ => last.after_start + last.len,
    };
    let before_count = before_end - first.before_start;
    let after_count = after_end - first.after_start;
    let before_start = if before_count == 0 {
        first.before_start
    } else {
        first.before_start + 1
    };
    let after_start = if after_count == 0 {
        first.after_start
    } else {
        first.after_start + 1
    };
    Hunk { before_start, before_count, after_start, after_count, ops }
}

/// The hunk builder.  Groups the changes of an edit script, each with up to
/// `context` unchanged lines on either side, into hunks.  The operations of
/// the script have to follow one another from the first line of both sides
/// on, as `covers_lines` tests.
pub fn build_hunks(script: &Vec<EditOp>, context: usize) -> (hunks: Vec<Hunk>)
    requires
        chained(script@, 0, 0),
    ensures
        hunk_views(hunks@) == hunks_of(script@, context as int),
        hunks_within(
            hunk_views(hunks@),
            chain_before_end(script@, 0),
            chain_after_end(script@, 0),
        ),
        forall|i: int| 0 <= i < hunks@.len() ==> is_hunk(#[trigger] hunks@[i]@),
{
    let ghost r = rows(script@);
    let ghost n = context as int;
    let mut hunks: Vec<Hunk> = Vec::new();
    let mut cur: Vec<EditOp> = Vec::new();
    let mut open = false;
    let mut gap: usize = 0;
    let mut b_pos: usize = 0;
    let mut a_pos: usize = 0;
    let ghost mut s = lemma_progress_start(r, n);
    let mut i: usize = 0;
    proof {
        assert(script@.take(0) =~= Seq::<EditOp>::empty());
        assert(r.take(0) =~= Seq::<OpKind>::empty());
        assert(hunk_views(hunks@) =~= s.hunks);
    }
    while i < script.len()
        invariant
            0 <= i <= script.len(),
            chained(script@, 0, 0),
            r == rows(script@),
            n == context as int,
            progress_ok(r, n, s),
            0 <= s.p <= r.len(),
            rows(script@.take(i as int)) == r.take(s.p),
            s.b_pos == before_count(r.take(s.p)),
            s.a_pos == after_count(r.take(s.p)),
            s.open == open,
            s.gap == gap,
            s.b_pos == b_pos,
            s.a_pos == a_pos,
            s.cur == cur@,
            s.hunks == hunk_views(hunks@),
        decreases script.len() - i,
    {
        let op = script[i];
        proof {
            lemma_script_step(script@, i as int, s.p);
        }
        if op.len > 0 {
            match op.kind {
                OpKind::Equal => {
                    proof {
                        s = lemma_read_equal(r, n, s, op.len as int);
                    }
                    gap = gap + op.len;
                    b_pos = b_pos + op.len;
                    a_pos = a_pos + op.len;
                },
                _ => {
                    if !open {
                        let lead = if gap < context {
                            gap
                        } else {
                            context
                        };
                        proof {
                            s = lemma_read_first_change(r, n, s, op.kind, op.len as int);
                        }
                        if lead > 0 {
                            push_run(&mut cur, OpKind::Equal, b_pos - lead, a_pos - lead, lead);
                        }
                        open = true;
                    } else if gap > context && gap - context > context {
                        let ghost t = lemma_read_far_change(r, n, s, op.kind, op.len as int);
                        if context > 0 {
                            push_run(&mut cur, OpKind::Equal, b_pos - gap, a_pos - gap, context);
                        }
                        let hunk = finish_hunk(cur);
                        proof {
                            lemma_hunk_views_push(hunks@, hunk);
                        }
                        hunks.push(hunk);
                        cur = Vec::new();
                        if context > 0 {
                            push_run(
                                &mut cur,
                                OpKind::Equal,
                                b_pos - context,
                                a_pos - context,
                                context,
                            );
                        }
                        proof {
                            s = t;
                        }
                    } else {
                        proof {
                            s = lemma_read_near_change(r, n, s, op.kind, op.len as int);
                        }
                        if gap > 0 {
                            push_run(&mut cur, OpKind::Equal, b_pos - gap, a_pos - gap, gap);
                        }
                    }
                    push_run(&mut cur, op.kind, b_pos, a_pos, op.len);
                    gap = 0;
                    match op.kind {
                        OpKind::Delete => {
                            b_pos = b_pos + op.len;
                        },
                        _ => {
                            a_pos = a_pos + op.len;
                        },
                    }
                },
            }
        }
        i += 1;
    }
    proof {
        assert(script@.take(script@.len() as int) =~= script@);
        assert(s.p == r.len());
        lemma_read_end(r, n, s);
    }
    if open {
        let trail = if gap < context {
            gap
        } else {
            context
        };
        if trail > 0 {
            push_run(&mut cur, OpKind::Equal, b_pos - gap, a_pos - gap, trail);
        }
        let hunk = finish_hunk(cur);
        proof {
            lemma_hunk_views_push(hunks@, hunk);
        }
        hunks.push(hunk);
    }
    proof {
        lemma_hunks_within(script@, n);
        assert forall|i: int| 0 <= i < hunks@.len() implies is_hunk(#[trigger] hunks@[i]@) by {
            assert(hunks@[i]@ == hunk_views(hunks@)[i]);
            lemma_hunk_is_hunk(script@, n, i);
        }
    }
    hunks
}

} // verus!
