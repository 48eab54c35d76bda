//! What holds of the hunks of every edit script.

use crate::hunks::{
    hunk_at, hunks_of, hunks_within, is_change, is_hunk, line_number, near_change, ops_within,
    shown_end, spans_from, HunkView,
};
use crate::rows::{
    after_count, before_count, lemma_chain_counts, lemma_count_bounds, lemma_count_concat,
    lemma_count_equal_rows, lemma_encode_chained, rows,
};
use crate::script::{
    chain_after_end, chain_before_end, chained, lemma_chain_monotone, lemma_chained_prefix, EditOp,
    OpKind,
};
use crate::spans::{lemma_no_change_no_span, lemma_shown_end_props, lemma_span_props};
use vstd::prelude::*;

verus! {

/// The span of hunk `i` of a script.
pub open spec fn span_of(script: Seq<EditOp>, context: int, i: int) -> (int, int) {
    spans_from(rows(script), context, 0)[i]
}

/// The shape of a hunk.  Hunk `i` of a script shows the rows of its span:
/// its operations are a chain that is not empty, the rows of its
/// operations are the rows of the span, and its header counts the lines
/// of those rows and names the first of them on each side.
pub proof fn lemma_hunk_shape(script: Seq<EditOp>, context: int, i: int)
    requires
        chained(script, 0, 0),
        0 <= i < hunks_of(script, context).len(),
    ensures
        ({
            let hunk = hunks_of(script, context)[i];
            let (lo, hi) = span_of(script, context, i);
            let b0 = before_count(rows(script).take(lo));
            let a0 = after_count(rows(script).take(lo));
            &&& 0 <= lo < hi <= rows(script).len()
            &&& hunk == hunk_at(rows(script), lo, hi)
            &&& hunk.ops.len() > 0
            &&& chained(hunk.ops, b0, a0)
            &&& rows(hunk.ops) == rows(script).subrange(lo, hi)
            &&& hunk.before_count == chain_before_end(hunk.ops, b0) - b0
            &&& hunk.after_count == chain_after_end(hunk.ops, a0) - a0
            &&& hunk.before_start == line_number(b0, hunk.before_count)
            &&& hunk.after_start == line_number(a0, hunk.after_count)
            &&& 0 <= b0
            &&& 0 <= a0
            &&& b0 + hunk.before_count == before_count(rows(script).take(hi))
            &&& a0 + hunk.after_count == after_count(rows(script).take(hi))
            &&& b0 + hunk.before_count <= chain_before_end(script, 0)
            &&& a0 + hunk.after_count <= chain_after_end(script, 0)
        }),
{
    let r = rows(script);
    let spans = spans_from(r, context, 0);
    lemma_span_props(r, context, 0, i);
    let lo = spans[i].0;
    let hi = spans[i].1;
    let body = r.subrange(lo, hi);
    let b0 = before_count(r.take(lo));
    let a0 = after_count(r.take(lo));
    lemma_chain_counts(script, 0, 0);
    lemma_chained_prefix(script, 0, 0, script.len() as int);
    assert(r =~= r.take(hi) + r.skip(hi));
    assert(r.take(hi) =~= r.take(lo) + body);
    lemma_count_concat(r.take(hi), r.skip(hi));
    lemma_count_concat(r.take(lo), body);
    lemma_count_bounds(r.take(lo));
    lemma_count_bounds(body);
    lemma_count_bounds(r.skip(hi));
    if script.len() > 0 {
        assert(script[script.len() - 1].before_end() <= usize::MAX);
    }
    lemma_encode_chained(body, b0, a0);
}

/// Every hunk of a script is well formed.
pub proof fn lemma_hunk_is_hunk(script: Seq<EditOp>, context: int, i: int)
    requires
        chained(script, 0, 0),
        0 <= i < hunks_of(script, context).len(),
    ensures
        is_hunk(hunks_of(script, context)[i]),
{
    lemma_hunk_shape(script, context, i);
}

/// A script whose operations are all `Equal` has no changed row.
pub proof fn lemma_rows_of_kept(script: Seq<EditOp>)
    requires
        forall|i: int| 0 <= i < script.len() ==> (#[trigger] script[i]).kind == OpKind::Equal,
    ensures
        forall|k: int| 0 <= k < rows(script).len() ==> rows(script)[k] == OpKind::Equal,
    decreases script.len(),
{
    if script.len() > 0 {
        assert forall|i: int| 0 <= i < script.drop_last().len() implies (
        #[trigger] script.drop_last()[i]).kind == OpKind::Equal by {
            assert(script.drop_last()[i] == script[i]);
        }
        lemma_rows_of_kept(script.drop_last());
        assert(script.last() == script[script.len() - 1]);
    }
}

/// A script without a change has no hunk, whatever the context.
pub proof fn lemma_kept_script_has_no_hunk(script: Seq<EditOp>, context: int)
    requires
        forall|i: int| 0 <= i < script.len() ==> (#[trigger] script[i]).kind == OpKind::Equal,
    ensures
        hunks_of(script, context) == Seq::<HunkView>::empty(),
{
    lemma_rows_of_kept(script);
    lemma_no_change_no_span(rows(script), context);
    assert(hunks_of(script, context) =~= Seq::<HunkView>::empty());
}

/// Bounds law.  The hunks of a script hold positions within the lines
/// that the script covers.
pub proof fn lemma_hunks_within(script: Seq<EditOp>, context: int)
    requires
        chained(script, 0, 0),
    ensures
        hunks_within(
            hunks_of(script, context),
            chain_before_end(script, 0),
            chain_after_end(script, 0),
        ),
{
    let hunks = hunks_of(script, context);
    assert forall|i: int| 0 <= i < hunks.len() implies ops_within(
        (#[trigger] hunks[i]).ops,
        chain_before_end(script, 0),
        chain_after_end(script, 0),
    ) by {
        lemma_hunk_shape(script, context, i);
        let (lo, hi) = span_of(script, context, i);
        let b0 = before_count(rows(script).take(lo));
        let a0 = after_count(rows(script).take(lo));
        let ops = hunks[i].ops;
        assert forall|j: int| 0 <= j < ops.len() implies (#[trigger] ops[j]).before_end()
            <= chain_before_end(script, 0) && ops[j].after_end() <= chain_after_end(script, 0) by {
            lemma_chain_monotone(ops, b0, a0, j);
        }
    }
}

/// Context law on rows.  A span begins at most `context` rows above its
/// first change and ends at most `context` rows behind its last change.
/// It has exactly `context` unchanged rows at its head unless it begins
/// at the first row, and exactly `context` unchanged rows at its tail
/// unless it ends at the last row.
pub proof fn lemma_span_context(rows: Seq<OpKind>, context: int, i: int)
    requires
        0 <= context,
        0 <= i < spans_from(rows, context, 0).len(),
    ensures
        ({
            let (lo, hi) = spans_from(rows, context, 0)[i];
            &&& 0 <= lo < hi <= rows.len()
            &&& exists|c: int| lo <= c <= lo + context && c < hi && #[trigger] is_change(rows, c)
            &&& exists|c: int| hi - 1 - context <= c < hi && lo <= c && #[trigger] is_change(rows, c)
            &&& lo > 0 ==> lo + context < hi && forall|j: int|
                lo <= j < lo + context ==> rows[j] == OpKind::Equal
            &&& hi < rows.len() ==> lo < hi - context && forall|j: int|
                hi - context <= j < hi ==> rows[j] == OpKind::Equal
        }),
{
    reveal(near_change);
    let spans = spans_from(rows, context, 0);
    lemma_span_props(rows, context, 0, i);
    let lo = spans[i].0;
    let hi = spans[i].1;
    let floor = if i == 0 {
        0
    } else {
        spans[i - 1].1
    };
    // The first change of the span.
    assert(near_change(rows, context, lo));
    let c1 = choose|c: int| #[trigger] is_change(rows, c) && lo - context <= c <= lo + context;
    if c1 < lo {
        assert(near_change(rows, context, lo - 1));
        assert(false);
    }
    if c1 >= hi {
        assert(near_change(rows, context, hi));
        assert(false);
    }
    // The last change of the span.
    assert(near_change(rows, context, hi - 1));
    let c2 = choose|c: int| #[trigger]
        is_change(rows, c) && hi - 1 - context <= c <= hi - 1 + context;
    if c2 >= hi {
        assert(near_change(rows, context, hi));
        assert(false);
    }
    if c2 < lo {
        assert(near_change(rows, context, lo - 1));
        assert(false);
    }
    if lo > 0 {
        assert(!near_change(rows, context, lo - 1));
        assert forall|j: int| lo <= j < lo + context implies j < hi && rows[j]
            == OpKind::Equal by {
            if j < rows.len() && rows[j] != OpKind::Equal {
                assert(is_change(rows, j));
                assert(false);
            }
            if j >= c1 {
                assert(is_change(rows, c1));
                assert(false);
            }
        }
        if c1 < lo + context {
            assert(is_change(rows, c1));
            assert(false);
        }
    }
    if hi < rows.len() {
        assert(!near_change(rows, context, hi));
        assert forall|j: int| hi - context <= j < hi implies lo <= j && rows[j]
            == OpKind::Equal by {
            if 0 <= j && rows[j] != OpKind::Equal {
                assert(is_change(rows, j));
                assert(false);
            }
            if j <= c2 {
                assert(is_change(rows, c2));
                assert(false);
            }
        }
        if c2 > hi - 1 - context {
            assert(is_change(rows, c2));
            assert(false);
        }
    }
}

/// Context law.  Written out row by row, every hunk has a change among
/// its first `context + 1` rows and a change among its last
/// `context + 1` rows: at most `context` unchanged lines stand on each
/// side of its changes.  A hunk that does not begin at the first line of
/// both sides has exactly `context` unchanged rows at its head; one that
/// does not end at the last line of both sides has exactly `context`
/// unchanged rows at its tail.
pub proof fn lemma_hunk_context(script: Seq<EditOp>, context: int, i: int)
    requires
        chained(script, 0, 0),
        0 <= context,
        0 <= i < hunks_of(script, context).len(),
    ensures
        ({
            let hunk = hunks_of(script, context)[i];
            let shown = rows(hunk.ops);
            &&& exists|c: int| 0 <= c <= context && #[trigger] is_change(shown, c)
            &&& exists|c: int| shown.len() - 1 - context <= c && #[trigger] is_change(shown, c)
            &&& (hunk.ops[0].before_start > 0 || hunk.ops[0].after_start > 0) ==> context
                < shown.len() && forall|j: int| 0 <= j < context ==> shown[j] == OpKind::Equal
            &&& (hunk.ops.last().before_end() < chain_before_end(script, 0)
                || hunk.ops.last().after_end() < chain_after_end(script, 0)) ==> context
                < shown.len() && forall|j: int|
                shown.len() - context <= j < shown.len() ==> shown[j] == OpKind::Equal
        }),
{
    let r = rows(script);
    let hunk = hunks_of(script, context)[i];
    let shown = rows(hunk.ops);
    let (lo, hi) = span_of(script, context, i);
    lemma_hunk_shape(script, context, i);
    lemma_span_context(r, context, i);
    let c1 = choose|c: int| lo <= c <= lo + context && c < hi && #[trigger] is_change(r, c);
    assert(shown[c1 - lo] == r[c1]);
    assert(is_change(shown, c1 - lo));
    let c2 = choose|c: int| hi - 1 - context <= c < hi && lo <= c && #[trigger] is_change(r, c);
    assert(shown[c2 - lo] == r[c2]);
    assert(is_change(shown, c2 - lo));
    if lo == 0 {
        assert(r.take(0) =~= Seq::<OpKind>::empty());
    } else {
        assert forall|j: int| 0 <= j < context implies shown[j] == OpKind::Equal by {
            assert(shown[j] == r[lo + j]);
        }
    }
    if hi == r.len() {
        assert(r.take(hi) =~= r);
        lemma_chain_counts(script, 0, 0);
    } else {
        assert forall|j: int| shown.len() - context <= j < shown.len() implies shown[j]
            == OpKind::Equal by {
            assert(shown[j] == r[lo + j]);
        }
    }
}

/// The rows between two spans that follow one another are unchanged, and
/// there is at least one of them.
pub proof fn lemma_rows_between_spans(rows: Seq<OpKind>, context: int, i: int)
    requires
        0 <= context,
        0 <= i,
        i + 1 < spans_from(rows, context, 0).len(),
    ensures
        ({
            let hi = spans_from(rows, context, 0)[i].1;
            let lo = spans_from(rows, context, 0)[i + 1].0;
            &&& 0 <= hi < lo <= rows.len()
            &&& forall|j: int| hi <= j < lo ==> rows[j] == OpKind::Equal
        }),
{
    reveal(near_change);
    let spans = spans_from(rows, context, 0);
    lemma_span_props(rows, context, 0, i);
    lemma_span_props(rows, context, 0, i + 1);
    let hi = spans[i].1;
    let lo = spans[i + 1].0;
    assert forall|j: int| hi <= j < lo implies rows[j] == OpKind::Equal by {
        if rows[j] != OpKind::Equal {
            assert(is_change(rows, j));
            assert(near_change(rows, context, j));
        }
    }
}

/// Order law.  The hunks of a script follow one another without sharing a
/// line: on both sides a hunk ends before the line at which the next hunk
/// begins, with at least one line between them that neither shows.
pub proof fn lemma_hunks_ordered(script: Seq<EditOp>, context: int, i: int)
    requires
        chained(script, 0, 0),
        0 <= context,
        0 <= i,
        i + 1 < hunks_of(script, context).len(),
    ensures
        hunks_of(script, context)[i].ops.last().before_end() < hunks_of(script, context)[i
            + 1].ops[0].before_start,
        hunks_of(script, context)[i].ops.last().after_end() < hunks_of(script, context)[i
            + 1].ops[0].after_start,
{
    let r = rows(script);
    let hi = span_of(script, context, i).1;
    let lo = span_of(script, context, i + 1).0;
    lemma_rows_between_spans(r, context, i);
    lemma_count_equal_rows(r, hi, lo);
    let hunk = hunks_of(script, context)[i];
    let next = hunks_of(script, context)[i + 1];
    assert(hunk.ops.last().before_end() == before_count(r.take(hi)) && hunk.ops.last().after_end()
        == after_count(r.take(hi))) by {
        lemma_hunk_shape(script, context, i);
    }
    assert(next.ops[0].before_start == before_count(r.take(lo)) && next.ops[0].after_start
        == after_count(r.take(lo))) by {
        lemma_hunk_shape(script, context, i + 1);
    }
}

/// Merging rule.  Two changes with at most twice the context of rows
/// between them are shown together with every row between them, so they
/// lie in one hunk.
pub proof fn lemma_close_changes_are_joined(rows: Seq<OpKind>, context: int, c1: int, c2: int)
    requires
        0 <= context,
        is_change(rows, c1),
        is_change(rows, c2),
        c1 < c2,
        c2 - c1 - 1 <= 2 * context,
    ensures
        forall|k: int| c1 <= k <= c2 ==> near_change(rows, context, k),
{
    reveal(near_change);
    assert forall|k: int| c1 <= k <= c2 implies near_change(rows, context, k) by {
        if k - c1 <= context {
            assert(is_change(rows, c1));
        } else {
            assert(is_change(rows, c2));
        }
    }
}

/// Splitting rule.  Two changes with more than twice the context of
/// unchanged rows between them are parted by a hidden row, so they lie in
/// different hunks.
pub proof fn lemma_distant_changes_are_parted(rows: Seq<OpKind>, context: int, c1: int, c2: int)
    requires
        0 <= context,
        is_change(rows, c1),
        is_change(rows, c2),
        c1 < c2,
        forall|k: int| c1 < k < c2 ==> rows[k] == OpKind::Equal,
        c2 - c1 - 1 > 2 * context,
    ensures
        !near_change(rows, context, c1 + context + 1),
        c1 < c1 + context + 1 < c2,
{
    reveal(near_change);
    let k = c1 + context + 1;
    assert forall|c: int| !(#[trigger] is_change(rows, c) && k - context <= c <= k + context) by {
        if c1 < c < c2 {
            assert(rows[c] == OpKind::Equal);
        }
    }
}

/// Every shown row from row `k` on lies in one of the spans from `k` on.
pub proof fn lemma_shown_row_is_in_span(rows: Seq<OpKind>, context: int, k: int, j: int)
    requires
        0 <= k <= j < rows.len(),
        near_change(rows, context, j),
    ensures
        exists|i: int|
            0 <= i < spans_from(rows, context, k).len() && (#[trigger] spans_from(
                rows,
                context,
                k,
            )[i]).0 <= j < spans_from(rows, context, k)[i].1,
    decreases rows.len() - k,
{
    let spans = spans_from(rows, context, k);
    if !near_change(rows, context, k) {
        lemma_shown_row_is_in_span(rows, context, k + 1, j);
    } else {
        let e = shown_end(rows, context, k);
        lemma_shown_end_props(rows, context, k);
        if j < e {
            assert(spans[0] == (k, e));
        } else {
            lemma_shown_row_is_in_span(rows, context, e, j);
            let rest = spans_from(rows, context, e);
            let i = choose|i: int| 0 <= i < rest.len() && (#[trigger] rest[i]).0 <= j < rest[i].1;
            assert(spans[i + 1] == rest[i]);
        }
    }
}

/// Completeness law.  Every changed row of a script lies in one of its
/// hunks' spans: no deletion and no insertion is left out of the diff.
pub proof fn lemma_every_change_is_shown(script: Seq<EditOp>, context: int, c: int)
    requires
        0 <= context,
        is_change(rows(script), c),
    ensures
        exists|i: int|
            0 <= i < hunks_of(script, context).len() && (#[trigger] span_of(script, context, i)).0
                <= c < span_of(script, context, i).1,
{
    let r = rows(script);
    assert(near_change(r, context, c)) by {
        reveal(near_change);
        assert(is_change(r, c));
    }
    lemma_shown_row_is_in_span(r, context, 0, c);
    let spans = spans_from(r, context, 0);
    let i = choose|i: int| 0 <= i < spans.len() && (#[trigger] spans[i]).0 <= c < spans[i].1;
    assert(span_of(script, context, i) == spans[i]);
}

} // verus!
