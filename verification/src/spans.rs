//! Where the spans of shown rows lie.

use crate::hunks::{is_change, near_change, shown_end, spans_from};
use crate::script::OpKind;
use vstd::prelude::*;

verus! {

/// Rows that are not shown belong to no span.
pub proof fn lemma_skip_hidden(rows: Seq<OpKind>, context: int, a: int, b: int)
    requires
        0 <= a <= b <= rows.len(),
        forall|k: int| a <= k < b ==> !near_change(rows, context, k),
    ensures
        spans_from(rows, context, a) == spans_from(rows, context, b),
    decreases b - a,
{
    if a < b {
        lemma_skip_hidden(rows, context, a + 1, b);
    }
}

/// A stretch of shown rows that ends at a hidden row, or at the last row, is
/// a maximal run.
pub proof fn lemma_shown_run(rows: Seq<OpKind>, context: int, lo: int, hi: int)
    requires
        0 <= lo <= hi <= rows.len(),
        forall|k: int| lo <= k < hi ==> near_change(rows, context, k),
        hi == rows.len() || !near_change(rows, context, hi),
    ensures
        shown_end(rows, context, lo) == hi,
    decreases hi - lo,
{
    if lo < hi {
        lemma_shown_run(rows, context, lo + 1, hi);
    }
}

/// The span that begins at a shown row is the first span from there on.
pub proof fn lemma_first_span(rows: Seq<OpKind>, context: int, lo: int, hi: int)
    requires
        0 <= lo < hi <= rows.len(),
        forall|k: int| lo <= k < hi ==> near_change(rows, context, k),
        hi == rows.len() || !near_change(rows, context, hi),
    ensures
        spans_from(rows, context, lo) == seq![(lo, hi)] + spans_from(rows, context, hi),
{
    lemma_shown_run(rows, context, lo, hi);
}

/// Rows without a change have no span.
pub proof fn lemma_no_change_no_span(rows: Seq<OpKind>, context: int)
    requires
        forall|k: int| 0 <= k < rows.len() ==> rows[k] == OpKind::Equal,
    ensures
        spans_from(rows, context, 0) == Seq::<(int, int)>::empty(),
{
    reveal(near_change);
    assert forall|k: int| 0 <= k < rows.len() implies !near_change(rows, context, k) by {
        assert forall|c: int| !(#[trigger] is_change(rows, c) && k - context <= c <= k + context) by {
            if 0 <= c < rows.len() {
                assert(rows[c] == OpKind::Equal);
            }
        }
    }
    lemma_skip_hidden(rows, context, 0, rows.len() as int);
}

/// The first change of a script opens the first span, which begins
/// `lead` rows above it: the context, or fewer rows where the script begins
/// closer than that.
pub proof fn lemma_first_change(rows: Seq<OpKind>, context: int, p: int, len: int, lead: int)
    requires
        0 <= context,
        0 <= p,
        0 < len,
        p + len <= rows.len(),
        forall|k: int| 0 <= k < p ==> rows[k] == OpKind::Equal,
        forall|k: int| p <= k < p + len ==> rows[k] != OpKind::Equal,
        lead == if p < context {
            p
        } else {
            context
        },
    ensures
        spans_from(rows, context, 0) == spans_from(rows, context, p - lead),
        forall|k: int| p - lead <= k < p + len ==> near_change(rows, context, k),
{
    reveal(near_change);
    assert forall|k: int| 0 <= k < p - lead implies !near_change(rows, context, k) by {
        assert forall|c: int| !(#[trigger] is_change(rows, c) && k - context <= c <= k + context) by {
            if 0 <= c < p {
                assert(rows[c] == OpKind::Equal);
            }
        }
    }
    lemma_skip_hidden(rows, context, 0, p - lead);
    assert forall|k: int| p - lead <= k < p + len implies near_change(rows, context, k) by {
        if k < p {
            assert(is_change(rows, p));
        } else {
            assert(is_change(rows, k));
        }
    }
}

/// A change that follows the last one after at most twice the context of
/// unchanged rows continues the open span.
pub proof fn lemma_next_change_merges(
    rows: Seq<OpKind>,
    context: int,
    lo: int,
    p: int,
    gap: int,
    len: int,
)
    requires
        0 <= context,
        0 <= gap <= 2 * context,
        0 <= lo < p - gap,
        0 < len,
        p + len <= rows.len(),
        is_change(rows, p - gap - 1),
        forall|k: int| p <= k < p + len ==> rows[k] != OpKind::Equal,
        forall|k: int| lo <= k < p - gap ==> near_change(rows, context, k),
    ensures
        forall|k: int| lo <= k < p + len ==> near_change(rows, context, k),
{
    reveal(near_change);
    assert forall|k: int| lo <= k < p + len implies near_change(rows, context, k) by {
        if k < p - gap {
        } else if k < p {
            if k - (p - gap - 1) <= context {
                assert(is_change(rows, p - gap - 1));
            } else {
                assert(is_change(rows, p));
            }
        } else {
            assert(is_change(rows, k));
        }
    }
}

/// A change that follows the last one after more than twice the context of
/// unchanged rows closes the open span behind the context of the last
/// change and opens the next span at the context of the new one.
pub proof fn lemma_next_change_splits(
    rows: Seq<OpKind>,
    context: int,
    lo: int,
    p: int,
    gap: int,
    len: int,
)
    requires
        0 <= context,
        2 * context < gap,
        0 <= lo < p - gap,
        0 < len,
        p + len <= rows.len(),
        is_change(rows, p - gap - 1),
        forall|k: int| p - gap <= k < p ==> rows[k] == OpKind::Equal,
        forall|k: int| p <= k < p + len ==> rows[k] != OpKind::Equal,
        forall|k: int| lo <= k < p - gap ==> near_change(rows, context, k),
    ensures
        spans_from(rows, context, lo) == seq![(lo, p - gap + context)] + spans_from(
            rows,
            context,
            p - context,
        ),
        forall|k: int| p - context <= k < p + len ==> near_change(rows, context, k),
{
    reveal(near_change);
    let hi = p - gap + context;
    assert forall|k: int| lo <= k < hi implies near_change(rows, context, k) by {
        if k >= p - gap {
            assert(is_change(rows, p - gap - 1));
        }
    }
    assert forall|k: int| hi <= k < p - context implies !near_change(rows, context, k) by {
        assert forall|c: int| !(#[trigger] is_change(rows, c) && k - context <= c <= k + context) by {
            if p - gap <= c < p {
                assert(rows[c] == OpKind::Equal);
            }
        }
    }
    lemma_first_span(rows, context, lo, hi);
    lemma_skip_hidden(rows, context, hi, p - context);
    assert forall|k: int| p - context <= k < p + len implies near_change(rows, context, k) by {
        if k < p {
            assert(is_change(rows, p));
        } else {
            assert(is_change(rows, k));
        }
    }
}

/// At the end of the script the open span closes behind the context of
/// the last change, or at the last row where the script ends closer than
/// that.
pub proof fn lemma_last_span(rows: Seq<OpKind>, context: int, lo: int, gap: int, trail: int)
    requires
        0 <= context,
        0 <= gap,
        0 <= lo < rows.len() - gap,
        is_change(rows, rows.len() - gap - 1),
        forall|k: int| rows.len() - gap <= k < rows.len() ==> rows[k] == OpKind::Equal,
        forall|k: int| lo <= k < rows.len() - gap ==> near_change(rows, context, k),
        trail == if gap < context {
            gap
        } else {
            context
        },
    ensures
        spans_from(rows, context, lo) == seq![(lo, rows.len() - gap + trail)],
{
    reveal(near_change);
    let t = rows.len() as int;
    let hi = t - gap + trail;
    assert forall|k: int| lo <= k < hi implies near_change(rows, context, k) by {
        if k >= t - gap {
            assert(is_change(rows, t - gap - 1));
        }
    }
    assert forall|k: int| hi <= k < t implies !near_change(rows, context, k) by {
        assert forall|c: int| !(#[trigger] is_change(rows, c) && k - context <= c <= k + context) by {
            if t - gap <= c < t {
                assert(rows[c] == OpKind::Equal);
            }
        }
    }
    lemma_first_span(rows, context, lo, hi);
    lemma_skip_hidden(rows, context, hi, t);
    assert(spans_from(rows, context, t) =~= Seq::<(int, int)>::empty());
    assert(spans_from(rows, context, lo) =~= seq![(lo, hi)]);
}

/// Where span `i` of the spans from row `k` on lies.  It begins at or
/// behind the end of the span before it (behind row `k` for the first
/// span), it is not empty, all its rows are shown, and the rows between it
/// and the span before it, as well as the row behind it, are hidden.
pub proof fn lemma_span_props(rows: Seq<OpKind>, context: int, k: int, i: int)
    requires
        0 <= k,
        0 <= i < spans_from(rows, context, k).len(),
    ensures
        ({
            let spans = spans_from(rows, context, k);
            let floor = if i == 0 {
                k
            } else {
                spans[i - 1].1
            };
            &&& k <= floor <= spans[i].0 < spans[i].1 <= rows.len()
            &&& i > 0 ==> floor < spans[i].0
            &&& forall|j: int| floor <= j < spans[i].0 ==> !near_change(rows, context, j)
            &&& forall|j: int| spans[i].0 <= j < spans[i].1 ==> near_change(rows, context, j)
            &&& spans[i].1 == rows.len() || !near_change(rows, context, spans[i].1)
        }),
    decreases rows.len() - k, i,
{
    let spans = spans_from(rows, context, k);
    if k >= rows.len() {
    } else if !near_change(rows, context, k) {
        lemma_span_props(rows, context, k + 1, i);
    } else {
        let e = shown_end(rows, context, k);
        lemma_shown_end_props(rows, context, k);
        let rest = spans_from(rows, context, e);
        assert(spans[0] == (k, e));
        if i > 0 {
            assert(spans[i] == rest[i - 1]);
            lemma_span_props(rows, context, e, i - 1);
            if i > 1 {
                assert(spans[i - 1] == rest[i - 2]);
            }
        }
    }
}

/// The rows from a shown row up to the end of its run are shown, and the
/// row behind the run is hidden.
pub proof fn lemma_shown_end_props(rows: Seq<OpKind>, context: int, k: int)
    requires
        0 <= k <= rows.len(),
    ensures
        k <= shown_end(rows, context, k) <= rows.len(),
        forall|j: int| k <= j < shown_end(rows, context, k) ==> near_change(rows, context, j),
        shown_end(rows, context, k) == rows.len() || !near_change(
            rows,
            context,
            shown_end(rows, context, k),
        ),
        k < rows.len() && near_change(rows, context, k) ==> k < shown_end(rows, context, k),
    decreases rows.len() - k,
{
    if k < rows.len() && near_change(rows, context, k) {
        lemma_shown_end_props(rows, context, k + 1);
    }
}

} // verus!
