//! The sequence matcher: aligns two sequences of lines by an edit script.
//!
//! The alignment itself is computed by the `similar` crate (Myers'
//! algorithm).  What comes back is replayed from the first line of both
//! sequences on and held to the rules of an edit script, so that every
//! script that leaves this module covers both sequences and keeps only
//! lines that are equal, whatever the alignment was.

use crate::lines::line_views;
use crate::script::{
    chain_after_end, chain_before_end, chained, covers, is_script, lemma_chain_monotone,
    lemma_chained_push, EditOp, OpKind,
};
use similar::{capture_diff_slices, Algorithm, DiffOp};
use vstd::prelude::*;

verus! {

/// One operation as the matcher reports it: how many lines to keep, to
/// delete or to insert next.  Besides the three kinds of an edit operation
/// the matcher knows a replacement: a stretch of before-lines that gives
/// way to a stretch of after-lines.
#[derive(Clone, Copy, Debug, PartialEq, Eq)]
pub enum MatcherOp {
    /// The next `len` lines of both sides are kept.
    Equal { len: usize },
    /// The next `len` before-lines are deleted.
    Delete { len: usize },
    /// The next `len` after-lines are inserted.
    Insert { len: usize },
    /// The next `before_len` before-lines give way to the next `after_len`
    /// after-lines.
    Replace { before_len: usize, after_len: usize },
}

impl MatcherOp {
    /// Number of before-lines that the operation covers.
    pub open spec fn before_len(self) -> int {
        match self {
            MatcherOp::Equal { len } => len as int,
            MatcherOp::Delete { len } => len as int,
            MatcherOp::Insert { .. } => 0,
            MatcherOp::Replace { before_len, .. } => before_len as int,
        }
    }

    /// Number of after-lines that the operation covers.
    pub open spec fn after_len(self) -> int {
        match self {
            MatcherOp::Equal { len } => len as int,
            MatcherOp::Delete { .. } => 0,
            MatcherOp::Insert { len } => len as int,
            MatcherOp::Replace { after_len, .. } => after_len as int,
        }
    }

    /// The edit operations that stand for this one at the positions `b`
    /// and `a`.  A replacement is a deletion followed by an insertion.
    pub open spec fn placed(self, b: int, a: int) -> Seq<EditOp> {
        match self {
            MatcherOp::Equal { len } => seq![
                EditOp { kind: OpKind::Equal, before_start: b as usize, after_start: a as usize, len },
            ],
            MatcherOp::Delete { len } => seq![
                EditOp { kind: OpKind::Delete, before_start: b as usize, after_start: a as usize, len },
            ],
            MatcherOp::Insert { len } => seq![
                EditOp { kind: OpKind::Insert, before_start: b as usize, after_start: a as usize, len },
            ],
            MatcherOp::Replace { before_len, after_len } => seq![
                EditOp {
                    kind: OpKind::Delete,
                    before_start: b as usize,
                    after_start: a as usize,
                    len: before_len,
                },
                EditOp {
                    kind: OpKind::Insert,
                    before_start: (b + before_len) as usize,
                    after_start: a as usize,
                    len: after_len,
                },
            ],
        }
    }
}

/// The operations that `similar::capture_diff_slices` reports for two
/// sequences of lines under Myers' algorithm without a deadline, each
/// with its lengths.
pub uninterp spec fn myers_ops(before: Seq<Seq<char>>, after: Seq<Seq<char>>) -> Seq<MatcherOp>;

/// The largest number of lines, both sides together, that is handed to the
/// matcher: its working arrays are indexed by signed diagonals.
pub const MATCHER_LIMIT: usize = usize::MAX / 2;

/// Calls `similar::capture_diff_slices` with `Algorithm::Myers` and keeps
/// the kind and the lengths of each operation that it reports.
///
/// Nothing is claimed of the alignment but that it depends on the contents
/// of the two sequences alone, which gives it the name `myers_ops`.  The
/// bound keeps the sizes that the algorithm computes for its working arrays
/// within the machine's range.
#[verifier::external_body]
fn myers(before: &Vec<String>, after: &Vec<String>) -> (raw: Vec<MatcherOp>)
    requires
        before.len() + after.len() <= MATCHER_LIMIT,
    ensures
        raw@ == myers_ops(line_views(before@), line_views(after@)),
{
    let ops = capture_diff_slices(Algorithm::Myers, before, after);
    ops.into_iter().map(|op| match op {
        DiffOp::Equal { len, .. } => MatcherOp::Equal { len },
        DiffOp::Delete { old_len, .. } => MatcherOp::Delete { len: old_len },
        DiffOp::Insert { new_len, .. } => MatcherOp::Insert { len: new_len },
        DiffOp::Replace { old_len, new_len, .. } =>
            MatcherOp::Replace { before_len: old_len, after_len: new_len },
    }).collect()
}

/// Number of before-lines that the operations cover.
pub open spec fn before_sum(raw: Seq<MatcherOp>) -> int
    decreases raw.len(),
{
    if raw.len() == 0 {
        0
    } else {
        before_sum(raw.drop_last()) + raw.last().before_len()
    }
}

/// Number of after-lines that the operations cover.
pub open spec fn after_sum(raw: Seq<MatcherOp>) -> int
    decreases raw.len(),
{
    if raw.len() == 0 {
        0
    } else {
        after_sum(raw.drop_last()) + raw.last().after_len()
    }
}

/// The edit operations that stand for a sequence of matcher operations,
/// replayed from the first line of both sides on: each operation is
/// placed where the operations before it end.
pub open spec fn expand(raw: Seq<MatcherOp>) -> Seq<EditOp>
    decreases raw.len(),
{
    if raw.len() == 0 {
        Seq::empty()
    } else {
        expand(raw.drop_last()) + raw.last().placed(
            before_sum(raw.drop_last()),
            after_sum(raw.drop_last()),
        )
    }
}

/// What is asked of the matcher's operations before they are taken as an
/// edit script from `before` to `after`: replayed from the first line on
/// they cover exactly the lines of both sequences, and each `Equal`
/// operation pairs lines of the same content.
pub open spec fn is_alignment(raw: Seq<MatcherOp>, before: Seq<Seq<char>>, after: Seq<Seq<char>>) -> bool {
    &&& before_sum(raw) == before.len()
    &&& after_sum(raw) == after.len()
    &&& forall|j: int|
        0 <= j < expand(raw).len() && (#[trigger] expand(raw)[j]).kind == OpKind::Equal
            ==> expand(raw)[j].pairs_equal_lines(before, after)
}

/// The script that keeps every line: one `Equal` operation, or no operation
/// where there is no line.
pub open spec fn keep_all(len: int) -> Seq<EditOp> {
    if len == 0 {
        Seq::empty()
    } else {
        seq![EditOp { kind: OpKind::Equal, before_start: 0, after_start: 0, len: len as usize }]
    }
}

/// The script that keeps no line: one `Delete` that covers all before-lines
/// and one `Insert` that covers all after-lines, each left out where its
/// side is empty.
pub open spec fn replace_all(before_len: int, after_len: int) -> Seq<EditOp> {
    let delete = EditOp {
        kind: OpKind::Delete,
        before_start: 0,
        after_start: 0,
        len: before_len as usize,
    };
    let insert = EditOp {
        kind: OpKind::Insert,
        before_start: before_len as usize,
        after_start: 0,
        len: after_len as usize,
    };
    if before_len == 0 && after_len == 0 {
        Seq::empty()
    } else if after_len == 0 {
        seq![delete]
    } else if before_len == 0 {
        seq![insert]
    } else {
        seq![delete, insert]
    }
}

/// One of the operations keeps a line.
pub open spec fn keeps_a_line(script: Seq<EditOp>) -> bool {
    exists|j: int|
        0 <= j < script.len() && (#[trigger] script[j]).kind == OpKind::Equal && script[j].len > 0
}

/// The edit script that is made of the matcher's operations: the operations
/// themselves, replayed, where they are an alignment of the two sequences
/// that keeps a line.  Operations that keep no line, or that are no
/// alignment, give the script that keeps no line: one deletion and one
/// insertion.
pub open spec fn script_of(raw: Seq<MatcherOp>, before: Seq<Seq<char>>, after: Seq<Seq<char>>) -> Seq<
    EditOp,
> {
    if is_alignment(raw, before, after) && keeps_a_line(expand(raw)) {
        expand(raw)
    } else {
        replace_all(before.len() as int, after.len() as int)
    }
}

/// The edit script from `before` to `after`.  Equal sequences keep every
/// line.  Other sequences are aligned by the matcher, unless they are too
/// long for it: then no line is kept.
pub open spec fn edit_script(before: Seq<Seq<char>>, after: Seq<Seq<char>>) -> Seq<EditOp> {
    if before == after {
        keep_all(before.len() as int)
    } else if before.len() + after.len() > MATCHER_LIMIT {
        replace_all(before.len() as int, after.len() as int)
    } else {
        script_of(myers_ops(before, after), before, after)
    }
}

/// What operation `i` adds to the lines that the operations before it
/// cover.
pub proof fn lemma_sums_step(raw: Seq<MatcherOp>, i: int)
    requires
        0 <= i < raw.len(),
    ensures
        before_sum(raw.take(i + 1)) == before_sum(raw.take(i)) + raw[i].before_len(),
        after_sum(raw.take(i + 1)) == after_sum(raw.take(i)) + raw[i].after_len(),
        expand(raw.take(i + 1)) == expand(raw.take(i)) + raw[i].placed(
            before_sum(raw.take(i)),
            after_sum(raw.take(i)),
        ),
{
    assert(raw.take(i + 1).drop_last() =~= raw.take(i));
    assert(raw.take(i + 1).last() == raw[i]);
}

/// The first `i` operations cover no more lines than all of them.
pub proof fn lemma_sums_monotone(raw: Seq<MatcherOp>, i: int)
    requires
        0 <= i <= raw.len(),
    ensures
        0 <= before_sum(raw.take(i)) <= before_sum(raw),
        0 <= after_sum(raw.take(i)) <= after_sum(raw),
    decreases raw.len() - i,
{
    if i == raw.len() {
        assert(raw.take(i) =~= raw);
        lemma_sums_positive(raw);
    } else {
        lemma_sums_step(raw, i);
        lemma_sums_monotone(raw, i + 1);
        lemma_sums_positive(raw.take(i));
    }
}

/// Operations cover a number of lines that is not negative.
pub proof fn lemma_sums_positive(raw: Seq<MatcherOp>)
    ensures
        0 <= before_sum(raw),
        0 <= after_sum(raw),
    decreases raw.len(),
{
    if raw.len() > 0 {
        lemma_sums_positive(raw.drop_last());
    }
}

/// The operations that a prefix expands to are the first of the
/// operations that the whole expands to.
pub proof fn lemma_expand_grows(raw: Seq<MatcherOp>, i: int)
    requires
        0 <= i <= raw.len(),
    ensures
        expand(raw.take(i)).is_prefix_of(expand(raw)),
    decreases raw.len() - i,
{
    if i == raw.len() {
        assert(raw.take(i) =~= raw);
    } else {
        lemma_sums_step(raw, i);
        lemma_expand_grows(raw, i + 1);
    }
}

/// Placing one more operation behind a chain gives a chain again, which
/// ends behind the operation.
pub proof fn lemma_place_next(prev: Seq<EditOp>, op: MatcherOp)
    requires
        chained(prev, 0, 0),
        0 <= chain_before_end(prev, 0),
        0 <= chain_after_end(prev, 0),
        chain_before_end(prev, 0) + op.before_len() <= usize::MAX,
        chain_after_end(prev, 0) + op.after_len() <= usize::MAX,
    ensures
        ({
            let ops = prev + op.placed(chain_before_end(prev, 0), chain_after_end(prev, 0));
            &&& chained(ops, 0, 0)
            &&& chain_before_end(ops, 0) == chain_before_end(prev, 0) + op.before_len()
            &&& chain_after_end(ops, 0) == chain_after_end(prev, 0) + op.after_len()
        }),
{
    let b = chain_before_end(prev, 0);
    let a = chain_after_end(prev, 0);
    let ops = prev + op.placed(b, a);
    let first = op.placed(b, a)[0];
    lemma_chained_push(prev, 0, 0, first);
    if op is Replace {
        let second = op.placed(b, a)[1];
        lemma_chained_push(prev.push(first), 0, 0, second);
        assert(ops =~= prev.push(first).push(second));
    } else {
        assert(ops =~= prev.push(first));
    }
}

/// Operations that cover no more lines than the machine can count expand
/// to a chain that ends where they end.
pub proof fn lemma_expand_chained(raw: Seq<MatcherOp>, n: int)
    requires
        before_sum(raw) <= usize::MAX,
        after_sum(raw) <= usize::MAX,
        0 <= n <= raw.len(),
    ensures
        chained(expand(raw.take(n)), 0, 0),
        chain_before_end(expand(raw.take(n)), 0) == before_sum(raw.take(n)),
        chain_after_end(expand(raw.take(n)), 0) == after_sum(raw.take(n)),
    decreases n,
{
    if n == 0 {
        assert(raw.take(0) =~= Seq::<MatcherOp>::empty());
    } else {
        lemma_expand_chained(raw, n - 1);
        lemma_sums_step(raw, n - 1);
        lemma_sums_monotone(raw, n - 1);
        lemma_sums_monotone(raw, n);
        lemma_place_next(expand(raw.take(n - 1)), raw[n - 1]);
    }
}

/// The script that keeps no line is an edit script between any two
/// sequences.
pub proof fn lemma_replace_all_is_script(before: Seq<Seq<char>>, after: Seq<Seq<char>>)
    requires
        before.len() <= usize::MAX,
        after.len() <= usize::MAX,
    ensures
        is_script(replace_all(before.len() as int, after.len() as int), before, after),
{
}

/// Coverage law of the matcher.  Whatever operations the matcher reports,
/// the script made of them is an edit script from `before` to `after`.
pub proof fn lemma_script_of_is_script(
    raw: Seq<MatcherOp>,
    before: Seq<Seq<char>>,
    after: Seq<Seq<char>>,
)
    requires
        before.len() <= usize::MAX,
        after.len() <= usize::MAX,
    ensures
        is_script(script_of(raw, before, after), before, after),
{
    if is_alignment(raw, before, after) && keeps_a_line(expand(raw)) {
        lemma_expand_chained(raw, raw.len() as int);
        assert(raw.take(raw.len() as int) =~= raw);
    } else {
        lemma_replace_all_is_script(before, after);
    }
}

/// Coverage law.  For every pair of sequences the edit script covers both
/// of them and keeps only lines that are the same on both sides.
pub proof fn lemma_edit_script_is_script(before: Seq<Seq<char>>, after: Seq<Seq<char>>)
    requires
        before.len() <= usize::MAX,
        after.len() <= usize::MAX,
    ensures
        is_script(edit_script(before, after), before, after),
{
    if before == after {
        assert(before.subrange(0, before.len() as int) =~= before);
    } else if before.len() + after.len() > MATCHER_LIMIT {
        lemma_replace_all_is_script(before, after);
    } else {
        lemma_script_of_is_script(myers_ops(before, after), before, after);
    }
}

/// No line of `before` has the content of a line of `after`.
pub open spec fn disjoint(before: Seq<Seq<char>>, after: Seq<Seq<char>>) -> bool {
    forall|i: int, j: int|
        0 <= i < before.len() && 0 <= j < after.len() ==> #[trigger] before[i] != #[trigger] after[j]
}

/// An edit script between sequences without a common line keeps no line:
/// every operation that covers a line is a deletion or an insertion.
pub proof fn lemma_disjoint_keeps_nothing(
    ops: Seq<EditOp>,
    before: Seq<Seq<char>>,
    after: Seq<Seq<char>>,
)
    requires
        is_script(ops, before, after),
        disjoint(before, after),
    ensures
        forall|i: int|
            0 <= i < ops.len() && (#[trigger] ops[i]).kind == OpKind::Equal ==> ops[i].len == 0,
{
    assert forall|i: int| 0 <= i < ops.len() && (#[trigger] ops[i]).kind
        == OpKind::Equal implies ops[i].len == 0 by {
        let op = ops[i];
        if op.len > 0 {
            lemma_chain_monotone(ops, 0, 0, i);
            assert(op.pairs_equal_lines(before, after));
            let b = before.subrange(op.before_start as int, op.before_start + op.len);
            let a = after.subrange(op.after_start as int, op.after_start + op.len);
            assert(b[0] == before[op.before_start as int]);
            assert(a[0] == after[op.after_start as int]);
        }
    }
}

/// Sequences without a common line yield the script that keeps no line:
/// one `Delete` that covers all before-lines and one `Insert` that covers
/// all after-lines.
pub proof fn lemma_edit_script_of_disjoint(before: Seq<Seq<char>>, after: Seq<Seq<char>>)
    requires
        disjoint(before, after),
        before.len() <= usize::MAX,
        after.len() <= usize::MAX,
    ensures
        edit_script(before, after) == replace_all(before.len() as int, after.len() as int),
{
    if before == after {
        if before.len() > 0 {
            assert(before[0] == after[0]);
        }
    } else if before.len() + after.len() <= MATCHER_LIMIT {
        let raw = myers_ops(before, after);
        if is_alignment(raw, before, after) && keeps_a_line(expand(raw)) {
            lemma_script_of_is_script(raw, before, after);
            lemma_disjoint_keeps_nothing(expand(raw), before, after);
        }
    }
}

/// Equal sequences yield the script that keeps every line, and that
/// script has no operation but `Equal`.
pub proof fn lemma_edit_script_of_equal(lines: Seq<Seq<char>>)
    ensures
        edit_script(lines, lines) == keep_all(lines.len() as int),
        forall|i: int|
            0 <= i < edit_script(lines, lines).len() ==> (#[trigger] edit_script(
                lines,
                lines,
            )[i]).kind == OpKind::Equal,
{
}

/// Tells whether `len` lines from `before_start` on hold the same contents
/// as `len` lines of `after` from `after_start` on.
pub fn same_range(
    before: &Vec<String>,
    after: &Vec<String>,
    before_start: usize,
    after_start: usize,
    len: usize,
) -> (same: bool)
    requires
        before_start + len <= before.len(),
        after_start + len <= after.len(),
    ensures
        same == (line_views(before@).subrange(before_start as int, before_start + len)
            == line_views(after@).subrange(after_start as int, after_start + len)),
{
    let ghost b = line_views(before@).subrange(before_start as int, before_start + len);
    let ghost a = line_views(after@).subrange(after_start as int, after_start + len);
    let mut k: usize = 0;
    while k < len
        invariant
            0 <= k <= len,
            before_start + len <= before.len(),
            after_start + len <= after.len(),
            b == line_views(before@).subrange(before_start as int, before_start + len),
            a == line_views(after@).subrange(after_start as int, after_start + len),
            forall|j: int| 0 <= j < k ==> b[j] == a[j],
        decreases len - k,
    {
        if before[before_start + k] != after[after_start + k] {
            proof {
                assert(b[k as int] == before@[before_start + k]@);
                assert(a[k as int] == after@[after_start + k]@);
                assert(b[k as int] != a[k as int]);
            }
            return false;
        }
        proof {
            assert(b[k as int] == before@[before_start + k]@);
            assert(a[k as int] == after@[after_start + k]@);
        }
        k += 1;
    }
    assert(b =~= a);
    true
}

/// Tells whether two sequences of lines hold the same contents.
pub fn same_lines(before: &Vec<String>, after: &Vec<String>) -> (same: bool)
    ensures
        same == (line_views(before@) == line_views(after@)),
{
    if before.len() != after.len() {
        assert(line_views(before@).len() != line_views(after@).len());
        return false;
    }
    let same = same_range(before, after, 0, 0, before.len());
    proof {
        let b = line_views(before@);
        let a = line_views(after@);
        assert(b.subrange(0, b.len() as int) =~= b);
        assert(a.subrange(0, a.len() as int) =~= a);
    }
    same
}

/// Whether a script with the placed operation appended keeps a line.
pub proof fn lemma_keeps_a_line_placed(script: Seq<EditOp>, op: MatcherOp, b: int, a: int)
    ensures
        keeps_a_line(script + op.placed(b, a)) <==> keeps_a_line(script) || (op is Equal
            && op.before_len() > 0),
{
    let longer = script + op.placed(b, a);
    if keeps_a_line(script) {
        let j = choose|j: int|
            0 <= j < script.len() && (#[trigger] script[j]).kind == OpKind::Equal && script[j].len
                > 0;
        assert(longer[j] == script[j]);
    }
    if op is Equal && op.before_len() > 0 {
        assert(longer[script.len() as int] == op.placed(b, a)[0]);
    }
    if keeps_a_line(longer) {
        let j = choose|j: int|
            0 <= j < longer.len() && (#[trigger] longer[j]).kind == OpKind::Equal && longer[j].len
                > 0;
        if j < script.len() {
            assert(script[j] == longer[j]);
        } else {
            assert(longer[j] == op.placed(b, a)[j - script.len()]);
        }
    }
}

/// Builds the script that keeps every one of `len` lines.
pub fn keep_all_script(len: usize) -> (script: Vec<EditOp>)
    ensures
        script@ == keep_all(len as int),
        covers(script@, len as int, len as int),
{
    let mut script: Vec<EditOp> = Vec::new();
    if len > 0 {
        script.push(EditOp { kind: OpKind::Equal, before_start: 0, after_start: 0, len });
    }
    assert(script@ =~= keep_all(len as int));
    script
}

/// Builds the script that deletes `before_len` lines and inserts `after_len`
/// lines.
pub fn replace_all_script(before_len: usize, after_len: usize) -> (script: Vec<EditOp>)
    ensures
        script@ == replace_all(before_len as int, after_len as int),
        covers(script@, before_len as int, after_len as int),
        forall|i: int| 0 <= i < script@.len() ==> (#[trigger] script@[i]).kind != OpKind::Equal,
{
    let mut script: Vec<EditOp> = Vec::new();
    if before_len > 0 {
        script.push(
            EditOp { kind: OpKind::Delete, before_start: 0, after_start: 0, len: before_len },
        );
    }
    if after_len > 0 {
        script.push(
            EditOp {
                kind: OpKind::Insert,
                before_start: before_len,
                after_start: 0,
                len: after_len,
            },
        );
    }
    assert(script@ =~= replace_all(before_len as int, after_len as int));
    script
}

/// A script whose kept lines agree, with an operation placed behind it
/// that keeps only lines that agree, is such a script again.
pub proof fn lemma_pairs_after_placing(
    script: Seq<EditOp>,
    op: MatcherOp,
    b: int,
    a: int,
    before: Seq<Seq<char>>,
    after: Seq<Seq<char>>,
)
    requires
        forall|j: int|
            0 <= j < script.len() && (#[trigger] script[j]).kind == OpKind::Equal
                ==> script[j].pairs_equal_lines(before, after),
        op is Equal ==> op.placed(b, a)[0].pairs_equal_lines(before, after),
    ensures
        forall|j: int|
            0 <= j < (script + op.placed(b, a)).len() && (#[trigger] (script + op.placed(
                b,
                a,
            ))[j]).kind == OpKind::Equal ==> (script + op.placed(b, a))[j].pairs_equal_lines(
                before,
                after,
            ),
{
    let ops = script + op.placed(b, a);
    assert forall|j: int| 0 <= j < ops.len() && (#[trigger] ops[j]).kind
        == OpKind::Equal implies ops[j].pairs_equal_lines(before, after) by {
        if j < script.len() {
            assert(ops[j] == script[j]);
        } else {
            assert(ops[j] == op.placed(b, a)[j - script.len()]);
        }
    }
}

/// What holds when the first `i` operations have been replayed into
/// `script`: the script is what they expand to, it is a chain that ends
/// where they end, within both sequences, and what it keeps agrees.
#[verifier::opaque]
pub open spec fn replayed(
    raw: Seq<MatcherOp>,
    i: int,
    script: Seq<EditOp>,
    before: Seq<Seq<char>>,
    after: Seq<Seq<char>>,
) -> bool {
    &&& 0 <= i <= raw.len()
    &&& before.len() <= usize::MAX
    &&& after.len() <= usize::MAX
    &&& script == expand(raw.take(i))
    &&& chained(script, 0, 0)
    &&& chain_before_end(script, 0) == before_sum(raw.take(i))
    &&& chain_after_end(script, 0) == after_sum(raw.take(i))
    &&& 0 <= before_sum(raw.take(i)) <= before.len()
    &&& 0 <= after_sum(raw.take(i)) <= after.len()
    &&& forall|j: int|
        0 <= j < script.len() && (#[trigger] script[j]).kind == OpKind::Equal
            ==> script[j].pairs_equal_lines(before, after)
}

/// Before any operation is replayed the script is empty.
pub proof fn lemma_replay_start(raw: Seq<MatcherOp>, before: Seq<Seq<char>>, after: Seq<Seq<char>>)
    requires
        before.len() <= usize::MAX,
        after.len() <= usize::MAX,
    ensures
        replayed(raw, 0, Seq::empty(), before, after),
        before_sum(raw.take(0)) == 0,
        after_sum(raw.take(0)) == 0,
        !keeps_a_line(Seq::<EditOp>::empty()),
{
    reveal(replayed);
    assert(raw.take(0) =~= Seq::<MatcherOp>::empty());
}

/// Replaying one more operation that fits and keeps only equal lines.
pub proof fn lemma_replay_step(
    raw: Seq<MatcherOp>,
    i: int,
    script: Seq<EditOp>,
    before: Seq<Seq<char>>,
    after: Seq<Seq<char>>,
)
    requires
        replayed(raw, i, script, before, after),
        i < raw.len(),
        before_sum(raw.take(i)) + raw[i].before_len() <= before.len(),
        after_sum(raw.take(i)) + raw[i].after_len() <= after.len(),
        raw[i] is Equal ==> raw[i].placed(
            before_sum(raw.take(i)),
            after_sum(raw.take(i)),
        )[0].pairs_equal_lines(before, after),
    ensures
        replayed(
            raw,
            i + 1,
            script + raw[i].placed(before_sum(raw.take(i)), after_sum(raw.take(i))),
            before,
            after,
        ),
        before_sum(raw.take(i + 1)) == before_sum(raw.take(i)) + raw[i].before_len(),
        after_sum(raw.take(i + 1)) == after_sum(raw.take(i)) + raw[i].after_len(),
        keeps_a_line(script + raw[i].placed(before_sum(raw.take(i)), after_sum(raw.take(i))))
            <==> keeps_a_line(script) || (raw[i] is Equal && raw[i].before_len() > 0),
{
    reveal(replayed);
    let b = before_sum(raw.take(i));
    let a = after_sum(raw.take(i));
    lemma_sums_step(raw, i);
    lemma_keeps_a_line_placed(script, raw[i], b, a);
    lemma_place_next(script, raw[i]);
    lemma_pairs_after_placing(script, raw[i], b, a, before, after);
}

/// An operation that reaches behind the end of a sequence shows that the
/// operations are no alignment.
pub proof fn lemma_replay_overruns(
    raw: Seq<MatcherOp>,
    i: int,
    script: Seq<EditOp>,
    before: Seq<Seq<char>>,
    after: Seq<Seq<char>>,
)
    requires
        replayed(raw, i, script, before, after),
        i < raw.len(),
        before_sum(raw.take(i)) + raw[i].before_len() > before.len() || after_sum(raw.take(i))
            + raw[i].after_len() > after.len(),
    ensures
        !is_alignment(raw, before, after),
{
    reveal(replayed);
    lemma_sums_step(raw, i);
    lemma_sums_monotone(raw, i + 1);
}

/// An operation that keeps lines which differ shows that the operations
/// are no alignment.
pub proof fn lemma_replay_differs(
    raw: Seq<MatcherOp>,
    i: int,
    script: Seq<EditOp>,
    before: Seq<Seq<char>>,
    after: Seq<Seq<char>>,
)
    requires
        replayed(raw, i, script, before, after),
        i < raw.len(),
        raw[i] is Equal,
        !raw[i].placed(before_sum(raw.take(i)), after_sum(raw.take(i)))[0].pairs_equal_lines(
            before,
            after,
        ),
    ensures
        !is_alignment(raw, before, after),
{
    reveal(replayed);
    lemma_sums_step(raw, i);
    lemma_expand_grows(raw, i + 1);
    let kept = raw[i].placed(before_sum(raw.take(i)), after_sum(raw.take(i)))[0];
    let k = script.len() as int;
    assert(expand(raw.take(i + 1))[k] == kept);
    assert(expand(raw)[k] == kept);
}

/// When all operations are replayed, they are an alignment where they end
/// at the ends of both sequences, and the script is then an edit script.
pub proof fn lemma_replay_end(
    raw: Seq<MatcherOp>,
    script: Seq<EditOp>,
    before: Seq<Seq<char>>,
    after: Seq<Seq<char>>,
)
    requires
        replayed(raw, raw.len() as int, script, before, after),
    ensures
        script == expand(raw),
        before_sum(raw.take(raw.len() as int)) == before_sum(raw),
        after_sum(raw.take(raw.len() as int)) == after_sum(raw),
        is_alignment(raw, before, after) <==> before_sum(raw) == before.len() && after_sum(raw)
            == after.len(),
        is_alignment(raw, before, after) ==> is_script(script, before, after),
{
    reveal(replayed);
    assert(raw.take(raw.len() as int) =~= raw);
}

/// Turns the matcher's operations into an edit script from `before` to
/// `after`.  The operations are replayed from the first line of both sides
/// on.  Operations that are no alignment of the two sequences are given up
/// for the script that keeps no line, so the result is an edit script
/// whatever the matcher reported.
pub fn script_from_matcher(raw: &Vec<MatcherOp>, before: &Vec<String>, after: &Vec<String>) -> (script:
    Vec<EditOp>)
    ensures
        script@ == script_of(raw@, line_views(before@), line_views(after@)),
        is_script(script@, line_views(before@), line_views(after@)),
{
    let ghost lb = line_views(before@);
    let ghost la = line_views(after@);
    let nb = before.len();
    let na = after.len();
    let mut script: Vec<EditOp> = Vec::new();
    let mut b: usize = 0;
    let mut a: usize = 0;
    let mut kept = false;
    let mut i: usize = 0;
    proof {
        lemma_replay_start(raw@, lb, la);
    }
    while i < raw.len()
        invariant
            0 <= i <= raw.len(),
            lb == line_views(before@),
            la == line_views(after@),
            nb == before.len(),
            na == after.len(),
            b <= nb,
            a <= na,
            b == before_sum(raw@.take(i as int)),
            a == after_sum(raw@.take(i as int)),
            kept <==> keeps_a_line(script@),
            replayed(raw@, i as int, script@, lb, la),
        decreases raw.len() - i,
    {
        let op = raw[i];
        let (before_len, after_len) = match op {
            MatcherOp::Equal { len } => (len, len),
            MatcherOp::Delete { len } => (len, 0),
            MatcherOp::Insert { len } => (0, len),
            MatcherOp::Replace { before_len, after_len } => (before_len, after_len),
        };
        if before_len > nb - b || after_len > na - a {
            proof {
                lemma_replay_overruns(raw@, i as int, script@, lb, la);
            }
            return replace_all_script(nb, na);
        }
        let ghost replayed_so_far = script@;
        match op {
            MatcherOp::Equal { len } => {
                if !same_range(before, after, b, a, len) {
                    proof {
                        lemma_replay_differs(raw@, i as int, script@, lb, la);
                    }
                    return replace_all_script(nb, na);
                }
                script.push(EditOp { kind: OpKind::Equal, before_start: b, after_start: a, len });
                if len > 0 {
                    kept = true;
                }
            },
            MatcherOp::Delete { len } => {
                script.push(EditOp { kind: OpKind::Delete, before_start: b, after_start: a, len });
            },
            MatcherOp::Insert { len } => {
                script.push(EditOp { kind: OpKind::Insert, before_start: b, after_start: a, len });
            },
            MatcherOp::Replace { before_len, after_len } => {
                script.push(
                    EditOp { kind: OpKind::Delete, before_start: b, after_start: a, len: before_len },
                );
                script.push(
                    EditOp {
                        kind: OpKind::Insert,
                        before_start: b + before_len,
                        after_start: a,
                        len: after_len,
                    },
                );
            },
        }
        proof {
            lemma_replay_step(raw@, i as int, replayed_so_far, lb, la);
            assert(script@ =~= replayed_so_far + op.placed(b as int, a as int));
        }
        b = b + before_len;
        a = a + after_len;
        i += 1;
    }
    proof {
        lemma_replay_end(raw@, script@, lb, la);
    }
    if b != nb || a != na || !kept {
        return replace_all_script(nb, na);
    }
    script
}

/// The sequence matcher.  Returns an edit script from `before` to `after`:
/// the one that keeps every line where the two sequences are equal, else
/// the one made of the matcher's alignment.  Sequences without a common
/// line get one deletion and one insertion.
pub fn diff_lines(before: &Vec<String>, after: &Vec<String>) -> (script: Vec<EditOp>)
    ensures
        script@ == edit_script(line_views(before@), line_views(after@)),
        is_script(script@, line_views(before@), line_views(after@)),
        line_views(before@) == line_views(after@) ==> script@ == keep_all(before.len() as int),
        disjoint(line_views(before@), line_views(after@)) ==> script@ == replace_all(
            before.len() as int,
            after.len() as int,
        ),
{
    proof {
        assert(line_views(before@).len() == before.len());
        assert(line_views(after@).len() == after.len());
        if disjoint(line_views(before@), line_views(after@)) {
            lemma_edit_script_of_disjoint(line_views(before@), line_views(after@));
        }
    }
    if same_lines(before, after) {
        let script = keep_all_script(before.len());
        proof {
            let lb = line_views(before@);
            assert(lb.subrange(0, lb.len() as int) =~= lb);
        }
        script
    } else if after.len() > MATCHER_LIMIT || before.len() > MATCHER_LIMIT - after.len() {
        replace_all_script(before.len(), after.len())
    } else {
        let raw = myers(before, after);
        script_from_matcher(&raw, before, after)
    }
}

} // verus!
