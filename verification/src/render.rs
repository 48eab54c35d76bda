//! The unified-diff text of hunks.
//!
//! Each hunk is printed as a header line `@@ -s,c +s,c @@` and one line for
//! each of its rows: the line's text behind a space for an unchanged line,
//! behind `-` for a deleted line, behind `+` for an inserted one.  The
//! counts are always written out, also where they are 1.  A line is
//! printed with the terminator that it has in its text and with nothing
//! more, so a line without a newline is followed directly by what comes
//! next.

use crate::hunks::{hunk_views, hunks_within, ops_within, Hunk, HunkView};
use crate::lines::line_views;
use crate::script::{EditOp, OpKind};
use vstd::prelude::*;
use vstd::string::StringExecFns;

verus! {

/// The character of a decimal digit.
pub open spec fn digit(d: int) -> char {
    if d == 0 {
        '0'
    } else if d == 1 {
        '1'
    } else if d == 2 {
        '2'
    } else if d == 3 {
        '3'
    } else if d == 4 {
        '4'
    } else if d == 5 {
        '5'
    } else if d == 6 {
        '6'
    } else if d == 7 {
        '7'
    } else if d == 8 {
        '8'
    } else {
        '9'
    }
}

/// The decimal numeral of a number that is not negative, without leading
/// zeros.
pub open spec fn decimal(n: int) -> Seq<char>
    decreases n,
{
    if n < 10 {
        seq![digit(n)]
    } else {
        decimal(n / 10).push(digit(n % 10))
    }
}

/// The character that marks a row of the given kind.
pub open spec fn sign(kind: OpKind) -> char {
    match kind {
        OpKind::Equal => ' ',
        OpKind::Delete => '-',
        OpKind::Insert => '+',
    }
}

/// The text of row `k` of an operation: an inserted line is read from
/// the after-lines, any other from the before-lines.
pub open spec fn row_text(op: EditOp, k: int, before: Seq<Seq<char>>, after: Seq<Seq<char>>) -> Seq<
    char,
> {
    if op.kind == OpKind::Insert {
        after[op.after_start + k]
    } else {
        before[op.before_start + k]
    }
}

/// The first `count` rows of an operation, printed.
pub open spec fn render_rows(
    op: EditOp,
    count: int,
    before: Seq<Seq<char>>,
    after: Seq<Seq<char>>,
) -> Seq<char>
    decreases count,
{
    if count <= 0 {
        Seq::empty()
    } else {
        render_rows(op, count - 1, before, after) + seq![sign(op.kind)] + row_text(
            op,
            count - 1,
            before,
            after,
        )
    }
}

/// The rows of a sequence of operations, printed.
pub open spec fn render_ops(ops: Seq<EditOp>, before: Seq<Seq<char>>, after: Seq<Seq<char>>) -> Seq<
    char,
>
    decreases ops.len(),
{
    if ops.len() == 0 {
        Seq::empty()
    } else {
        render_ops(ops.drop_last(), before, after) + render_rows(
            ops.last(),
            ops.last().len as int,
            before,
            after,
        )
    }
}

/// The header line of a hunk.
pub open spec fn render_header(hunk: HunkView) -> Seq<char> {
    seq!['@', '@', ' ', '-'] + decimal(hunk.before_start) + seq![','] + decimal(hunk.before_count)
        + seq![' ', '+'] + decimal(hunk.after_start) + seq![','] + decimal(hunk.after_count)
        + seq![' ', '@', '@', '\n']
}

/// A hunk, printed.
pub open spec fn render_hunk(hunk: HunkView, before: Seq<Seq<char>>, after: Seq<Seq<char>>) -> Seq<
    char,
> {
    render_header(hunk) + render_ops(hunk.ops, before, after)
}

/// Hunks, printed one after the other.
pub open spec fn render_hunks(
    hunks: Seq<HunkView>,
    before: Seq<Seq<char>>,
    after: Seq<Seq<char>>,
) -> Seq<char>
    decreases hunks.len(),
{
    if hunks.len() == 0 {
        Seq::empty()
    } else {
        render_hunks(hunks.drop_last(), before, after) + render_hunk(hunks.last(), before, after)
    }
}

fn digit_char(d: usize) -> (c: char)
    requires
        d < 10,
    ensures
        c == digit(d as int),
{
    if d == 0 {
        '0'
    } else if d == 1 {
        '1'
    } else if d == 2 {
        '2'
    } else if d == 3 {
        '3'
    } else if d == 4 {
        '4'
    } else if d == 5 {
        '5'
    } else if d == 6 {
        '6'
    } else if d == 7 {
        '7'
    } else if d == 8 {
        '8'
    } else {
        '9'
    }
}

/// Appends the decimal numeral of `n`.
fn push_decimal(out: &mut String, n: usize)
    ensures
        final(out)@ == old(out)@ + decimal(n as int),
    decreases n,
{
    if n >= 10 {
        push_decimal(out, n / 10);
    }
    out.push(digit_char(n % 10));
    proof {
        if n >= 10 {
            assert(final(out)@ =~= old(out)@ + decimal(n as int));
        } else {
            assert(final(out)@ =~= old(out)@ + decimal(n as int));
        }
    }
}

fn sign_char(kind: OpKind) -> (c: char)
    ensures
        c == sign(kind),
{
    match kind {
        OpKind::Equal => ' ',
        OpKind::Delete => '-',
        OpKind::Insert => '+',
    }
}

/// Appends the rows of one operation.
fn push_rows(out: &mut String, op: EditOp, before: &Vec<String>, after: &Vec<String>)
    requires
        op.before_end() <= before.len(),
        op.after_end() <= after.len(),
    ensures
        final(out)@ == old(out)@ + render_rows(
            op,
            op.len as int,
            line_views(before@),
            line_views(after@),
        ),
{
    let ghost lb = line_views(before@);
    let ghost la = line_views(after@);
    let ghost start = out@;
    let mark = sign_char(op.kind);
    let mut k: usize = 0;
    assert(out@ =~= start + render_rows(op, 0, lb, la));
    while k < op.len
        invariant
            0 <= k <= op.len,
            op.before_end() <= before.len(),
            op.after_end() <= after.len(),
            lb == line_views(before@),
            la == line_views(after@),
            mark == sign(op.kind),
            out@ == start + render_rows(op, k as int, lb, la),
        decreases op.len - k,
    {
        let ghost so_far = out@;
        out.push(mark);
        match op.kind {
            OpKind::Insert => {
                out.append(after[op.after_start + k].as_str());
            },
            _ => {
                out.append(before[op.before_start + k].as_str());
            },
        }
        proof {
            assert(out@ == so_far.push(mark) + row_text(op, k as int, lb, la));
            assert(out@ =~= start + render_rows(op, k + 1, lb, la));
        }
        k += 1;
    }
}

/// Appends a hunk: its header and its rows.
fn push_hunk(out: &mut String, hunk: &Hunk, before: &Vec<String>, after: &Vec<String>)
    requires
        ops_within(hunk@.ops, before.len() as int, after.len() as int),
    ensures
        final(out)@ == old(out)@ + render_hunk(hunk@, line_views(before@), line_views(after@)),
{
    let ghost lb = line_views(before@);
    let ghost la = line_views(after@);
    let ghost start = out@;
    out.push('@');
    out.push('@');
    out.push(' ');
    out.push('-');
    push_decimal(out, hunk.before_start);
    out.push(',');
    push_decimal(out, hunk.before_count);
    out.push(' ');
    out.push('+');
    push_decimal(out, hunk.after_start);
    out.push(',');
    push_decimal(out, hunk.after_count);
    out.push(' ');
    out.push('@');
    out.push('@');
    out.push('\n');
    assert(out@ =~= start + render_header(hunk@));
    let ghost headed = out@;
    let mut i: usize = 0;
    assert(hunk.ops@.take(0) =~= Seq::<EditOp>::empty());
    assert(out@ =~= headed + render_ops(hunk.ops@.take(0), lb, la));
    while i < hunk.ops.len()
        invariant
            0 <= i <= hunk.ops.len(),
            ops_within(hunk@.ops, before.len() as int, after.len() as int),
            lb == line_views(before@),
            la == line_views(after@),
            out@ == headed + render_ops(hunk.ops@.take(i as int), lb, la),
        decreases hunk.ops.len() - i,
    {
        let ghost so_far = out@;
        assert(hunk@.ops[i as int] == hunk.ops@[i as int]);
        push_rows(out, hunk.ops[i], before, after);
        proof {
            assert(hunk.ops@.take(i + 1).drop_last() =~= hunk.ops@.take(i as int));
            assert(out@ =~= headed + render_ops(hunk.ops@.take(i + 1), lb, la));
        }
        i += 1;
    }
    proof {
        assert(hunk.ops@.take(hunk.ops@.len() as int) =~= hunk.ops@);
        assert(out@ =~= start + render_hunk(hunk@, lb, la));
    }
}

/// The unified-diff formatter.  Prints the hunks, which hold positions in
/// `before` and `after` (as `hunks_fit` tests), one after the other.  No
/// hunks give the empty text.
pub fn format_hunks(hunks: &Vec<Hunk>, before: &Vec<String>, after: &Vec<String>) -> (text: String)
    requires
        hunks_within(hunk_views(hunks@), before.len() as int, after.len() as int),
    ensures
        text@ == render_hunks(hunk_views(hunks@), line_views(before@), line_views(after@)),
{
    let ghost lb = line_views(before@);
    let ghost la = line_views(after@);
    let ghost views = hunk_views(hunks@);
    let mut out = String::new();
    let mut i: usize = 0;
    assert(views.take(0) =~= Seq::<HunkView>::empty());
    assert(out@ =~= render_hunks(views.take(0), lb, la));
    while i < hunks.len()
        invariant
            0 <= i <= hunks.len(),
            views == hunk_views(hunks@),
            hunks_within(views, before.len() as int, after.len() as int),
            lb == line_views(before@),
            la == line_views(after@),
            out@ == render_hunks(views.take(i as int), lb, la),
        decreases hunks.len() - i,
    {
        assert(views[i as int] == hunks@[i as int]@);
        push_hunk(&mut out, &hunks[i], before, after);
        proof {
            assert(views.take(i + 1).drop_last() =~= views.take(i as int));
        }
        i += 1;
    }
    proof {
        assert(views.take(views.len() as int) =~= views);
    }
    out
}

} // verus!
