//! Edit scripts: ordered operations that turn one sequence of lines into
//! another.

use vstd::prelude::*;

verus! {

/// What an edit operation does with the lines it covers.
#[derive(Clone, Copy, Debug, PartialEq, Eq, Structural)]
pub enum OpKind {
    /// The lines stand on both sides.
    Equal,
    /// The lines stand on the before side only.
    Delete,
    /// The lines stand on the after side only.
    Insert,
}

/// One edit operation: `len` consecutive lines of one kind.
///
/// `before_start` and `after_start` are the positions (counted from 0) that
/// the operation has reached on the two sides.  An `Equal` operation covers
/// `len` lines on both sides, a `Delete` only on the before side, an `Insert`
/// only on the after side.
#[derive(Clone, Copy, Debug, PartialEq, Eq, Structural)]
pub struct EditOp {
    pub kind: OpKind,
    pub before_start: usize,
    pub after_start: usize,
    pub len: usize,
}

impl EditOp {
    /// Number of before-lines that the operation covers.
    pub open spec fn before_len(self) -> int {
        if self.kind == OpKind::Insert {
            0
        } else {
            self.len as int
        }
    }

    /// Number of after-lines that the operation covers.
    pub open spec fn after_len(self) -> int {
        if self.kind == OpKind::Delete {
            0
        } else {
            self.len as int
        }
    }

    /// Position on the before side just behind the operation.
    pub open spec fn before_end(self) -> int {
        self.before_start + self.before_len()
    }

    /// Position on the after side just behind the operation.
    pub open spec fn after_end(self) -> int {
        self.after_start + self.after_len()
    }

    /// The lines that the operation covers on the two sides have the same
    /// content, pair by pair.
    pub open spec fn pairs_equal_lines(self, before: Seq<Seq<char>>, after: Seq<Seq<char>>) -> bool {
        before.subrange(self.before_start as int, self.before_start + self.len) == after.subrange(
            self.after_start as int,
            self.after_start + self.len,
        )
    }
}

/// The operations follow one another without gap or overlap, starting at the
/// positions `b0` and `a0`, and no position leaves the machine's range.
pub open spec fn chained(ops: Seq<EditOp>, b0: int, a0: int) -> bool {
    &&& ops.len() > 0 ==> ops[0].before_start == b0 && ops[0].after_start == a0
    &&& forall|i: int|
        0 < i < ops.len() ==> (#[trigger] ops[i]).before_start == ops[i - 1].before_end()
            && ops[i].after_start == ops[i - 1].after_end()
    &&& forall|i: int|
        0 <= i < ops.len() ==> (#[trigger] ops[i]).before_end() <= usize::MAX
            && ops[i].after_end() <= usize::MAX
}

/// Position on the before side that a chain starting at `b0` ends at.
pub open spec fn chain_before_end(ops: Seq<EditOp>, b0: int) -> int {
    if ops.len() == 0 {
        b0
    } else {
        ops.last().before_end()
    }
}

/// Position on the after side that a chain starting at `a0` ends at.
pub open spec fn chain_after_end(ops: Seq<EditOp>, a0: int) -> int {
    if ops.len() == 0 {
        a0
    } else {
        ops.last().after_end()
    }
}

/// Coverage: the operations tile `before_len` before-lines and `after_len`
/// after-lines, each line exactly once and in order.
pub open spec fn covers(ops: Seq<EditOp>, before_len: int, after_len: int) -> bool {
    &&& chained(ops, 0, 0)
    &&& chain_before_end(ops, 0) == before_len
    &&& chain_after_end(ops, 0) == after_len
}

/// `ops` is an edit script from `before` to `after`: it covers both
/// sequences, and each line that it keeps is the same on both sides.
pub open spec fn is_script(ops: Seq<EditOp>, before: Seq<Seq<char>>, after: Seq<Seq<char>>) -> bool {
    &&& covers(ops, before.len() as int, after.len() as int)
    &&& forall|i: int|
        0 <= i < ops.len() && (#[trigger] ops[i]).kind == OpKind::Equal ==> ops[i].pairs_equal_lines(
            before,
            after,
        )
}

/// The before-lines that the operations contribute, in order: the ranges of
/// the `Equal` and `Delete` operations.
pub open spec fn before_side(ops: Seq<EditOp>, before: Seq<Seq<char>>) -> Seq<Seq<char>>
    decreases ops.len(),
{
    if ops.len() == 0 {
        Seq::empty()
    } else {
        before_side(ops.drop_last(), before) + before.subrange(
            ops.last().before_start as int,
            ops.last().before_end(),
        )
    }
}

/// The after-lines that the operations contribute, in order: the ranges of
/// the `Equal` and `Insert` operations.
pub open spec fn after_side(ops: Seq<EditOp>, after: Seq<Seq<char>>) -> Seq<Seq<char>>
    decreases ops.len(),
{
    if ops.len() == 0 {
        Seq::empty()
    } else {
        after_side(ops.drop_last(), after) + after.subrange(
            ops.last().after_start as int,
            ops.last().after_end(),
        )
    }
}

/// The result of applying the operations to `before`: kept lines are taken
/// from `before`, inserted lines from `after`, deleted lines are left out.
pub open spec fn patched(ops: Seq<EditOp>, before: Seq<Seq<char>>, after: Seq<Seq<char>>) -> Seq<
    Seq<char>,
>
    decreases ops.len(),
{
    if ops.len() == 0 {
        Seq::empty()
    } else {
        let op = ops.last();
        patched(ops.drop_last(), before, after) + match op.kind {
            OpKind::Equal => before.subrange(op.before_start as int, op.before_end()),
            OpKind::Delete => Seq::empty(),
            OpKind::Insert => after.subrange(op.after_start as int, op.after_end()),
        }
    }
}

/// A prefix of a chain is a chain, and it ends where the next operation
/// starts.
pub proof fn lemma_chained_prefix(ops: Seq<EditOp>, b0: int, a0: int, n: int)
    requires
        chained(ops, b0, a0),
        0 <= n <= ops.len(),
    ensures
        chained(ops.take(n), b0, a0),
        n < ops.len() ==> chain_before_end(ops.take(n), b0) == ops[n].before_start
            && chain_after_end(ops.take(n), a0) == ops[n].after_start,
        n == ops.len() ==> ops.take(n) == ops,
        b0 <= chain_before_end(ops.take(n), b0),
        a0 <= chain_after_end(ops.take(n), a0),
    decreases n,
{
    let p = ops.take(n);
    assert forall|i: int| 0 < i < p.len() implies (#[trigger] p[i]).before_start == p[i
        - 1].before_end() && p[i].after_start == p[i - 1].after_end() by {
        assert(p[i] == ops[i]);
        assert(p[i - 1] == ops[i - 1]);
    }
    assert forall|i: int| 0 <= i < p.len() implies (#[trigger] p[i]).before_end() <= usize::MAX
        && p[i].after_end() <= usize::MAX by {
        assert(p[i] == ops[i]);
    }
    if n == ops.len() {
        assert(ops.take(n) =~= ops);
    }
    if n > 0 {
        lemma_chained_prefix(ops, b0, a0, n - 1);
        assert(p.last() == ops[n - 1]);
        assert(ops[n - 1].before_start == chain_before_end(ops.take(n - 1), b0)
            && ops[n - 1].after_start == chain_after_end(ops.take(n - 1), a0));
    }
}

/// A chain grows by an operation that starts where the chain ends.
pub proof fn lemma_chained_push(ops: Seq<EditOp>, b0: int, a0: int, op: EditOp)
    requires
        chained(ops, b0, a0),
        op.before_start == chain_before_end(ops, b0),
        op.after_start == chain_after_end(ops, a0),
        op.before_end() <= usize::MAX,
        op.after_end() <= usize::MAX,
    ensures
        chained(ops.push(op), b0, a0),
        chain_before_end(ops.push(op), b0) == op.before_end(),
        chain_after_end(ops.push(op), a0) == op.after_end(),
{
    let p = ops.push(op);
    assert forall|i: int| 0 < i < p.len() implies (#[trigger] p[i]).before_start == p[i
        - 1].before_end() && p[i].after_start == p[i - 1].after_end() by {
        if i < ops.len() {
            assert(p[i] == ops[i]);
            assert(p[i - 1] == ops[i - 1]);
        } else {
            assert(p[i - 1] == ops.last());
        }
    }
    assert forall|i: int| 0 <= i < p.len() implies (#[trigger] p[i]).before_end() <= usize::MAX
        && p[i].after_end() <= usize::MAX by {
        if i < ops.len() {
            assert(p[i] == ops[i]);
        }
    }
    if ops.len() > 0 {
        assert(p[0] == ops[0]);
    }
}

/// Every operation of a chain lies between the chain's start and its end.
pub proof fn lemma_chain_monotone(ops: Seq<EditOp>, b0: int, a0: int, i: int)
    requires
        chained(ops, b0, a0),
        0 <= i < ops.len(),
    ensures
        b0 <= ops[i].before_start,
        a0 <= ops[i].after_start,
        ops[i].before_end() <= chain_before_end(ops, b0),
        ops[i].after_end() <= chain_after_end(ops, a0),
    decreases ops.len() - i,
{
    lemma_chained_prefix(ops, b0, a0, i);
    if i + 1 < ops.len() {
        lemma_chain_monotone(ops, b0, a0, i + 1);
    }
}

/// Coverage of the before side: the before-side contributions of a chain
/// that starts at 0 are the before-lines up to the chain's end.
pub proof fn lemma_before_side_of_chain(ops: Seq<EditOp>, before: Seq<Seq<char>>)
    requires
        chained(ops, 0, 0),
        chain_before_end(ops, 0) <= before.len(),
    ensures
        before_side(ops, before) == before.take(chain_before_end(ops, 0)),
    decreases ops.len(),
{
    if ops.len() == 0 {
        assert(before_side(ops, before) =~= before.take(0));
    } else {
        let n = ops.len() - 1;
        lemma_chained_prefix(ops, 0, 0, n);
        assert(ops.take(n) =~= ops.drop_last());
        lemma_before_side_of_chain(ops.drop_last(), before);
        assert(before_side(ops, before) =~= before.take(chain_before_end(ops, 0)));
    }
}

/// Coverage of the after side: the after-side contributions of a chain that
/// starts at 0 are the after-lines up to the chain's end.
pub proof fn lemma_after_side_of_chain(ops: Seq<EditOp>, after: Seq<Seq<char>>)
    requires
        chained(ops, 0, 0),
        chain_after_end(ops, 0) <= after.len(),
    ensures
        after_side(ops, after) == after.take(chain_after_end(ops, 0)),
    decreases ops.len(),
{
    if ops.len() == 0 {
        assert(after_side(ops, after) =~= after.take(0));
    } else {
        let n = ops.len() - 1;
        lemma_chained_prefix(ops, 0, 0, n);
        assert(ops.take(n) =~= ops.drop_last());
        lemma_after_side_of_chain(ops.drop_last(), after);
        assert(after_side(ops, after) =~= after.take(chain_after_end(ops, 0)));
    }
}

/// Applying a chain whose kept lines agree gives the after-lines up to the
/// chain's end.
pub proof fn lemma_patched_of_chain(ops: Seq<EditOp>, before: Seq<Seq<char>>, after: Seq<Seq<char>>)
    requires
        chained(ops, 0, 0),
        chain_before_end(ops, 0) <= before.len(),
        chain_after_end(ops, 0) <= after.len(),
        forall|i: int|
            0 <= i < ops.len() && (#[trigger] ops[i]).kind == OpKind::Equal
                ==> ops[i].pairs_equal_lines(before, after),
    ensures
        patched(ops, before, after) == after.take(chain_after_end(ops, 0)),
    decreases ops.len(),
{
    if ops.len() == 0 {
        assert(patched(ops, before, after) =~= after.take(0));
    } else {
        let n = ops.len() - 1;
        let op = ops.last();
        lemma_chained_prefix(ops, 0, 0, n);
        assert(ops.take(n) =~= ops.drop_last());
        assert forall|i: int|
            0 <= i < ops.drop_last().len() && (#[trigger] ops.drop_last()[i]).kind
                == OpKind::Equal implies ops.drop_last()[i].pairs_equal_lines(before, after) by {
            assert(ops.drop_last()[i] == ops[i]);
        }
        lemma_patched_of_chain(ops.drop_last(), before, after);
        if op.kind == OpKind::Equal {
            assert(ops[n].pairs_equal_lines(before, after));
        }
        assert(patched(ops, before, after) =~= after.take(chain_after_end(ops, 0)));
    }
}

/// Coverage law.  The before-side contributions of an edit script,
/// concatenated in order, are the before-lines; its after-side contributions
/// are the after-lines; and applying the script to the before-lines gives
/// the after-lines.
pub proof fn lemma_script_reconstructs(
    ops: Seq<EditOp>,
    before: Seq<Seq<char>>,
    after: Seq<Seq<char>>,
)
    requires
        is_script(ops, before, after),
    ensures
        before_side(ops, before) == before,
        after_side(ops, after) == after,
        patched(ops, before, after) == after,
{
    lemma_before_side_of_chain(ops, before);
    lemma_after_side_of_chain(ops, after);
    lemma_patched_of_chain(ops, before, after);
    assert(before.take(before.len() as int) =~= before);
    assert(after.take(after.len() as int) =~= after);
}

/// Tells whether the operations cover `before_len` before-lines and
/// `after_len` after-lines.
pub fn covers_lines(ops: &Vec<EditOp>, before_len: usize, after_len: usize) -> (covering: bool)
    ensures
        covering == covers(ops@, before_len as int, after_len as int),
{
    let mut b: usize = 0;
    let mut a: usize = 0;
    let mut i: usize = 0;
    while i < ops.len()
        invariant
            0 <= i <= ops.len(),
            b <= before_len,
            a <= after_len,
            chained(ops@.take(i as int), 0, 0),
            chain_before_end(ops@.take(i as int), 0) == b,
            chain_after_end(ops@.take(i as int), 0) == a,
        decreases ops.len() - i,
    {
        let op = ops[i];
        let before_rows = match op.kind {
            OpKind::Insert => 0,
            _ => op.len,
        };
        let after_rows = match op.kind {
            OpKind::Delete => 0,
            _ => op.len,
        };
        if op.before_start != b || op.after_start != a || before_rows > before_len - b
            || after_rows > after_len - a {
            proof {
                if covers(ops@, before_len as int, after_len as int) {
                    lemma_chained_prefix(ops@, 0, 0, i as int);
                    lemma_chain_monotone(ops@, 0, 0, i as int);
                }
            }
            return false;
        }
        proof {
            lemma_chained_push(ops@.take(i as int), 0, 0, op);
            assert(ops@.take(i + 1) =~= ops@.take(i as int).push(op));
        }
        b = b + before_rows;
        a = a + after_rows;
        i += 1;
    }
    proof {
        assert(ops@.take(ops@.len() as int) =~= ops@);
    }
    b == before_len && a == after_len
}

} // verus!
