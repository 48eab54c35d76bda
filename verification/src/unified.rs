//! The whole way from two texts to their unified diff.

use crate::hunk_laws::lemma_kept_script_has_no_hunk;
use crate::hunks::{build_hunks, hunks_of, HunkView};
use crate::lines::{lemma_units_round_trip, lemma_units_shape, line_units, split_lines};
use crate::matcher::{diff_lines, edit_script, keep_all, lemma_edit_script_is_script};
use crate::mirror::{lemma_mirrored_rows_give_mirrored_hunks, mirror_hunks, mirror_rows};
use crate::render::{format_hunks, render_hunks};
use crate::rows::rows;
use crate::script::{after_side, before_side, is_script, lemma_script_reconstructs, patched};
use vstd::prelude::*;

verus! {

/// The context size that `diff` uses.
pub const DEFAULT_CONTEXT: usize = 3;

/// The unified diff of two texts: both are cut into line units, the units
/// are aligned by an edit script, the script is grouped into hunks with
/// `context` lines of context, and the hunks are printed.
pub open spec fn unified_diff(before: Seq<char>, after: Seq<char>, context: int) -> Seq<char> {
    let b = line_units(before);
    let a = line_units(after);
    render_hunks(hunks_of(edit_script(b, a), context), b, a)
}

/// Identity law.  The diff of a sequence of lines against itself has no
/// hunk.
pub proof fn lemma_same_lines_have_no_hunk(lines: Seq<Seq<char>>, context: int)
    ensures
        hunks_of(edit_script(lines, lines), context) == Seq::<HunkView>::empty(),
{
    lemma_kept_script_has_no_hunk(keep_all(lines.len() as int), context);
}

/// Identity law.  The unified diff of a text against itself is the empty
/// text.
pub proof fn lemma_same_text_has_empty_diff(text: Seq<char>, context: int)
    ensures
        unified_diff(text, text, context) == Seq::<char>::empty(),
{
    lemma_same_lines_have_no_hunk(line_units(text), context);
}

/// Coverage law.  For every pair of texts, the before-side contributions
/// of the edit script of their line units, concatenated in order, are the
/// before text; its after-side contributions are the after text; and the
/// script applied to the units of the before text gives the after text.
pub proof fn lemma_diff_reconstructs_texts(before: Seq<char>, after: Seq<char>)
    requires
        before.len() <= usize::MAX,
        after.len() <= usize::MAX,
    ensures
        ({
            let b = line_units(before);
            let a = line_units(after);
            let script = edit_script(b, a);
            &&& is_script(script, b, a)
            &&& before_side(script, b).flatten() == before
            &&& after_side(script, a).flatten() == after
            &&& patched(script, b, a).flatten() == after
        }),
{
    let b = line_units(before);
    let a = line_units(after);
    lemma_units_shape(before);
    lemma_units_shape(after);
    lemma_units_round_trip(before);
    lemma_units_round_trip(after);
    lemma_edit_script_is_script(b, a);
    lemma_script_reconstructs(edit_script(b, a), b, a);
}

/// Symmetry law.  Where the edit script from `after` to `before` keeps the
/// pairs of lines that the script from `before` to `after` keeps, the
/// hunks of the one diff are the mirror images of the hunks of the other:
/// deletions and insertions change places and cover the same lines.
/// (Two texts can have several alignments that keep equally many lines,
/// and the matcher need not choose the same one in both directions.)
pub proof fn lemma_reversed_diff_mirrors(before: Seq<char>, after: Seq<char>, context: int)
    requires
        rows(edit_script(line_units(after), line_units(before))) == mirror_rows(
            rows(edit_script(line_units(before), line_units(after))),
        ),
    ensures
        hunks_of(edit_script(line_units(after), line_units(before)), context) == mirror_hunks(
            hunks_of(edit_script(line_units(before), line_units(after)), context),
        ),
{
    lemma_mirrored_rows_give_mirrored_hunks(
        edit_script(line_units(before), line_units(after)),
        edit_script(line_units(after), line_units(before)),
        context,
    );
}

/// Computes the unified diff of `before` and `after` with `context_size`
/// lines of context around each change.
pub fn compute_unified_diff(before: &str, after: &str, context_size: usize) -> (text: String)
    ensures
        text@ == unified_diff(before@, after@, context_size as int),
        before@ == after@ ==> text@ == Seq::<char>::empty(),
{
    let before_lines = split_lines(before);
    let after_lines = split_lines(after);
    let script = diff_lines(&before_lines, &after_lines);
    let hunks = build_hunks(&script, context_size);
    proof {
        if before@ == after@ {
            lemma_same_text_has_empty_diff(before@, context_size as int);
        }
    }
    format_hunks(&hunks, &before_lines, &after_lines)
}

/// Computes the unified diff of `before` and `after` with three lines of
/// context around each change.
pub fn diff(before: &str, after: &str) -> (text: String)
    ensures
        text@ == unified_diff(before@, after@, DEFAULT_CONTEXT as int),
{
    compute_unified_diff(before, after, DEFAULT_CONTEXT)
}

} // verus!
