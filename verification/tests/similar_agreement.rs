use diffgen::compute_unified_diff;
use diffgen::hunks::build_hunks;
use diffgen::lines::split_lines;
use diffgen::matcher::diff_lines;
use diffgen::script::{EditOp, OpKind};
use similar::{capture_diff_slices, group_diff_ops, Algorithm, DiffOp, TextDiff};

fn numbered(count: usize, changed: &[usize]) -> String {
    let mut text = String::new();
    for i in 0..count {
        if changed.contains(&i) {
            text.push_str(&format!("changed {}\n", i));
        } else {
            text.push_str(&format!("line {}\n", i));
        }
    }
    text
}

fn samples() -> Vec<(String, String)> {
    vec![
        ("".to_string(), "".to_string()),
        ("".to_string(), "a\nb\n".to_string()),
        ("a\nb\n".to_string(), "".to_string()),
        ("a\nb\nc\n".to_string(), "a\nb\nc\n".to_string()),
        ("hello\nworld\n".to_string(), "bye\nworld\n".to_string()),
        ("a\nb\n".to_string(), "b\na\n".to_string()),
        ("a\nb\nc\nd\ne\n".to_string(), "x\ny\n".to_string()),
        ("a\nb\nc\nd\n".to_string(), "a\nc\nd\ne\n".to_string()),
        ("a\na\na\n".to_string(), "a\na\n".to_string()),
        ("a\nb\na\nb\na\n".to_string(), "b\na\nb\na\nb\n".to_string()),
        (numbered(30, &[]), numbered(30, &[3, 4, 11, 20, 29])),
        (numbered(30, &[0, 7]), numbered(30, &[7, 14, 15])),
        (numbered(120, &[]), numbered(120, &[50, 57, 110])),
        (numbered(12, &[]), numbered(9, &[2])),
    ]
}

/// An operation with the positions on the sides that it covers.
type Placed = (OpKind, Option<usize>, Option<usize>, usize);

fn placed(kind: OpKind, before_start: usize, after_start: usize, len: usize) -> Placed {
    match kind {
        OpKind::Equal => (kind, Some(before_start), Some(after_start), len),
        OpKind::Delete => (kind, Some(before_start), None, len),
        OpKind::Insert => (kind, None, Some(after_start), len),
    }
}

fn ours(ops: &[EditOp]) -> Vec<Placed> {
    ops.iter().map(|op| placed(op.kind, op.before_start, op.after_start, op.len)).collect()
}

fn theirs(ops: &[DiffOp]) -> Vec<Placed> {
    let mut out = Vec::new();
    for op in ops {
        match *op {
            DiffOp::Equal { old_index, new_index, len } => {
                if len > 0 {
                    out.push(placed(OpKind::Equal, old_index, new_index, len));
                }
            }
            DiffOp::Delete { old_index, old_len, new_index } => {
                out.push(placed(OpKind::Delete, old_index, new_index, old_len));
            }
            DiffOp::Insert { old_index, new_index, new_len } => {
                out.push(placed(OpKind::Insert, old_index, new_index, new_len));
            }
            DiffOp::Replace { old_index, old_len, new_index, new_len } => {
                out.push(placed(OpKind::Delete, old_index, new_index, old_len));
                out.push(placed(OpKind::Insert, old_index + old_len, new_index, new_len));
            }
        }
    }
    out
}

/// Tells whether every operation names, on both sides, the position that
/// the operations before it have reached.
fn positions_are_consistent(ops: &[DiffOp]) -> bool {
    let mut before = 0;
    let mut after = 0;
    for op in ops {
        let (_, old, new) = op.as_tag_tuple();
        if old.start != before || new.start != after {
            return false;
        }
        before = old.end;
        after = new.end;
    }
    true
}

/// Compares two diffs line by line.  Header lines are compared only where
/// `headers` is set.
fn assert_same_diff(ours: &str, theirs: &str, headers: bool) {
    let ours: Vec<&str> = ours.split_inclusive('\n').collect();
    let theirs: Vec<&str> = theirs.split_inclusive('\n').collect();
    assert_eq!(ours.len(), theirs.len());
    for (x, y) in ours.iter().zip(theirs.iter()) {
        if x.starts_with("@@ ") && y.starts_with("@@ ") && !headers {
            continue;
        }
        assert_eq!(x, y);
    }
}

/// Writes `,1` out in the header lines of a diff that leaves it away.
fn with_explicit_counts(text: &str) -> String {
    let mut out = String::new();
    for line in text.split_inclusive('\n') {
        if let Some(rest) = line.strip_prefix("@@ -") {
            let rest = rest.strip_suffix(" @@\n").unwrap();
            let (before, after) = rest.split_once(" +").unwrap();
            let explicit = |range: &str| {
                if range.contains(',') {
                    range.to_string()
                } else {
                    format!("{},1", range)
                }
            };
            out.push_str(&format!("@@ -{} +{} @@\n", explicit(before), explicit(after)));
        } else {
            out.push_str(line);
        }
    }
    out
}

#[test]
fn scripts_agree_with_the_matcher() {
    for (before, after) in samples() {
        let b = split_lines(&before);
        let a = split_lines(&after);
        assert_eq!(ours(&diff_lines(&b, &a)), theirs(&capture_diff_slices(Algorithm::Myers, &b, &a)));
    }
}

#[test]
fn hunks_agree_with_grouped_operations() {
    for (before, after) in samples() {
        let b = split_lines(&before);
        let a = split_lines(&after);
        for context in 0..7 {
            let hunks: Vec<Vec<Placed>> =
                build_hunks(&diff_lines(&b, &a), context).iter().map(|hunk| ours(&hunk.ops)).collect();
            let groups: Vec<Vec<Placed>> =
                group_diff_ops(capture_diff_slices(Algorithm::Myers, &b, &a), context)
                    .iter()
                    .map(|group| theirs(group))
                    .collect();
            assert_eq!(hunks, groups);
        }
    }
}

#[test]
fn text_agrees_with_the_unified_diff_of_text_diff() {
    for (before, after) in samples() {
        for context in 0..7 {
            let diff = TextDiff::from_lines(before.as_str(), after.as_str());
            let text = diff.unified_diff().context_radius(context).to_string();
            assert_same_diff(
                &compute_unified_diff(&before, &after, context),
                &with_explicit_counts(&text),
                positions_are_consistent(diff.ops()),
            );
        }
    }
}

/// A small linear congruential generator, so that the cases are the same in
/// every run.
fn next(state: &mut u64) -> u64 {
    *state = state.wrapping_mul(6364136223846793005).wrapping_add(1442695040888963407);
    *state >> 33
}

fn random_text(state: &mut u64, max_lines: u64, alphabet: u64) -> String {
    let mut text = String::new();
    for _ in 0..next(state) % (max_lines + 1) {
        text.push_str(&format!("{}\n", next(state) % alphabet));
    }
    text
}

#[test]
fn generated_texts_agree_in_script_hunks_and_text() {
    let mut state: u64 = 2024;
    let mut consistent = 0;
    for case in 0..400 {
        let alphabet = 2 + case % 5;
        let before = random_text(&mut state, 24, alphabet);
        let after = random_text(&mut state, 24, alphabet);
        let b = split_lines(&before);
        let a = split_lines(&after);
        let script = diff_lines(&b, &a);
        let raw = capture_diff_slices(Algorithm::Myers, &b, &a);
        assert_eq!(ours(&script), theirs(&raw));
        if positions_are_consistent(&raw) {
            consistent += 1;
        }
        for context in 0..5 {
            let hunks: Vec<Vec<Placed>> =
                build_hunks(&script, context).iter().map(|hunk| ours(&hunk.ops)).collect();
            let groups: Vec<Vec<Placed>> =
                group_diff_ops(raw.clone(), context).iter().map(|group| theirs(group)).collect();
            assert_eq!(hunks, groups);
            let diff = TextDiff::from_lines(before.as_str(), after.as_str());
            let text = diff.unified_diff().context_radius(context).to_string();
            assert_same_diff(
                &compute_unified_diff(&before, &after, context),
                &with_explicit_counts(&text),
                positions_are_consistent(diff.ops()),
            );
        }
    }
    assert!(consistent >= 200);
}
