use diffgen::lines::split_lines;
use diffgen::matcher::{
    diff_lines, keep_all_script, replace_all_script, same_lines, same_range, script_from_matcher,
    MatcherOp,
};
use diffgen::script::{EditOp, OpKind};

fn op(kind: OpKind, before_start: usize, after_start: usize, len: usize) -> EditOp {
    EditOp { kind, before_start, after_start, len }
}

#[test]
fn diff_lines_replaces_first_line() {
    let before = split_lines("hello\nworld\n");
    let after = split_lines("bye\nworld\n");
    assert_eq!(
        diff_lines(&before, &after),
        vec![op(OpKind::Delete, 0, 0, 1), op(OpKind::Insert, 1, 0, 1), op(OpKind::Equal, 1, 1, 1)]
    );
}

#[test]
fn equal_sequences_yield_one_equal_operation() {
    let lines = split_lines("a\nb\nc\n");
    assert_eq!(diff_lines(&lines, &lines), vec![op(OpKind::Equal, 0, 0, 3)]);
    let none = split_lines("");
    assert_eq!(diff_lines(&none, &none), Vec::<EditOp>::new());
}

#[test]
fn disjoint_sequences_yield_one_delete_and_one_insert() {
    let before = split_lines("a\nb\n");
    let after = split_lines("x\ny\nz\n");
    assert_eq!(
        diff_lines(&before, &after),
        vec![op(OpKind::Delete, 0, 0, 2), op(OpKind::Insert, 2, 0, 3)]
    );
}

#[test]
fn one_side_empty() {
    let before = split_lines("a\nb\n");
    let none = split_lines("");
    assert_eq!(diff_lines(&before, &none), vec![op(OpKind::Delete, 0, 0, 2)]);
    assert_eq!(diff_lines(&none, &before), vec![op(OpKind::Insert, 0, 0, 2)]);
}

#[test]
fn change_in_the_middle() {
    let before = split_lines("a\nb\nc\nd\n");
    let after = split_lines("a\nc\nd\ne\n");
    assert_eq!(
        diff_lines(&before, &after),
        vec![
            op(OpKind::Equal, 0, 0, 1),
            op(OpKind::Delete, 1, 1, 1),
            op(OpKind::Equal, 2, 1, 2),
            op(OpKind::Insert, 4, 3, 1),
        ]
    );
}

#[test]
fn script_covers_both_sides() {
    let before = split_lines("a\nb\nc\nd\ne\nf\n");
    let after = split_lines("b\nc\nx\ne\ny\nf\ng\n");
    let script = diff_lines(&before, &after);
    let mut before_side: Vec<String> = Vec::new();
    let mut after_side: Vec<String> = Vec::new();
    let mut patched: Vec<String> = Vec::new();
    for op in &script {
        match op.kind {
            OpKind::Equal => {
                before_side.extend_from_slice(&before[op.before_start..op.before_start + op.len]);
                after_side.extend_from_slice(&after[op.after_start..op.after_start + op.len]);
                patched.extend_from_slice(&before[op.before_start..op.before_start + op.len]);
            }
            OpKind::Delete => {
                before_side.extend_from_slice(&before[op.before_start..op.before_start + op.len]);
            }
            OpKind::Insert => {
                after_side.extend_from_slice(&after[op.after_start..op.after_start + op.len]);
                patched.extend_from_slice(&after[op.after_start..op.after_start + op.len]);
            }
        }
    }
    assert_eq!(before_side, before);
    assert_eq!(after_side, after);
    assert_eq!(patched, after);
}

#[test]
fn matcher_operations_become_a_script() {
    let before = split_lines("a\nb\nc\n");
    let after = split_lines("a\nx\ny\nc\n");
    let raw = vec![
        MatcherOp::Equal { len: 1 },
        MatcherOp::Replace { before_len: 1, after_len: 2 },
        MatcherOp::Equal { len: 1 },
    ];
    assert_eq!(
        script_from_matcher(&raw, &before, &after),
        vec![
            op(OpKind::Equal, 0, 0, 1),
            op(OpKind::Delete, 1, 1, 1),
            op(OpKind::Insert, 2, 1, 2),
            op(OpKind::Equal, 2, 3, 1),
        ]
    );
    let raw = vec![
        MatcherOp::Insert { len: 1 },
        MatcherOp::Equal { len: 1 },
        MatcherOp::Delete { len: 2 },
    ];
    assert_eq!(
        script_from_matcher(&raw, &split_lines("a\nb\nc\n"), &split_lines("x\na\n")),
        vec![op(OpKind::Insert, 0, 0, 1), op(OpKind::Equal, 0, 1, 1), op(OpKind::Delete, 1, 2, 2)]
    );
}

#[test]
fn operations_that_are_no_alignment_are_given_up() {
    let before = split_lines("a\nb\nc\n");
    let after = split_lines("a\nx\nc\n");
    let fallback = vec![op(OpKind::Delete, 0, 0, 3), op(OpKind::Insert, 3, 0, 3)];
    // Keeps a line that differs.
    let wrong_content = vec![MatcherOp::Equal { len: 3 }];
    assert_eq!(script_from_matcher(&wrong_content, &before, &after), fallback);
    // Leaves the last lines uncovered.
    let short = vec![MatcherOp::Equal { len: 1 }];
    assert_eq!(script_from_matcher(&short, &before, &after), fallback);
    // Leaves the after side uncovered.
    let one_sided = vec![MatcherOp::Equal { len: 1 }, MatcherOp::Delete { len: 2 }];
    assert_eq!(script_from_matcher(&one_sided, &before, &after), fallback);
    // Reaches behind the end.
    let long = vec![MatcherOp::Equal { len: 1 }, MatcherOp::Replace { before_len: 3, after_len: 2 }];
    assert_eq!(script_from_matcher(&long, &before, &after), fallback);
    let huge = vec![MatcherOp::Delete { len: usize::MAX }, MatcherOp::Delete { len: 4 }];
    assert_eq!(script_from_matcher(&huge, &before, &after), fallback);
    // Nothing at all for lines that exist.
    assert_eq!(script_from_matcher(&Vec::new(), &before, &after), fallback);
}

#[test]
fn alignment_that_keeps_no_line_is_one_delete_and_one_insert() {
    let before = split_lines("a\nb\n");
    let after = split_lines("x\ny\n");
    let raw = vec![
        MatcherOp::Replace { before_len: 1, after_len: 1 },
        MatcherOp::Equal { len: 0 },
        MatcherOp::Insert { len: 1 },
        MatcherOp::Delete { len: 1 },
    ];
    assert_eq!(
        script_from_matcher(&raw, &before, &after),
        vec![op(OpKind::Delete, 0, 0, 2), op(OpKind::Insert, 2, 0, 2)]
    );
}

#[test]
fn no_operations_align_two_empty_sequences() {
    let none: Vec<String> = Vec::new();
    assert_eq!(script_from_matcher(&Vec::new(), &none, &none), Vec::<EditOp>::new());
}

#[test]
fn trivial_scripts() {
    assert_eq!(keep_all_script(0), Vec::<EditOp>::new());
    assert_eq!(keep_all_script(4), vec![op(OpKind::Equal, 0, 0, 4)]);
    assert_eq!(replace_all_script(0, 0), Vec::<EditOp>::new());
    assert_eq!(replace_all_script(2, 0), vec![op(OpKind::Delete, 0, 0, 2)]);
    assert_eq!(replace_all_script(0, 3), vec![op(OpKind::Insert, 0, 0, 3)]);
    assert_eq!(
        replace_all_script(2, 3),
        vec![op(OpKind::Delete, 0, 0, 2), op(OpKind::Insert, 2, 0, 3)]
    );
}

#[test]
fn comparing_lines() {
    let a = split_lines("a\nb\nc\n");
    let b = split_lines("x\na\nb\n");
    assert!(same_lines(&a, &a));
    assert!(!same_lines(&a, &b));
    assert!(!same_lines(&a, &split_lines("a\nb\n")));
    assert!(same_range(&a, &b, 0, 1, 2));
    assert!(!same_range(&a, &b, 0, 0, 2));
    assert!(same_range(&a, &b, 3, 0, 0));
}
