use diffgen::hunks::{build_hunks, hunks_fit, Hunk};
use diffgen::lines::split_lines;
use diffgen::render::format_hunks;
use diffgen::script::{covers_lines, EditOp, OpKind};

fn op(kind: OpKind, before_start: usize, after_start: usize, len: usize) -> EditOp {
    EditOp { kind, before_start, after_start, len }
}

#[test]
fn script_without_change_has_no_hunk() {
    assert_eq!(build_hunks(&vec![op(OpKind::Equal, 0, 0, 5)], 3), Vec::<Hunk>::new());
    assert_eq!(build_hunks(&Vec::new(), 3), Vec::<Hunk>::new());
    assert_eq!(
        build_hunks(&vec![op(OpKind::Equal, 0, 0, 2), op(OpKind::Equal, 2, 2, 3)], 0),
        Vec::<Hunk>::new()
    );
}

#[test]
fn context_is_cut_to_size() {
    let script =
        vec![op(OpKind::Equal, 0, 0, 10), op(OpKind::Delete, 10, 10, 1), op(OpKind::Equal, 11, 10, 10)];
    assert_eq!(
        build_hunks(&script, 3),
        vec![Hunk {
            before_start: 8,
            before_count: 7,
            after_start: 8,
            after_count: 6,
            ops: vec![
                op(OpKind::Equal, 7, 7, 3),
                op(OpKind::Delete, 10, 10, 1),
                op(OpKind::Equal, 11, 10, 3),
            ],
        }]
    );
}

#[test]
fn context_is_clipped_by_the_ends() {
    let script =
        vec![op(OpKind::Equal, 0, 0, 2), op(OpKind::Insert, 2, 2, 2), op(OpKind::Equal, 2, 4, 1)];
    assert_eq!(
        build_hunks(&script, 3),
        vec![Hunk {
            before_start: 1,
            before_count: 3,
            after_start: 1,
            after_count: 5,
            ops: script.clone(),
        }]
    );
}

#[test]
fn gap_of_twice_the_context_is_merged() {
    let script = vec![
        op(OpKind::Delete, 0, 0, 1),
        op(OpKind::Equal, 1, 0, 6),
        op(OpKind::Insert, 7, 6, 1),
    ];
    let hunks = build_hunks(&script, 3);
    assert_eq!(
        hunks,
        vec![Hunk { before_start: 1, before_count: 7, after_start: 1, after_count: 7, ops: script }]
    );
}

#[test]
fn gap_of_more_than_twice_the_context_is_split() {
    let script = vec![
        op(OpKind::Delete, 0, 0, 1),
        op(OpKind::Equal, 1, 0, 7),
        op(OpKind::Insert, 8, 7, 1),
    ];
    assert_eq!(
        build_hunks(&script, 3),
        vec![
            Hunk {
                before_start: 1,
                before_count: 4,
                after_start: 1,
                after_count: 3,
                ops: vec![op(OpKind::Delete, 0, 0, 1), op(OpKind::Equal, 1, 0, 3)],
            },
            Hunk {
                before_start: 6,
                before_count: 3,
                after_start: 5,
                after_count: 4,
                ops: vec![op(OpKind::Equal, 5, 4, 3), op(OpKind::Insert, 8, 7, 1)],
            },
        ]
    );
}

#[test]
fn context_zero_keeps_changes_only() {
    let script = vec![
        op(OpKind::Equal, 0, 0, 2),
        op(OpKind::Delete, 2, 2, 1),
        op(OpKind::Equal, 3, 2, 1),
        op(OpKind::Insert, 4, 3, 2),
        op(OpKind::Equal, 4, 5, 2),
    ];
    assert_eq!(
        build_hunks(&script, 0),
        vec![
            Hunk {
                before_start: 3,
                before_count: 1,
                after_start: 2,
                after_count: 0,
                ops: vec![op(OpKind::Delete, 2, 2, 1)],
            },
            Hunk {
                before_start: 4,
                before_count: 0,
                after_start: 4,
                after_count: 2,
                ops: vec![op(OpKind::Insert, 4, 3, 2)],
            },
        ]
    );
}

#[test]
fn split_and_empty_operations_do_not_matter() {
    let plain = vec![
        op(OpKind::Equal, 0, 0, 5),
        op(OpKind::Delete, 5, 5, 2),
        op(OpKind::Equal, 7, 5, 5),
    ];
    let broken = vec![
        op(OpKind::Equal, 0, 0, 2),
        op(OpKind::Insert, 2, 2, 0),
        op(OpKind::Equal, 2, 2, 3),
        op(OpKind::Delete, 5, 5, 1),
        op(OpKind::Delete, 6, 5, 1),
        op(OpKind::Equal, 7, 5, 0),
        op(OpKind::Equal, 7, 5, 4),
        op(OpKind::Equal, 11, 9, 1),
    ];
    for context in 0..8 {
        assert_eq!(build_hunks(&plain, context), build_hunks(&broken, context));
    }
    assert_eq!(
        build_hunks(&broken, 2),
        vec![Hunk {
            before_start: 4,
            before_count: 6,
            after_start: 4,
            after_count: 4,
            ops: vec![
                op(OpKind::Equal, 3, 3, 2),
                op(OpKind::Delete, 5, 5, 2),
                op(OpKind::Equal, 7, 5, 2),
            ],
        }]
    );
}

#[test]
fn huge_context_shows_everything() {
    let script =
        vec![op(OpKind::Equal, 0, 0, 4), op(OpKind::Insert, 4, 4, 1), op(OpKind::Equal, 4, 5, 4)];
    assert_eq!(
        build_hunks(&script, usize::MAX),
        vec![Hunk { before_start: 1, before_count: 8, after_start: 1, after_count: 9, ops: script }]
    );
}

#[test]
fn every_hunk_has_at_most_the_context_on_each_side() {
    let script = vec![
        op(OpKind::Equal, 0, 0, 9),
        op(OpKind::Delete, 9, 9, 1),
        op(OpKind::Equal, 10, 9, 5),
        op(OpKind::Insert, 15, 14, 1),
        op(OpKind::Equal, 15, 15, 1),
    ];
    for context in 0..6 {
        let hunks = build_hunks(&script, context);
        for hunk in &hunks {
            let first = hunk.ops.first().unwrap();
            let last = hunk.ops.last().unwrap();
            if first.kind == OpKind::Equal {
                assert!(first.len <= context);
            }
            if last.kind == OpKind::Equal {
                assert!(last.len <= context);
            }
        }
        assert_eq!(hunks.len(), if context < 3 { 2 } else { 1 });
    }
}

#[test]
fn formats_hunks_with_their_lines() {
    let before = split_lines("a\nb\nc\n");
    let after = split_lines("a\nx\ny\nc\n");
    let script = vec![
        op(OpKind::Equal, 0, 0, 1),
        op(OpKind::Delete, 1, 1, 1),
        op(OpKind::Insert, 2, 1, 2),
        op(OpKind::Equal, 2, 3, 1),
    ];
    let hunks = build_hunks(&script, 1);
    assert_eq!(format_hunks(&hunks, &before, &after), "@@ -1,3 +1,4 @@\n a\n-b\n+x\n+y\n c\n");
    assert_eq!(format_hunks(&Vec::new(), &before, &after), "");
}

#[test]
fn formats_header_numbers_in_decimal() {
    let before: Vec<String> = (0..1205).map(|i| format!("{}\n", i)).collect();
    let after: Vec<String> = before[..1200].to_vec();
    let hunk = Hunk {
        before_start: 1201,
        before_count: 5,
        after_start: 1200,
        after_count: 0,
        ops: vec![op(OpKind::Delete, 1200, 1200, 5)],
    };
    assert_eq!(
        format_hunks(&vec![hunk], &before, &after),
        "@@ -1201,5 +1200,0 @@\n-1200\n-1201\n-1202\n-1203\n-1204\n"
    );
}

#[test]
fn tells_scripts_that_cover_the_lines() {
    let script = vec![
        op(OpKind::Equal, 0, 0, 2),
        op(OpKind::Delete, 2, 2, 1),
        op(OpKind::Insert, 3, 2, 2),
        op(OpKind::Equal, 3, 4, 1),
    ];
    assert!(covers_lines(&script, 4, 5));
    assert!(!covers_lines(&script, 5, 5));
    assert!(!covers_lines(&script, 4, 4));
    assert!(!covers_lines(&script[1..].to_vec(), 4, 5));
    assert!(!covers_lines(&vec![op(OpKind::Equal, 0, 0, 2), op(OpKind::Equal, 3, 3, 1)], 4, 4));
    assert!(!covers_lines(&vec![op(OpKind::Delete, 0, 0, usize::MAX), op(OpKind::Delete, usize::MAX, 0, 2)], 1, 0));
    assert!(covers_lines(&Vec::new(), 0, 0));
    assert!(!covers_lines(&Vec::new(), 1, 0));
}

#[test]
fn tells_hunks_that_fit_the_lines() {
    let script =
        vec![op(OpKind::Equal, 0, 0, 4), op(OpKind::Insert, 4, 4, 1), op(OpKind::Equal, 4, 5, 4)];
    let hunks = build_hunks(&script, 2);
    assert!(hunks_fit(&hunks, 8, 9));
    assert!(hunks_fit(&hunks, 6, 7));
    assert!(!hunks_fit(&hunks, 5, 7));
    assert!(!hunks_fit(&hunks, 6, 6));
    assert!(hunks_fit(&Vec::new(), 0, 0));
}
