use diffgen::{compute_unified_diff, diff};

#[test]
fn test_diff() {
    let diff_result = diff("hello\nworld\n", "bye\nworld\n");
    assert_eq!(diff_result, "@@ -1,2 +1,2 @@\n-hello\n+bye\n world\n");
}

#[test]
fn replaced_first_line_with_context_three() {
    assert_eq!(
        compute_unified_diff("hello\nworld\n", "bye\nworld\n", 3),
        "@@ -1,2 +1,2 @@\n-hello\n+bye\n world\n"
    );
}

#[test]
fn equal_texts_give_the_empty_text() {
    assert_eq!(compute_unified_diff("a\nb\nc\n", "a\nb\nc\n", 3), "");
    assert_eq!(compute_unified_diff("a\nb\nc\n", "a\nb\nc\n", 0), "");
    assert_eq!(compute_unified_diff("", "", 3), "");
    assert_eq!(compute_unified_diff("no newline", "no newline", 1), "");
}

#[test]
fn appended_line_keeps_explicit_count_of_one() {
    assert_eq!(compute_unified_diff("a\n", "a\nb\n", 3), "@@ -1,1 +1,2 @@\n a\n+b\n");
}

#[test]
fn insertion_into_the_empty_text() {
    assert_eq!(compute_unified_diff("", "a\n", 3), "@@ -0,0 +1,1 @@\n+a\n");
}

#[test]
fn deletion_of_the_whole_text() {
    assert_eq!(compute_unified_diff("a\nb\n", "", 3), "@@ -1,2 +0,0 @@\n-a\n-b\n");
}

#[test]
fn context_zero_shows_changes_only() {
    assert_eq!(
        compute_unified_diff("a\nb\nc\n", "a\nx\nc\n", 0),
        "@@ -2,1 +2,1 @@\n-b\n+x\n"
    );
}

#[test]
fn context_is_clipped_at_both_ends() {
    let before = "1\n2\n3\n4\n5\n6\n7\n8\n9\n";
    let after = "1\n2\n3\n4\nfive\n6\n7\n8\n9\n";
    assert_eq!(
        compute_unified_diff(before, after, 2),
        "@@ -3,5 +3,5 @@\n 3\n 4\n-5\n+five\n 6\n 7\n"
    );
    assert_eq!(
        compute_unified_diff(before, after, 10),
        "@@ -1,9 +1,9 @@\n 1\n 2\n 3\n 4\n-5\n+five\n 6\n 7\n 8\n 9\n"
    );
}

#[test]
fn changes_within_twice_the_context_share_a_hunk() {
    let before = "a\n1\n2\n3\n4\nb\n";
    let after = "A\n1\n2\n3\n4\nB\n";
    assert_eq!(
        compute_unified_diff(before, after, 2),
        "@@ -1,6 +1,6 @@\n-a\n+A\n 1\n 2\n 3\n 4\n-b\n+B\n"
    );
}

#[test]
fn changes_further_apart_get_hunks_of_their_own() {
    let before = "a\n1\n2\n3\n4\n5\nb\n";
    let after = "A\n1\n2\n3\n4\n5\nB\n";
    assert_eq!(
        compute_unified_diff(before, after, 2),
        "@@ -1,3 +1,3 @@\n-a\n+A\n 1\n 2\n@@ -5,3 +5,3 @@\n 4\n 5\n-b\n+B\n"
    );
}

#[test]
fn line_numbers_of_several_digits() {
    let mut before = String::new();
    let mut after = String::new();
    for i in 0..120 {
        before.push_str(&format!("line {}\n", i));
        if i == 110 {
            after.push_str("changed\n");
        } else {
            after.push_str(&format!("line {}\n", i));
        }
    }
    assert_eq!(
        compute_unified_diff(&before, &after, 1),
        "@@ -110,3 +110,3 @@\n line 109\n-line 110\n+changed\n line 111\n"
    );
}

#[test]
fn last_line_without_newline_is_printed_as_it_is() {
    assert_eq!(compute_unified_diff("a\nb", "a\nc", 3), "@@ -1,2 +1,2 @@\n a\n-b+c");
    assert_eq!(compute_unified_diff("a\nb", "a\nb\n", 3), "@@ -1,2 +1,2 @@\n a\n-b+b\n");
}

#[test]
fn carriage_return_alone_ends_no_line() {
    assert_eq!(
        compute_unified_diff("a\rb\r\nc\n", "a\rb\r\nd\n", 0),
        "@@ -2,1 +2,1 @@\n-c\n+d\n"
    );
}

#[test]
fn reversed_diff_swaps_the_signs() {
    let forward = compute_unified_diff("a\nb\nc\n", "a\nx\nc\n", 1);
    let backward = compute_unified_diff("a\nx\nc\n", "a\nb\nc\n", 1);
    assert_eq!(forward, "@@ -1,3 +1,3 @@\n a\n-b\n+x\n c\n");
    assert_eq!(backward, "@@ -1,3 +1,3 @@\n a\n-x\n+b\n c\n");
}

#[test]
fn exchanged_lines_keep_one_line_in_either_direction() {
    assert_eq!(compute_unified_diff("a\nb\n", "b\na\n", 3), "@@ -1,2 +1,2 @@\n+b\n a\n-b\n");
    assert_eq!(compute_unified_diff("b\na\n", "a\nb\n", 3), "@@ -1,2 +1,2 @@\n+a\n b\n-a\n");
}
