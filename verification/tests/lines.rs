use diffgen::lines::{join_lines, split_lines};

fn strings(parts: &[&str]) -> Vec<String> {
    parts.iter().map(|s| s.to_string()).collect()
}

#[test]
fn empty_text_has_no_unit() {
    assert_eq!(split_lines(""), Vec::<String>::new());
}

#[test]
fn split_keeps_terminators() {
    assert_eq!(split_lines("a\nb\nc"), strings(&["a\n", "b\n", "c"]));
    assert_eq!(split_lines("a\nb\nc\n"), strings(&["a\n", "b\n", "c\n"]));
}

#[test]
fn empty_lines_are_units() {
    assert_eq!(split_lines("\n\nx\n\n"), strings(&["\n", "\n", "x\n", "\n"]));
    assert_eq!(split_lines("\n"), strings(&["\n"]));
}

#[test]
fn carriage_returns_stay_inside_units() {
    assert_eq!(split_lines("a\r\nb\rc"), strings(&["a\r\n", "b\rc"]));
}

#[test]
fn units_concatenate_to_the_text() {
    for text in ["", "x", "x\n", "\n", "a\nb", "a\n\nb\n", "héllo\nwörld", "\r\n\r\n"] {
        assert_eq!(split_lines(text).concat(), text);
        assert_eq!(join_lines(&split_lines(text)), text);
    }
}

#[test]
fn joins_any_lines() {
    assert_eq!(join_lines(&strings(&[])), "");
    assert_eq!(join_lines(&strings(&["a", "", "b\nc", "\n"])), "ab\nc\n");
}
