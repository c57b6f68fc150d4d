use onehot::join_fields;
use onehot::split_line;

fn strings(raw: &[&str]) -> Vec<String> {
    raw.iter().map(|s| s.to_string()).collect()
}

#[test]
fn split_plain() {
    assert_eq!(split_line("a,b,c"), strings(&["a", "b", "c"]));
}

#[test]
fn split_empty_line() {
    assert_eq!(split_line(""), strings(&[""]));
}

#[test]
fn split_keeps_empty_fields() {
    assert_eq!(split_line("a,,b,"), strings(&["a", "", "b", ""]));
    assert_eq!(split_line(","), strings(&["", ""]));
}

#[test]
fn split_no_quoting() {
    // No quote handling: the delimiter always splits.
    assert_eq!(split_line("\"a,b\""), strings(&["\"a", "b\""]));
}

#[test]
fn join_plain() {
    assert_eq!(join_fields(&strings(&["a", "b", "c"])), "a,b,c");
}

#[test]
fn join_empty_fields() {
    assert_eq!(join_fields(&strings(&["", ""])), ",");
    assert_eq!(join_fields(&strings(&[])), "");
}

#[test]
fn split_then_join_round_trip() {
    for line in ["", "a", "a,b", ",x,,y,", "one,two,three"] {
        assert_eq!(join_fields(&split_line(line)), line);
    }
}
