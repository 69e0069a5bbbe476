use dir_listing::layout::{get_string_max_length, line_capacity, pad_right, wide_lines};

fn strings(v: &[&str]) -> Vec<String> {
    v.iter().map(|s| s.to_string()).collect()
}

#[test]
fn max_length_counts_bytes() {
    assert_eq!(get_string_max_length(&strings(&["ab", "abcd", "a"])), 4);
    assert_eq!(get_string_max_length(&strings(&["日本", "a"])), 6);
    assert_eq!(get_string_max_length(&strings(&["é", "ab"])), 2);
    assert_eq!(get_string_max_length(&Vec::new()), 0);
}

#[test]
fn wide_lines_measure_bytes_and_pad_characters() {
    let names = strings(&["日本", "a"]);
    assert_eq!(wide_lines(&names, 20), strings(&["日本       a        "]));
}

#[test]
fn capacity_divides_width_by_column() {
    assert_eq!(line_capacity(80, 7), 8);
    assert_eq!(line_capacity(81, 7), 8);
    assert_eq!(line_capacity(20, 3), 3);
}

#[test]
fn capacity_is_one_when_column_too_wide() {
    assert_eq!(line_capacity(5, 10), 1);
    assert_eq!(line_capacity(0, 0), 1);
}

#[test]
fn pad_right_fills_with_blanks() {
    assert_eq!(pad_right("ab", 5), "ab   ".to_string());
    assert_eq!(pad_right("abcdef", 3), "abcdef".to_string());
    assert_eq!(pad_right("", 2), "  ".to_string());
}

#[test]
fn wide_lines_one_line() {
    let names = strings(&["a", "bb", "ccc"]);
    assert_eq!(wide_lines(&names, 20), strings(&["a     bb    ccc   "]));
}

#[test]
fn wide_lines_full_rows_then_rest() {
    let names = strings(&["a", "bb", "ccc", "d", "e"]);
    let lines = wide_lines(&names, 12);
    assert_eq!(lines, strings(&["a     bb    ", "ccc   d     ", "e     "]));
}

#[test]
fn wide_lines_narrow_terminal_gives_one_column() {
    let names = strings(&["alpha", "b"]);
    assert_eq!(wide_lines(&names, 4), strings(&["alpha   ", "b       "]));
}

#[test]
fn wide_lines_empty() {
    assert_eq!(wide_lines(&Vec::new(), 80), Vec::<String>::new());
}
