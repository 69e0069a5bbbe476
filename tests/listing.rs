use dir_listing::listing::{
    full_listing, name_listing, search_dir, select_action, walk_output, wide_listing, Action,
    Child, ListError, Mode,
};

fn child(path: &str, is_dir: bool) -> Child {
    Child { path: path.to_string(), is_dir }
}

fn strings(v: &[&str]) -> Vec<String> {
    v.iter().map(|s| s.to_string()).collect()
}

#[test]
fn action_single_flags() {
    assert_eq!(select_action(true, false, false, false), Action::List(Mode::Names));
    assert_eq!(select_action(true, true, false, false), Action::List(Mode::Recursive));
    assert_eq!(select_action(true, false, true, false), Action::List(Mode::Full));
    assert_eq!(select_action(true, false, false, true), Action::List(Mode::Wide));
}

#[test]
fn action_conflicting_flags() {
    assert_eq!(select_action(true, true, false, true), Action::ConflictingFlags);
    assert_eq!(select_action(true, true, true, false), Action::ConflictingFlags);
    assert_eq!(select_action(true, false, true, true), Action::ConflictingFlags);
    assert_eq!(select_action(true, true, true, true), Action::ConflictingFlags);
}

#[test]
fn action_missing_path() {
    assert_eq!(select_action(false, false, false, false), Action::PathMissing);
    assert_eq!(select_action(false, false, false, true), Action::PathMissing);
    assert_eq!(select_action(false, true, false, false), Action::PathMissing);
}

#[test]
fn action_conflict_before_missing_path() {
    assert_eq!(select_action(false, true, false, true), Action::ConflictingFlags);
    assert_eq!(select_action(false, true, true, true), Action::ConflictingFlags);
}

#[test]
fn search_dir_prefers_given_path() {
    assert_eq!(search_dir(Some("/srv".to_string()), "/home".to_string()), "/srv".to_string());
    assert_eq!(search_dir(None, "/home".to_string()), "/home".to_string());
}

#[test]
fn name_listing_sorts_bracketed_names() {
    let children = vec![child("/d/c.txt", false), child("/d/b", true), child("/d/a", false)];
    assert_eq!(name_listing(&children), Ok(strings(&["[b]", "a", "c.txt"])));
}

#[test]
fn name_listing_same_for_any_read_order() {
    let first = vec![child("/d/zeta", true), child("/d/mid.rs", false), child("/d/Alpha", false)];
    let second = vec![first[1].clone(), first[2].clone(), first[0].clone()];
    let a = name_listing(&first);
    let b = name_listing(&second);
    assert_eq!(a, b);
    assert_eq!(a, Ok(strings(&["Alpha", "[zeta]", "mid.rs"])));
}

#[test]
fn name_listing_empty_directory() {
    assert_eq!(name_listing(&Vec::new()), Ok(Vec::new()));
}

#[test]
fn name_listing_fails_without_name() {
    let children = vec![child("/d/a", false), child("/", true)];
    assert_eq!(name_listing(&children), Err(ListError::NoFileName));
}

#[test]
fn full_listing_keeps_paths_and_order() {
    let children = vec![child("/d/z", true), child("/d/a.txt", false), child("/d/m", false)];
    assert_eq!(full_listing(&children), strings(&["/d/z", "/d/a.txt", "/d/m"]));
    assert_eq!(full_listing(&Vec::new()), Vec::<String>::new());
}

#[test]
fn wide_listing_lays_out_display_names() {
    let children = vec![child("/d/a", false), child("/d/src", true), child("/d/b.rs", false)];
    let lines = wide_listing(&children, Some(16)).unwrap();
    assert_eq!(lines, strings(&["a       [src]   ", "b.rs    "]));
}

#[test]
fn wide_listing_without_width() {
    let children = vec![child("/d/a", false)];
    assert_eq!(wide_listing(&children, None), Err(ListError::NoTerminalWidth));
    assert_eq!(wide_listing(&vec![child("/", true)], None), Err(ListError::NoTerminalWidth));
}

#[test]
fn wide_listing_fails_without_name() {
    let children = vec![child("/d/a", false), child("..", true)];
    assert_eq!(wide_listing(&children, Some(80)), Err(ListError::NoFileName));
}

#[test]
fn walk_output_skips_failures_and_directories() {
    assert_eq!(walk_output(None, true), None);
    assert_eq!(walk_output(Some("/srv/dir".to_string()), false), None);
}

#[test]
fn walk_output_reports_plain_file_paths() {
    assert_eq!(walk_output(Some("/srv/a.txt".to_string()), true), Some("/srv/a.txt".to_string()));
    assert_eq!(
        walk_output(Some(r"\\?\C:\srv\a.txt".to_string()), true),
        Some(r"C:\srv\a.txt".to_string())
    );
}
