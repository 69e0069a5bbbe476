use dir_listing::name::{ceil_path, file_name, strip_verbatim_prefix};
use dir_listing::order::{sort_strings, str_le};

#[test]
fn file_name_takes_last_component() {
    assert_eq!(file_name("/home/user/readme.txt"), Some("readme.txt".to_string()));
    assert_eq!(file_name("plain"), Some("plain".to_string()));
    assert_eq!(file_name("/home/user/docs/"), Some("docs".to_string()));
    assert_eq!(file_name("dir//sub//"), Some("sub".to_string()));
}

#[test]
fn file_name_skips_trailing_dot_components() {
    assert_eq!(file_name("a/."), Some("a".to_string()));
    assert_eq!(file_name("a/./"), Some("a".to_string()));
    assert_eq!(file_name("foo.txt/."), Some("foo.txt".to_string()));
    assert_eq!(file_name("foo.txt/.//"), Some("foo.txt".to_string()));
    assert_eq!(file_name("/x/y/./."), Some("y".to_string()));
    assert_eq!(ceil_path("foo.txt/.", true), Some("[foo.txt]".to_string()));
}

#[test]
fn file_name_none_without_a_name() {
    assert_eq!(file_name("./."), None);
    assert_eq!(file_name("/."), None);
    assert_eq!(file_name("a/../"), None);
    assert_eq!(file_name(""), None);
    assert_eq!(file_name("/"), None);
    assert_eq!(file_name("///"), None);
    assert_eq!(file_name("a/.."), None);
    assert_eq!(file_name("."), None);
}

#[test]
fn file_name_keeps_non_ascii() {
    assert_eq!(file_name("/tmp/日本語.txt"), Some("日本語.txt".to_string()));
}

#[test]
fn ceil_path_brackets_directories() {
    assert_eq!(ceil_path("/srv/docs", true), Some("[docs]".to_string()));
    assert_eq!(ceil_path("/srv/readme.txt", false), Some("readme.txt".to_string()));
    assert_eq!(ceil_path("/", true), None);
}

#[test]
fn strip_removes_extended_length_marker() {
    assert_eq!(strip_verbatim_prefix(r"\\?\C:\Users\a.txt"), r"C:\Users\a.txt".to_string());
    assert_eq!(strip_verbatim_prefix(r"\\?\\\?\C:\b"), r"C:\b".to_string());
    assert_eq!(strip_verbatim_prefix("/usr/lib/x.so"), "/usr/lib/x.so".to_string());
    assert_eq!(strip_verbatim_prefix(r"\\?"), r"\\?".to_string());
    assert_eq!(strip_verbatim_prefix(""), "".to_string());
}

#[test]
fn str_le_is_lexicographic() {
    assert!(str_le("abc", "abd"));
    assert!(!str_le("abd", "abc"));
    assert!(str_le("ab", "abc"));
    assert!(!str_le("abc", "ab"));
    assert!(str_le("same", "same"));
    assert!(str_le("", ""));
    assert!(str_le("Z", "a"));
    assert!(str_le("[b]", "a"));
}

#[test]
fn sort_strings_matches_std_sort() {
    let input: Vec<String> = vec!["pear", "[src]", "apple", "Zeta", "apple", "äpfel", ""]
        .into_iter()
        .map(|s| s.to_string())
        .collect();
    let mut expected = input.clone();
    expected.sort();
    assert_eq!(sort_strings(&input), expected);
    assert_eq!(sort_strings(&Vec::new()), Vec::<String>::new());
}
