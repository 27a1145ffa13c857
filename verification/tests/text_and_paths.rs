use pcc::paths::{
    components_of, extension_of, join_path, parent_path, path_before_exec, sort_paths,
    strip_path_prefix,
};
use pcc::text::{
    contains_substring, is_blank_str, lines_of, push_indented_lines, trim_end_matches,
    trim_matches_char,
};

fn strings(v: &[&str]) -> Vec<String> {
    v.iter().map(|s| s.to_string()).collect()
}

fn chars(s: &str) -> Vec<char> {
    s.chars().collect()
}

#[test]
fn lines_split_like_str_lines() {
    assert_eq!(lines_of("a\r\nb\n\nc\n"), strings(&["a", "b", "", "c"]));
    assert_eq!(lines_of(""), Vec::<String>::new());
    assert_eq!(lines_of("x"), strings(&["x"]));
    assert_eq!(lines_of("\n"), strings(&[""]));
}

#[test]
fn indented_lines_are_joined_by_newlines() {
    let mut out = String::from(">");
    push_indented_lines(&mut out, "a\nb\n", "  ");
    assert_eq!(out, ">  a\n  b");
    let mut empty = String::new();
    push_indented_lines(&mut empty, "", "    ");
    assert_eq!(empty, "");
    let mut blank_line = String::new();
    push_indented_lines(&mut blank_line, "a\n\nb", "-");
    assert_eq!(blank_line, "-a\n-\n-b");
}

#[test]
fn trimming_and_searching() {
    assert_eq!(trim_matches_char("\"./a\"", '"'), "./a");
    assert_eq!(trim_matches_char("''x''", '\''), "x");
    assert_eq!(trim_end_matches("@/*", "/*"), "@");
    assert_eq!(trim_end_matches("src/*/*", "/*"), "src");
    assert!(contains_substring("a/node_modules/b", "node_modules"));
    assert!(!contains_substring("a/node_module/b", "node_modules"));
    assert!(is_blank_str(" \t "));
    assert!(!is_blank_str(" a "));
}

#[test]
fn components_follow_std_path() {
    assert_eq!(components_of("/a//b/./c"), vec![chars("/"), chars("a"), chars("b"), chars("c")]);
    assert_eq!(components_of("./a/.."), vec![chars("."), chars("a"), chars("..")]);
    assert_eq!(components_of("a/b/"), vec![chars("a"), chars("b")]);
    assert_eq!(components_of(""), Vec::<Vec<char>>::new());
}

#[test]
fn joining_paths_like_pathbuf_push() {
    assert_eq!(join_path("a", "b"), "a/b");
    assert_eq!(join_path("a/", "b"), "a/b");
    assert_eq!(join_path("a", "/b"), "/b");
    assert_eq!(join_path("", "b"), "b");
}

#[test]
fn strip_prefix_parent_and_extension() {
    assert_eq!(strip_path_prefix("/home/u/proj/src/a.ts", "/home/u/proj"), Some("src/a.ts".to_string()));
    assert_eq!(strip_path_prefix("src/a.ts", "/home"), None);
    assert_eq!(strip_path_prefix("/home/u", "/home/u"), Some(String::new()));
    assert_eq!(parent_path("/a/b"), Some("/a".to_string()));
    assert_eq!(parent_path("/"), None);
    assert_eq!(parent_path("a"), Some(String::new()));
    assert_eq!(parent_path(""), None);
    assert_eq!(extension_of("dir/file.test.ts"), Some(chars("ts")));
    assert_eq!(extension_of(".bashrc"), None);
    assert_eq!(extension_of("a/b"), None);
    assert_eq!(extension_of("a."), Some(Vec::new()));
}

#[test]
fn paths_sort_by_components() {
    assert_eq!(sort_paths(&strings(&["b", "a/b", "a", "a"])), strings(&["a", "a/b", "b"]));
    assert_eq!(sort_paths(&strings(&["a.b", "a/b"])), strings(&["a/b", "a.b"]));
    assert_eq!(sort_paths(&Vec::new()), Vec::<String>::new());
    assert!(path_before_exec(&"/x".to_string(), &"a".to_string()));
    assert!(!path_before_exec(&"a".to_string(), &"a".to_string()));
}
