use token_count::error::MatchError;
use token_count::glob_pattern::GlobPattern;
use token_count::matcher::{vec_pattern_to_glob, PathMatcher};
use token_count::path::{path_less, sort_paths, text_less, FsPath};

fn strings(v: &[&str]) -> Vec<String> {
    v.iter().map(|s| s.to_string()).collect()
}

fn path(v: &[&str]) -> FsPath {
    FsPath::new(strings(v))
}

#[test]
fn glob_pattern_matches_base_names() {
    let p = GlobPattern::new("*.txt".to_string()).unwrap();
    assert_eq!(p.as_str(), "*.txt");
    assert!(p.matches("a.txt"));
    assert!(!p.matches("b.json"));
    let q = GlobPattern::new("c?t".to_string()).unwrap();
    assert!(q.matches("cat"));
    assert!(!q.matches("cart"));
    let r = GlobPattern::new("[ab]*".to_string()).unwrap();
    assert!(r.matches("b_folder"));
    assert!(!r.matches("c_folder"));
}

#[test]
fn invalid_glob_is_refused() {
    assert!(GlobPattern::new("a[".to_string()).is_none());
    assert!(GlobPattern::new("b**".to_string()).is_none());
    assert!(GlobPattern::new("[!]".to_string()).is_none());
}

#[test]
fn compiling_stops_at_first_invalid_text() {
    let err = vec_pattern_to_glob(strings(&["*.rs", "x[", "y**"])).err().unwrap();
    assert_eq!(err, MatchError::InvalidPattern("x[".to_string()));
    let ok = vec_pattern_to_glob(strings(&["*.rs", "?.md"])).ok().unwrap();
    assert_eq!(ok.len(), 2);
    assert_eq!(ok[1].as_str(), "?.md");
}

#[test]
fn empty_group_matches_nothing() {
    let none = vec_pattern_to_glob(Vec::new()).ok().unwrap();
    assert!(!token_count::matcher::matches(&none, "anything"));
    let some = vec_pattern_to_glob(strings(&["*.json", "a*"])).ok().unwrap();
    assert!(token_count::matcher::matches(&some, "a.txt"));
    assert!(token_count::matcher::matches(&some, "b.json"));
    assert!(!token_count::matcher::matches(&some, "b.txt"));
}

#[test]
fn decision_table_without_patterns() {
    let m = PathMatcher::new(Vec::new(), Vec::new(), strings(&["tmp*"])).ok().unwrap();
    assert!(m.should_file_be_included("tmp.txt", true));
    assert!(!m.should_file_be_included("tmp_dir", false));
    assert!(m.should_file_be_included("src", false));
}

#[test]
fn decision_table_with_inclusion() {
    let m = PathMatcher::new(strings(&["*.rs"]), strings(&["main*"]), strings(&["target"])).ok().unwrap();
    assert!(m.should_file_be_included("main.rs", true));
    assert!(!m.should_file_be_included("notes.md", true));
    assert!(!m.should_file_be_included("main_dir", false));
    assert!(!m.should_file_be_included("target", false));
    assert!(m.should_file_be_included("src", false));
}

#[test]
fn decision_table_with_exclusion_only() {
    let m = PathMatcher::new(Vec::new(), strings(&["*.lock"]), Vec::new()).ok().unwrap();
    assert!(!m.should_file_be_included("Cargo.lock", true));
    assert!(m.should_file_be_included("Cargo.toml", true));
    assert!(!m.should_file_be_included("x.lock", false));
    assert!(m.should_file_be_included("src", false));
}

#[test]
fn matcher_reports_first_invalid_group_in_order() {
    let err = PathMatcher::new(strings(&["ok"]), strings(&["bad["]), strings(&["worse**"])).err().unwrap();
    assert_eq!(err, MatchError::InvalidPattern("bad[".to_string()));
}

#[test]
fn text_order_is_by_code_point() {
    assert!(text_less("a.txt", "a_folder"));
    assert!(!text_less("a_folder", "a.txt"));
    assert!(text_less("ab", "abc"));
    assert!(!text_less("abc", "abc"));
    assert!(text_less("Z", "a"));
    assert!(text_less("z", "\u{e9}"));
}

#[test]
fn path_order_counts_components_first() {
    assert!(path_less(&path(&["r", "zz"]), &path(&["r", "a", "b"])));
    assert!(!path_less(&path(&["r", "a", "b"]), &path(&["r", "zz"])));
    assert!(path_less(&path(&["a", "b"]), &path(&["a-c", "a"])));
    assert!(!path_less(&path(&["a", "b"]), &path(&["a", "b"])));
}

#[test]
fn sort_orders_by_depth_then_components() {
    let input = vec![
        path(&["t", "b_folder", "bb.txt"]),
        path(&["t", "b.json"]),
        path(&["t", "a_folder", "ab.txt"]),
        path(&["t", "a.txt"]),
        path(&["t", "a_folder", "aa.txt"]),
    ];
    let sorted: Vec<String> = sort_paths(input).iter().map(|p| p.components().join("/")).collect();
    assert_eq!(
        sorted,
        strings(&["t/a.txt", "t/b.json", "t/a_folder/aa.txt", "t/a_folder/ab.txt", "t/b_folder/bb.txt"])
    );
}

#[test]
fn child_and_name_follow_components() {
    let root = path(&["/", "home", "user"]);
    assert_eq!(root.name(), "user");
    assert_eq!(root.len(), 3);
    let child = root.child("notes.txt".to_string());
    assert_eq!(child.components(), &strings(&["/", "home", "user", "notes.txt"]));
    assert_eq!(child.name(), "notes.txt");
    assert_eq!(path(&[]).name(), "");
    assert_eq!(root.duplicate(), root);
}
