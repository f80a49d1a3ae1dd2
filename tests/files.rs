use token_count::error::MatchError;
use token_count::files::{EntryInfo, FileContent, FileMatchConfig, MatchSession, RootKind};
use token_count::path::FsPath;

fn strings(v: &[&str]) -> Vec<String> {
    v.iter().map(|s| s.to_string()).collect()
}

fn file(name: &str) -> EntryInfo {
    EntryInfo { name: name.to_string(), is_symlink: false, is_dir: false, is_file: true }
}

fn dir(name: &str) -> EntryInfo {
    EntryInfo { name: name.to_string(), is_symlink: false, is_dir: true, is_file: false }
}

fn file_link(name: &str) -> EntryInfo {
    EntryInfo { name: name.to_string(), is_symlink: true, is_dir: false, is_file: true }
}

fn dir_link(name: &str) -> EntryInfo {
    EntryInfo { name: name.to_string(), is_symlink: true, is_dir: true, is_file: false }
}

/// The fixed tree `resources/test_data`, listed in an order that is not the
/// result order. The entries of `c_folder` are symlinks to files.
fn test_tree(path: &[String]) -> Vec<EntryInfo> {
    let rel: Vec<&str> = path.iter().skip(2).map(|s| s.as_str()).collect();
    match rel.as_slice() {
        [] => vec![dir("c_folder"), file("b.json"), dir("b_folder"), file("a.txt"), dir("a_folder")],
        ["a_folder"] => vec![file("ab.txt"), file("aa.txt")],
        ["b_folder"] => vec![file("bb.txt"), file("ba.txt")],
        ["c_folder"] => vec![file_link("bb.txt"), file_link("ba.txt")],
        _ => Vec::new(),
    }
}

/// Runs a whole resolution against a tree given as a listing function.
fn resolve(
    roots: Vec<(Vec<&str>, RootKind)>,
    config: FileMatchConfig,
    tree: &dyn Fn(&[String]) -> Vec<EntryInfo>,
) -> Result<Vec<String>, MatchError> {
    let mut session = MatchSession::new(config)?;
    for (parts, kind) in roots {
        let text = parts.join("/");
        session.add_root(text, FsPath::new(strings(&parts)), kind)?;
        while let Some(folder) = session.next_folder() {
            let entries = tree(folder.components());
            session.add_folder_content(entries);
        }
    }
    Ok(session.finish().iter().map(|p| p.components().join("/")).collect())
}

fn test_data_root() -> Vec<(Vec<&'static str>, RootKind)> {
    vec![(vec!["resources", "test_data"], RootKind::Dir)]
}

fn under_test_data(rel: &[&str]) -> Vec<String> {
    rel.iter().map(|r| format!("resources/test_data/{}", r)).collect()
}

#[test]
fn test_get_matched_files() {
    let config = FileMatchConfig::new(true, false, Vec::new(), Vec::new(), Vec::new());
    let matched_files = resolve(test_data_root(), config, &test_tree).unwrap();
    assert!(!matched_files.is_empty());
    let expected_files = under_test_data(&[
        "a.txt",
        "b.json",
        "a_folder/aa.txt",
        "a_folder/ab.txt",
        "b_folder/ba.txt",
        "b_folder/bb.txt",
    ]);
    assert_eq!(matched_files, expected_files);
}

#[test]
fn test_get_matched_files_symlinks() {
    let config = FileMatchConfig::new(true, true, Vec::new(), Vec::new(), Vec::new());
    let matched_files = resolve(test_data_root(), config, &test_tree).unwrap();
    assert!(!matched_files.is_empty());
    let expected_files = under_test_data(&[
        "a.txt",
        "b.json",
        "a_folder/aa.txt",
        "a_folder/ab.txt",
        "b_folder/ba.txt",
        "b_folder/bb.txt",
        "c_folder/ba.txt",
        "c_folder/bb.txt",
    ]);
    assert_eq!(matched_files, expected_files);
}

#[test]
fn test_get_matched_files_include() {
    let config = FileMatchConfig::new(true, false, vec!["*.txt".to_owned()], Vec::new(), Vec::new());
    let matched_files = resolve(test_data_root(), config, &test_tree).unwrap();
    assert!(!matched_files.is_empty());
    let expected_files = under_test_data(&[
        "a.txt",
        "a_folder/aa.txt",
        "a_folder/ab.txt",
        "b_folder/ba.txt",
        "b_folder/bb.txt",
    ]);
    assert_eq!(matched_files, expected_files);
}

#[test]
fn test_get_matched_files_exlude() {
    let config = FileMatchConfig::new(true, false, Vec::new(), vec!["*.txt".to_string()], Vec::new());
    let matched_files = resolve(test_data_root(), config, &test_tree).unwrap();
    assert!(!matched_files.is_empty());
    let expected_files = under_test_data(&["b.json"]);
    assert_eq!(matched_files, expected_files);
}

#[test]
fn test_get_matched_files_eclude_dir() {
    let config = FileMatchConfig::new(true, false, Vec::new(), Vec::new(), vec!["a_*".to_string()]);
    let matched_files = resolve(test_data_root(), config, &test_tree).unwrap();
    assert!(!matched_files.is_empty());
    let expected_files = under_test_data(&["a.txt", "b.json", "b_folder/ba.txt", "b_folder/bb.txt"]);
    assert_eq!(matched_files, expected_files);
}

#[test]
fn listing_order_does_not_change_the_result() {
    let reversed = |path: &[String]| {
        let mut entries = test_tree(path);
        entries.reverse();
        entries
    };
    let config1 = FileMatchConfig::new(true, true, Vec::new(), Vec::new(), Vec::new());
    let config2 = FileMatchConfig::new(true, true, Vec::new(), Vec::new(), Vec::new());
    let first = resolve(test_data_root(), config1, &test_tree).unwrap();
    let second = resolve(test_data_root(), config2, &reversed).unwrap();
    assert_eq!(first, second);
}

#[test]
fn inclusion_wins_over_exclusion_for_files() {
    let config = FileMatchConfig::new(
        true,
        false,
        vec!["a*.txt".to_string()],
        vec!["*.txt".to_string()],
        Vec::new(),
    );
    let matched_files = resolve(test_data_root(), config, &test_tree).unwrap();
    // b.json matches neither group and is left out; a.txt matches both and stays.
    let expected_files = under_test_data(&["a.txt", "a_folder/aa.txt", "a_folder/ab.txt"]);
    assert_eq!(matched_files, expected_files);
}

#[test]
fn exclusion_prunes_matching_directories_too() {
    let config = FileMatchConfig::new(true, false, Vec::new(), vec!["b*".to_string()], Vec::new());
    let matched_files = resolve(test_data_root(), config, &test_tree).unwrap();
    let expected_files = under_test_data(&["a.txt", "a_folder/aa.txt", "a_folder/ab.txt"]);
    assert_eq!(matched_files, expected_files);
}

#[test]
fn symlinked_directory_is_not_descended_without_permission() {
    let tree = |path: &[String]| -> Vec<EntryInfo> {
        match path.len() {
            1 => vec![dir_link("linked"), dir("real")],
            2 => vec![file("x.txt")],
            _ => Vec::new(),
        }
    };
    let roots = vec![(vec!["top"], RootKind::Dir)];
    let without = resolve(roots.clone(), FileMatchConfig::new(true, false, Vec::new(), Vec::new(), Vec::new()), &tree).unwrap();
    assert_eq!(without, strings(&["top/real/x.txt"]));
    let with = resolve(roots, FileMatchConfig::new(true, true, Vec::new(), Vec::new(), Vec::new()), &tree).unwrap();
    assert_eq!(with, strings(&["top/linked/x.txt", "top/real/x.txt"]));
}

#[test]
fn excluded_root_directory_contributes_nothing() {
    let config = FileMatchConfig::new(true, false, vec!["*.txt".to_string()], Vec::new(), vec!["test_*".to_string()]);
    let matched_files = resolve(test_data_root(), config, &test_tree).unwrap();
    assert!(matched_files.is_empty());
}

#[test]
fn entries_that_are_neither_file_nor_directory_are_skipped() {
    let tree = |path: &[String]| -> Vec<EntryInfo> {
        if path.len() == 1 {
            vec![
                EntryInfo { name: "pipe".to_string(), is_symlink: false, is_dir: false, is_file: false },
                EntryInfo { name: "dangling".to_string(), is_symlink: true, is_dir: false, is_file: false },
                file("f"),
            ]
        } else {
            Vec::new()
        }
    };
    let config = FileMatchConfig::new(true, true, Vec::new(), Vec::new(), Vec::new());
    let matched_files = resolve(vec![(vec!["top"], RootKind::Dir)], config, &tree).unwrap();
    assert_eq!(matched_files, strings(&["top/f"]));
}

#[test]
fn file_roots_are_filtered_and_sorted_with_the_rest() {
    let roots = vec![
        (vec!["resources", "test_data", "b.json"], RootKind::File),
        (vec!["resources", "test_data", "a.txt"], RootKind::File),
        (vec!["zz"], RootKind::File),
        (vec!["resources", "test_data", "a_folder"], RootKind::Dir),
    ];
    let config = FileMatchConfig::new(false, false, Vec::new(), vec!["*.json".to_string()], vec!["a_*".to_string()]);
    let err = resolve(roots.clone(), config, &test_tree).unwrap_err();
    assert_eq!(err, MatchError::RecursionRequired("resources/test_data/a_folder".to_string()));
    let config = FileMatchConfig::new(true, false, Vec::new(), vec!["*.json".to_string()], Vec::new());
    let matched_files = resolve(roots, config, &test_tree).unwrap();
    assert_eq!(
        matched_files,
        strings(&["zz", "resources/test_data/a.txt", "resources/test_data/a_folder/aa.txt", "resources/test_data/a_folder/ab.txt"])
    );
}

#[test]
fn same_root_twice_gives_duplicates() {
    let roots = vec![(vec!["r", "f.txt"], RootKind::File), (vec!["r", "f.txt"], RootKind::File)];
    let config = FileMatchConfig::new(false, false, Vec::new(), Vec::new(), Vec::new());
    let matched_files = resolve(roots, config, &test_tree).unwrap();
    assert_eq!(matched_files, strings(&["r/f.txt", "r/f.txt"]));
}

#[test]
fn missing_root_is_an_error() {
    let roots = vec![(vec!["nowhere"], RootKind::Missing)];
    let config = FileMatchConfig::new(true, false, Vec::new(), Vec::new(), Vec::new());
    assert_eq!(resolve(roots, config, &test_tree), Err(MatchError::PathNotFound("nowhere".to_string())));
}

#[test]
fn directory_root_needs_recursion() {
    let config = FileMatchConfig::new(false, false, Vec::new(), Vec::new(), Vec::new());
    assert_eq!(
        resolve(test_data_root(), config, &test_tree),
        Err(MatchError::RecursionRequired("resources/test_data".to_string()))
    );
}

#[test]
fn other_root_contributes_nothing() {
    let config = FileMatchConfig::new(false, false, Vec::new(), Vec::new(), Vec::new());
    let matched_files = resolve(vec![(vec!["dev", "null"], RootKind::Other)], config, &test_tree).unwrap();
    assert!(matched_files.is_empty());
}

#[test]
fn invalid_pattern_is_reported_before_any_walk() {
    let config = FileMatchConfig::new(true, false, vec!["*.txt".to_string()], vec!["a[".to_string()], vec!["b**".to_string()]);
    assert_eq!(
        resolve(vec![(vec!["nowhere"], RootKind::Missing)], config, &test_tree),
        Err(MatchError::InvalidPattern("a[".to_string()))
    );
}

#[test]
fn file_content_keeps_its_path() {
    let content = FileContent::new("resources/test_data/a.txt".to_string());
    assert_eq!(content.get_path_string(), "resources/test_data/a.txt");
}
