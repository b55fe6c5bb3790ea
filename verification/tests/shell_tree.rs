//! Tests for the shell helpers: the rendered file tree and the archive
//! folder selection.

use psarc::shell::{get_arc_folder_from_path, get_modified_arc_folders, get_modified_files_for_arc,
    load_font_via_system};
use psarc::tree::{build_cached_tree, build_flat_list_recursive, compute_folders_with_modified,
    contains_chars, has_matching_children_cached, is_file_modified, matches_search_cached};

fn comps(path: &str) -> Vec<String> {
    path.split('/').map(|s| s.to_string()).collect()
}

#[test]
fn arc_folder_is_first_matching_component() {
    assert_eq!(
        get_arc_folder_from_path(&"arc_1_ep_8_11/sub/file.txt".to_string()),
        Some("arc_1_ep_8_11".to_string())
    );
    assert_eq!(
        get_arc_folder_from_path(&"mods/arc_2_ep_12_30/x.bin".to_string()),
        Some("arc_2_ep_12_30".to_string())
    );
    assert_eq!(get_arc_folder_from_path(&"plain/dir/file.txt".to_string()), None);
    assert_eq!(get_arc_folder_from_path(&"arc_no_episode/file".to_string()), None);
}

#[test]
fn modified_arc_folders_are_sorted_and_unique() {
    let modified = vec![
        "arc_2_ep_12_30/b.bin".to_string(),
        "arc_1_ep_8_11/a.txt".to_string(),
        "arc_1_ep_8_11/c.txt".to_string(),
        "other/file".to_string(),
    ];
    let folders = get_modified_arc_folders(&modified);
    assert_eq!(folders, vec!["arc_1_ep_8_11".to_string(), "arc_2_ep_12_30".to_string()]);
}

#[test]
fn modified_files_for_arc_are_relative() {
    let modified = vec![
        "arc_1_ep_8_11/sub/a.txt".to_string(),
        "arc_1_ep_8_11\\win\\b.txt".to_string(),
        "arc_2_ep_12_30/c.txt".to_string(),
    ];
    let mut got = get_modified_files_for_arc(&modified, "arc_1_ep_8_11");
    got.sort();
    assert_eq!(got, vec!["sub/a.txt".to_string(), "win/b.txt".to_string()]);
}

#[test]
fn font_loading_is_unavailable() {
    assert!(load_font_via_system("Noto Sans CJK SC").is_err());
}

#[test]
fn tree_sorts_folders_before_files() {
    let files = vec![comps("zz.txt"), comps("dir/inner.txt"), comps("aa.txt")];
    let tree = build_cached_tree(&files);
    assert!(!tree.is_file);
    assert_eq!(tree.children.len(), 3);
    assert_eq!(tree.children[0].name, "dir");
    assert!(!tree.children[0].is_file);
    assert_eq!(tree.children[1].name, "aa.txt");
    assert_eq!(tree.children[2].name, "zz.txt");
    assert_eq!(tree.children[0].children[0].full_path, "dir/inner.txt");
    assert_eq!(tree.file_count, 3);
}

#[test]
fn search_matches_case_insensitively() {
    let files = vec![comps("Dir/ReadMe.TXT")];
    let tree = build_cached_tree(&files);
    let dir = &tree.children[0];
    assert!(matches_search_cached(dir, ""));
    assert!(matches_search_cached(&dir.children[0], "readme"));
    assert!(!matches_search_cached(&dir.children[0], "missing"));
    assert!(has_matching_children_cached(dir, "ReadMe"));
    assert!(!has_matching_children_cached(dir, "nothing-here"));
    assert!(contains_chars("hello world", "o w"));
    assert!(!contains_chars("hello", "world"));
}

#[test]
fn modified_folders_are_collected() {
    let files = vec![comps("a/one.txt"), comps("b/two.txt")];
    let tree = build_cached_tree(&files);
    let modified = vec!["a/one.txt".to_string()];
    assert!(is_file_modified("a/one.txt", &modified));
    assert!(!is_file_modified("b/two.txt", &modified));
    let folders = compute_folders_with_modified(&tree, &modified);
    assert_eq!(folders, vec!["a".to_string()]);
}

#[test]
fn flat_list_respects_expansion() {
    let files = vec![comps("d/inner.txt"), comps("top.txt")];
    let tree = build_cached_tree(&files);
    // Nothing expanded: only the folder row and the top-level file.
    let mut items = Vec::new();
    for child in &tree.children {
        build_flat_list_recursive(child, 0, &Vec::new(), "", &mut items);
    }
    let names: Vec<String> = items.iter().map(|i| i.name.clone()).collect();
    assert_eq!(names, vec!["d".to_string(), "top.txt".to_string()]);
    // With "d" expanded its child appears, indented one level.
    let mut items2 = Vec::new();
    let expanded = vec!["d".to_string()];
    for child in &tree.children {
        build_flat_list_recursive(child, 0, &expanded, "", &mut items2);
    }
    let names2: Vec<String> = items2.iter().map(|i| i.name.clone()).collect();
    assert_eq!(names2, vec!["d".to_string(), "inner.txt".to_string(), "top.txt".to_string()]);
    assert_eq!(items2[1].depth, 1);
    // A search that matches only the inner file forces the folder open
    // and hides the unrelated top-level file.
    let mut items3 = Vec::new();
    for child in &tree.children {
        build_flat_list_recursive(child, 0, &Vec::new(), "inner", &mut items3);
    }
    let names3: Vec<String> = items3.iter().map(|i| i.name.clone()).collect();
    assert_eq!(names3, vec!["d".to_string(), "inner.txt".to_string()]);
}
