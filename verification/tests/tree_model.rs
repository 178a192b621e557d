use boyl::tree::{FileList, ListedEntry};

fn entry(name: &str, is_dir: bool) -> ListedEntry {
    ListedEntry { name: name.to_string(), is_dir }
}

fn base_three() -> FileList {
    FileList::new(vec![
        entry("a.txt", false),
        entry("b.txt", false),
        entry("sub", true),
    ])
}

fn visible_paths(list: &FileList) -> Vec<String> {
    list.iter_paths(0, list.len())
        .into_iter()
        .map(|e| e.path)
        .collect()
}

#[test]
fn scenario_no_exclusions_includes_everything() {
    let list = base_three();
    assert!(list.is_included(0));
    assert!(list.is_included(1));
    assert!(list.is_included(2));
    assert!(list.is_included_for_path("a.txt"));
    assert!(list.is_included_for_path("b.txt"));
    // never indexed: follows its nearest known ancestor `sub`
    assert!(list.is_included_for_path("sub/c.txt"));
}

#[test]
fn scenario_toggle_exclude_single_file() {
    let mut list = base_three();
    // cursor starts on a.txt
    assert_eq!(list.highlight, 0);
    list.toggle_exclude_file();
    assert!(!list.is_included(0));
    assert!(list.is_included(1));
    assert!(list.is_included_for_path("sub/c.txt"));
    assert!(!list.is_included_for_path("a.txt"));
}

#[test]
fn scenario_pattern_with_exception() {
    let mut list = base_three();
    // expand sub so its children become known nodes
    list.go_down();
    list.go_down();
    assert_eq!(list.listing_needed().as_deref(), Some("sub"));
    list.toggle_folder(Some(vec![entry("c.txt", false), entry("d.txt", false)]));
    assert_eq!(list.len(), 5);
    // exclude everything under sub, then force c.txt back in
    list.exclude_pattern("sub/*").unwrap();
    assert!(!list.is_included_for_path("sub/c.txt"));
    list.go_down(); // cursor on sub/c.txt
    list.toggle_exclude_file();
    assert!(list.is_included_for_path("sub/c.txt"));
    assert!(!list.is_included_for_path("sub/d.txt"));
}

#[test]
fn scenario_expand_collapse_restores_length() {
    let mut list = base_three();
    let before = list.len();
    list.go_down();
    list.go_down();
    list.toggle_folder(Some(vec![entry("c.txt", false), entry("d.txt", false)]));
    assert_eq!(list.len(), before + 2);
    // collapsing re-uses the recorded children; no listing needed
    assert_eq!(list.listing_needed(), None);
    list.toggle_folder(None);
    assert_eq!(list.len(), before);
}

#[test]
fn toggle_folder_twice_restores_visible() {
    let mut list = base_three();
    list.go_down();
    list.go_down();
    let before = visible_paths(&list);
    list.toggle_folder(Some(vec![entry("c.txt", false), entry("sub2", true)]));
    list.toggle_folder(None);
    assert_eq!(visible_paths(&list), before);
    assert_eq!(list.highlight, 2);
    // and opening again shows the recorded children in read order
    list.toggle_folder(None);
    assert_eq!(
        visible_paths(&list),
        vec!["a.txt", "b.txt", "sub", "sub/c.txt", "sub/sub2"]
    );
}

#[test]
fn exception_overrides_excluded_ancestor() {
    let mut list = FileList::new(vec![entry("sub", true)]);
    list.toggle_folder(Some(vec![entry("c.txt", false)]));
    // exclude the directory itself
    assert_eq!(list.highlight, 0);
    list.toggle_exclude_file();
    assert!(!list.is_included(0));
    // the child inherits the exclusion
    assert!(!list.is_included(1));
    // an exception on the child wins over the inherited exclusion
    list.go_down();
    list.toggle_exclude_file();
    assert!(list.is_included(1));
    assert!(!list.is_included(0));
}

#[test]
fn pattern_registered_twice_changes_nothing() {
    let mut list = base_three();
    list.go_down();
    list.go_down();
    list.toggle_folder(Some(vec![entry("c.txt", false), entry("d.txt", false)]));
    list.exclude_pattern("sub/*").unwrap();
    let once: Vec<bool> = (0..5).map(|i| list.is_included(i)).collect();
    list.exclude_pattern("sub/*").unwrap();
    let twice: Vec<bool> = (0..5).map(|i| list.is_included(i)).collect();
    assert_eq!(once, twice);
}

#[test]
fn malformed_pattern_is_rejected_without_change() {
    let mut list = base_three();
    let before: Vec<bool> = (0..3).map(|i| list.is_included(i)).collect();
    assert!(list.exclude_pattern("[").is_err());
    let after: Vec<bool> = (0..3).map(|i| list.is_included(i)).collect();
    assert_eq!(before, after);
    assert!(list.is_included(0));
}

#[test]
fn pattern_excludes_matching_files() {
    let mut list = base_three();
    list.exclude_pattern("*.txt").unwrap();
    assert!(!list.is_included(0));
    assert!(!list.is_included(1));
    assert!(list.is_included(2));
}

#[test]
fn pattern_subsumes_explicit_marks() {
    let mut list = base_three();
    // explicitly exclude a.txt, then register a pattern covering it
    list.toggle_exclude_file();
    assert!(!list.is_included(0));
    list.exclude_pattern("*.txt").unwrap();
    // toggling now makes it an exception to the pattern
    assert_eq!(list.highlight, 0);
    list.toggle_exclude_file();
    assert!(list.is_included(0));
    assert!(!list.is_included(1));
}

#[test]
fn cursor_saturates_at_both_ends() {
    let mut list = base_three();
    list.go_up();
    assert_eq!(list.highlight, 0);
    list.go_down();
    list.go_down();
    list.go_down();
    list.go_down();
    assert_eq!(list.highlight, 2);
}

#[test]
fn iter_paths_reports_depth_and_inclusion() {
    let mut list = base_three();
    list.go_down();
    list.go_down();
    list.toggle_folder(Some(vec![entry("c.txt", false)]));
    list.exclude_pattern("sub/c.txt").unwrap();
    let elems = list.iter_paths(0, list.len());
    assert_eq!(elems.len(), 4);
    assert_eq!(elems[2].path, "sub");
    assert_eq!(elems[2].depth, 0);
    assert!(elems[2].included);
    assert_eq!(elems[3].path, "sub/c.txt");
    assert_eq!(elems[3].depth, 1);
    assert!(!elems[3].included);
}

#[test]
fn toggle_folder_on_file_is_a_no_op() {
    let mut list = base_three();
    let before = visible_paths(&list);
    list.toggle_folder(None);
    assert_eq!(visible_paths(&list), before);
}

#[test]
fn memoized_inclusion_agrees_and_caches_directories() {
    let mut list = base_three();
    list.exclude_pattern("sub").unwrap();
    let mut memo: Vec<(String, bool)> = Vec::new();
    assert!(!list.is_included_memoized("sub", true, &mut memo));
    // an undiscovered descendant follows its nearest known ancestor
    assert!(!list.is_included_memoized("sub/c.txt", false, &mut memo));
    assert!(list.is_included_memoized("a.txt", false, &mut memo));
    // only the directory was recorded
    assert_eq!(memo.len(), 1);
    assert_eq!(memo[0].0, "sub");
    // a hit answers from the memo
    assert!(!list.is_included_memoized("sub", true, &mut memo));
    assert_eq!(memo.len(), 1);
}

#[test]
fn undiscovered_descendants_follow_their_known_ancestor() {
    let mut list = base_three();
    list.exclude_pattern("sub/*").unwrap();
    // `sub` itself does not match the pattern, and `sub/c.txt` was never
    // indexed, so it was never matched against the pattern either: it
    // follows `sub`.
    assert!(list.is_included_for_path("sub/c.txt"));
    // once indexed, the child is matched against the pattern itself
    list.go_down();
    list.go_down();
    list.toggle_folder(Some(vec![entry("c.txt", false)]));
    assert!(!list.is_included_for_path("sub/c.txt"));
}

#[test]
fn toggle_includes_despite_double_exclusion() {
    // the node carries the explicit flag AND inherits exclusion from its
    // parent: one toggle must still flip it to included
    let mut list = FileList::new(vec![entry("sub", true)]);
    list.toggle_folder(Some(vec![entry("c.txt", false)]));
    // flag the child
    list.go_down();
    list.toggle_exclude_file();
    assert!(!list.is_included(1));
    // exclude the parent as well
    list.go_up();
    list.toggle_exclude_file();
    assert!(!list.is_included(0));
    // one toggle on the child flips it back in, despite the excluded parent
    list.go_down();
    list.toggle_exclude_file();
    assert!(list.is_included(1));
    assert!(!list.is_included(0));
    // and one more flips it out again
    list.toggle_exclude_file();
    assert!(!list.is_included(1));
}

#[test]
fn toggle_always_flips_inclusion() {
    let mut list = base_three();
    list.exclude_pattern("*.txt").unwrap();
    for _ in 0..4 {
        let before = list.is_included(0);
        list.toggle_exclude_file();
        assert_eq!(list.is_included(0), !before);
    }
}

#[test]
fn unlisted_paths_do_not_resolve() {
    let mut list = base_three();
    assert!(list.resolves("a.txt"));
    assert!(list.resolves("sub/never/listed.txt"));
    assert!(!list.resolves("elsewhere.txt"));
    assert!(!list.resolves("other/deep/file.txt"));
    list.go_down();
    list.go_down();
    list.toggle_folder(Some(vec![entry("c.txt", false)]));
    assert!(list.resolves("sub/c.txt"));
}

#[test]
fn memo_is_untouched_without_caching() {
    let list = base_three();
    let mut memo: Vec<(String, bool)> = Vec::new();
    assert!(list.is_included_memoized("a.txt", false, &mut memo));
    assert!(memo.is_empty());
}
