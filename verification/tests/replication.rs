use boyl::copy::{replicate, CopyEngine, FsEntry};
use boyl::tree::{FileList, ListedEntry};

fn entry(name: &str, is_dir: bool) -> ListedEntry {
    ListedEntry { name: name.to_string(), is_dir }
}

fn fs_entry(path: &str, is_dir: bool, data: &[u8]) -> FsEntry {
    FsEntry { rel_path: path.to_string(), is_dir, data: data.to_vec() }
}

fn sample_tree() -> Vec<FsEntry> {
    vec![
        fs_entry("a.txt", false, b"alpha"),
        fs_entry("b.txt", false, b"beta"),
        fs_entry("sub", true, b""),
        fs_entry("sub/c.txt", false, b"gamma"),
    ]
}

#[test]
fn replicating_everything_copies_the_tree_verbatim() {
    let list = FileList::new(vec![
        entry("a.txt", false),
        entry("b.txt", false),
        entry("sub", true),
    ]);
    let source = sample_tree();
    let outcomes = vec![false; 4];
    let dest = replicate(&source, &list, &outcomes).unwrap();
    assert_eq!(dest.len(), source.len());
    for (d, s) in dest.iter().zip(source.iter()) {
        assert_eq!(d.rel_path, s.rel_path);
        assert_eq!(d.is_dir, s.is_dir);
        assert_eq!(d.data, s.data);
    }
}

#[test]
fn replication_skips_excluded_entries() {
    let mut list = FileList::new(vec![
        entry("a.txt", false),
        entry("b.txt", false),
        entry("sub", true),
    ]);
    list.toggle_exclude_file(); // excludes a.txt
    let source = sample_tree();
    let outcomes = vec![false; 4];
    let dest = replicate(&source, &list, &outcomes).unwrap();
    let paths: Vec<&str> = dest.iter().map(|e| e.rel_path.as_str()).collect();
    assert_eq!(paths, vec!["b.txt", "sub", "sub/c.txt"]);
}

#[test]
fn failure_on_third_of_five_aborts_with_no_destination() {
    let list = FileList::new(vec![
        entry("a.txt", false),
        entry("b.txt", false),
        entry("c.txt", false),
        entry("d.txt", false),
        entry("e.txt", false),
    ]);
    let source = vec![
        fs_entry("a.txt", false, b"1"),
        fs_entry("b.txt", false, b"2"),
        fs_entry("c.txt", false, b"3"),
        fs_entry("d.txt", false, b"4"),
        fs_entry("e.txt", false, b"5"),
    ];
    let outcomes = vec![false, false, true, false, false];
    let result = replicate(&source, &list, &outcomes);
    match result {
        Ok(_) => panic!("a failed copy must abort the replication"),
        Err(e) => {
            assert_eq!(e.path, "c.txt");
            assert_eq!(e.message(), "copy failed; the destination was removed");
        }
    }
}

#[test]
fn failure_on_excluded_entry_is_ignored() {
    let mut list = FileList::new(vec![entry("a.txt", false), entry("b.txt", false)]);
    list.toggle_exclude_file(); // excludes a.txt
    let source = vec![fs_entry("a.txt", false, b"1"), fs_entry("b.txt", false, b"2")];
    // the failing copy belongs to the excluded entry, which is never attempted
    let outcomes = vec![true, false];
    let dest = replicate(&source, &list, &outcomes).unwrap();
    assert_eq!(dest.len(), 1);
    assert_eq!(dest[0].rel_path, "b.txt");
}

#[test]
fn copy_engine_builds_tasks_and_pops_lifo() {
    let mut engine = CopyEngine::new("/src/base".to_string(), "/dst/base".to_string());
    engine.offer("a.txt", true);
    engine.offer("skipped.txt", false);
    engine.offer("sub/c.txt", true);
    let t1 = engine.next_task().unwrap();
    assert_eq!(t1.source, "/src/base/sub/c.txt");
    assert_eq!(t1.dest, "/dst/base/sub/c.txt");
    let t2 = engine.next_task().unwrap();
    assert_eq!(t2.source, "/src/base/a.txt");
    assert!(engine.next_task().is_none());
}

#[test]
fn copy_engine_stops_after_failure() {
    let mut engine = CopyEngine::new("/s".to_string(), "/d".to_string());
    engine.offer("x", true);
    engine.record_failure();
    assert!(engine.failed);
    assert!(engine.next_task().is_none());
}
