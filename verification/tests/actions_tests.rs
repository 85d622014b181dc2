use dupehunter::actions::{
    bulk_summary, execute_action, execute_bulk, marked_delete_paths, numbered_name, remove_actioned,
    next_name_step, ActionKind, NameSearch, QUARANTINE_MAX_SUFFIX,
};
use dupehunter::grouper::{DupeFile, DuplicateGroup, FileMark, MatchKind};
use dupehunter::perceptual::Similarity;
use dupehunter::scanner::FileKind;

fn file(path: &str, mark: FileMark) -> DupeFile {
    DupeFile {
        path: path.to_string(),
        size: 1,
        modified: None,
        extension: String::new(),
        kind: FileKind::Other,
        mark,
    }
}

fn group(id: usize, files: Vec<DupeFile>) -> DuplicateGroup {
    DuplicateGroup { id, kind: MatchKind::ExactHash, similarity: Similarity::identical(), files, collapsed: id == 1 }
}

#[test]
fn action_messages() {
    let r = execute_action("/a.txt", &ActionKind::Delete, &Ok(String::new()));
    assert!(r.success);
    assert_eq!(r.path, "/a.txt");
    assert_eq!(r.message, "Deleted /a.txt");
    let r = execute_action("/a.txt", &ActionKind::Quarantine("/q".to_string()), &Ok("/q/a (1).txt".to_string()));
    assert_eq!(r.message, "Moved to /q/a (1).txt");
    let r = execute_action("/a.txt", &ActionKind::Hardlink("/orig.txt".to_string()), &Ok(String::new()));
    assert_eq!(r.message, "Hardlinked to /orig.txt");
    let r = execute_action("/a.txt", &ActionKind::Delete, &Err("Failed to delete /a.txt".to_string()));
    assert!(!r.success);
    assert_eq!(r.message, "Failed to delete /a.txt");
}

#[test]
fn bulk_tally_counts_and_lists_failures() {
    let paths = vec!["/a".to_string(), "/b".to_string(), "/c".to_string()];
    let outcomes = vec![Ok(String::new()), Err("boom".to_string()), Ok(String::new())];
    let (ok, fail, errors) = execute_bulk(&paths, &ActionKind::Delete, &outcomes);
    assert_eq!((ok, fail), (2, 1));
    assert_eq!(errors, vec!["/b: boom".to_string()]);
    let (ok, fail, errors) = execute_bulk(&Vec::new(), &ActionKind::Delete, &Vec::new());
    assert_eq!((ok, fail, errors.len()), (0, 0, 0));
}

#[test]
fn summary_lines() {
    assert_eq!(bulk_summary(&ActionKind::Delete, 3, 0), "Deleted 3 file(s)");
    assert_eq!(bulk_summary(&ActionKind::Quarantine("/q".to_string()), 2, 1), "Moved 2 file(s), 1 failed");
    assert_eq!(bulk_summary(&ActionKind::Hardlink("/o".to_string()), 0, 12), "Moved 0 file(s), 12 failed");
}

#[test]
fn quarantine_names() {
    assert_eq!(numbered_name("photo", 1, ".jpg"), "photo (1).jpg");
    assert_eq!(numbered_name("notes", 9999, ""), "notes (9999)");
    assert_eq!(QUARANTINE_MAX_SUFFIX, 9999);
}

#[test]
fn marked_paths_in_group_order() {
    let groups = vec![
        group(0, vec![file("/a", FileMark::Keep), file("/b", FileMark::Delete)]),
        group(1, vec![file("/c", FileMark::Delete), file("/d", FileMark::Delete), file("/e", FileMark::Unmarked)]),
    ];
    assert_eq!(marked_delete_paths(&groups), vec!["/b".to_string(), "/c".to_string(), "/d".to_string()]);
}

#[test]
fn removing_actioned_files_drops_small_groups() {
    let groups = vec![
        group(0, vec![file("/a", FileMark::Keep), file("/b", FileMark::Delete)]),
        group(1, vec![file("/c", FileMark::Delete), file("/d", FileMark::Unmarked), file("/e", FileMark::Unmarked)]),
        group(2, vec![file("/f", FileMark::Unmarked), file("/g", FileMark::Unmarked)]),
    ];
    let marked = vec!["/b".to_string(), "/c".to_string(), "/zzz".to_string()];
    // only the first two were acted on successfully
    let outcomes = vec![Ok(String::new()), Ok(String::new()), Err("gone".to_string())];
    let left = remove_actioned(&groups, &marked, &outcomes);
    assert_eq!(left.len(), 2);
    assert_eq!(left[0].id, 1);
    assert!(left[0].collapsed);
    let names: Vec<&str> = left[0].files.iter().map(|f| f.path.as_str()).collect();
    assert_eq!(names, vec!["/d", "/e"]);
    assert_eq!(left[1].id, 2);
    assert_eq!(left[1].files.len(), 2);
    // nothing done: every group with two or more files stays
    let failed = vec![Err("a".to_string()), Err("b".to_string()), Err("c".to_string())];
    assert_eq!(remove_actioned(&groups, &marked, &failed).len(), 3);
}

#[test]
fn removing_actioned_files_skips_failures() {
    let groups = vec![
        group(0, vec![file("/a", FileMark::Keep), file("/b", FileMark::Delete), file("/x", FileMark::Unmarked)]),
        group(1, vec![file("/c", FileMark::Delete), file("/d", FileMark::Unmarked)]),
    ];
    let marked = vec!["/b".to_string(), "/c".to_string()];
    // the first action failed and the second succeeded: /c leaves, /b stays listed
    let outcomes = vec![Err("denied".to_string()), Ok(String::new())];
    let left = remove_actioned(&groups, &marked, &outcomes);
    assert_eq!(left.len(), 1);
    assert_eq!(left[0].id, 0);
    let names: Vec<&str> = left[0].files.iter().map(|f| f.path.as_str()).collect();
    assert_eq!(names, vec!["/a", "/b", "/x"]);
}

#[test]
fn quarantine_name_search() {
    assert_eq!(next_name_step(0, false), NameSearch::Use(0));
    assert_eq!(next_name_step(0, true), NameSearch::Check(1));
    assert_eq!(next_name_step(41, true), NameSearch::Check(42));
    assert_eq!(next_name_step(42, false), NameSearch::Use(42));
    assert_eq!(next_name_step(9999, true), NameSearch::Use(0));
    assert_eq!(next_name_step(9999, false), NameSearch::Use(9999));
}
