use dupehunter::grouper::{build_groups, DupeFile, DuplicateGroup, FileMark, MatchKind, ScanStats};
use dupehunter::hasher::FileHash;
use dupehunter::perceptual::Similarity;
use dupehunter::scanner::{FileEntry, FileKind};

const SEC: i128 = 1_000_000_000;

fn file(path: &str, size: u64, modified: Option<i128>, mark: FileMark) -> DupeFile {
    DupeFile {
        path: path.to_string(),
        size,
        modified,
        extension: String::new(),
        kind: FileKind::Other,
        mark,
    }
}

fn group(files: Vec<DupeFile>) -> DuplicateGroup {
    DuplicateGroup {
        id: 0,
        kind: MatchKind::ExactHash,
        similarity: Similarity::identical(),
        files,
        collapsed: false,
    }
}

fn marks(g: &DuplicateGroup) -> Vec<FileMark> {
    g.files.iter().map(|f| f.mark).collect()
}

#[test]
fn match_kind_presentation() {
    assert_eq!(MatchKind::ExactHash.label(), "Exact match");
    assert_eq!(MatchKind::PerceptualImage.label(), "Visual match");
    assert_eq!(MatchKind::PerceptualVideo.label(), "Video match");
    assert_eq!(MatchKind::ExactHash.icon(), "≡");
    assert_eq!(MatchKind::PerceptualImage.icon(), "👁");
    assert_eq!(MatchKind::PerceptualVideo.icon(), "🎬");
    assert_eq!(MatchKind::ExactHash.color_rgb(), (100, 160, 255));
    assert_eq!(MatchKind::PerceptualImage.color_rgb(), (255, 180, 80));
    assert_eq!(MatchKind::PerceptualVideo.color_rgb(), (180, 120, 255));
    assert_eq!(FileMark::default(), FileMark::Unmarked);
}

#[test]
fn file_size_and_date_text() {
    let f = file("a", 1536, None, FileMark::Unmarked);
    assert_eq!(f.size_str(), "1.5 KB");
    assert_eq!(f.modified_str(), "Unknown");
    assert_eq!(file("a", 0, Some(0), FileMark::Unmarked).modified_str(), "1970-01-01");
    assert_eq!(file("a", 0, Some(-5 * SEC), FileMark::Unmarked).modified_str(), "1970-01-01");
    // one (non-leap) year later
    assert_eq!(file("a", 0, Some(365 * 86400 * SEC), FileMark::Unmarked).modified_str(), "1971-01-01");
    // day 31 of 1970 is February 1st
    assert_eq!(file("a", 0, Some(31 * 86400 * SEC), FileMark::Unmarked).modified_str(), "1970-02-01");
    // day 364 is the last day of 1970
    assert_eq!(file("a", 0, Some(364 * 86400 * SEC + 7), FileMark::Unmarked).modified_str(), "1970-12-31");
    // 2024-06-01T00:00:00Z = 1717200000 s
    assert_eq!(file("a", 0, Some(1_717_200_000 * SEC), FileMark::Unmarked).modified_str(), "2024-06-01");
    // a billion seconds after the epoch
    assert_eq!(file("a", 0, Some(1_000_000_000 * SEC), FileMark::Unmarked).modified_str(), "2001-09-09");
}

#[test]
fn dates_follow_the_gregorian_calendar() {
    let day = |n: i128| file("a", 0, Some(n * 86400 * SEC), FileMark::Unmarked).modified_str();
    // consecutive days never go back
    assert_eq!(day(359), "1970-12-26");
    assert_eq!(day(360), "1970-12-27");
    assert!(day(359) < day(360));
    assert!(day(1095) < day(1096));
    assert!(day(11016) < day(11017));
    // leap years: 1972 has 366 days, 2000 has February 29th, 2100 does not
    assert_eq!(day(1095), "1972-12-31");
    assert_eq!(day(11016), "2000-02-29");
    assert_eq!(day(11017), "2000-03-01");
    assert_eq!(day(47540), "2100-02-28");
    assert_eq!(day(47541), "2100-03-01");
    assert_eq!(day(2932896), "9999-12-31");
    assert_eq!(day(2932897), "10000-01-01");
    // the last nanosecond of a day is still that day
    assert_eq!(file("a", 0, Some(86400 * SEC - 1), FileMark::Unmarked).modified_str(), "1970-01-01");
}

#[test]
fn wasted_bytes_counts_extra_copies() {
    let g = group(vec![
        file("a", 100, None, FileMark::Unmarked),
        file("b", 100, None, FileMark::Unmarked),
        file("c", 100, None, FileMark::Unmarked),
    ]);
    assert_eq!(g.wasted_bytes(), 200);
    assert_eq!(g.wasted_str(), "200 B");
    assert_eq!(group(vec![]).wasted_bytes(), 0);
    assert_eq!(group(vec![file("a", 7, None, FileMark::Unmarked)]).wasted_bytes(), 0);
    let huge = group(vec![
        file("a", u64::MAX, None, FileMark::Unmarked),
        file("b", 1, None, FileMark::Unmarked),
        file("c", 1, None, FileMark::Unmarked),
    ]);
    assert_eq!(huge.wasted_bytes(), u64::MAX);
}

#[test]
fn keep_newest_marks_last_of_equally_new() {
    let mut g = group(vec![
        file("a", 1, Some(5), FileMark::Unmarked),
        file("b", 1, Some(9), FileMark::Keep),
        file("c", 1, None, FileMark::Unmarked),
        file("d", 1, Some(9), FileMark::Unmarked),
        file("e", 1, Some(2), FileMark::Unmarked),
    ]);
    g.auto_keep_newest();
    assert_eq!(
        marks(&g),
        vec![FileMark::Delete, FileMark::Delete, FileMark::Delete, FileMark::Keep, FileMark::Delete]
    );
    assert_eq!(g.marked_keep_count(), 1);
    assert_eq!(g.marked_delete_count(), 4);
    // running it again changes nothing
    g.auto_keep_newest();
    assert_eq!(g.marked_keep_count(), 1);
    assert_eq!(g.files[3].mark, FileMark::Keep);
}

#[test]
fn keep_oldest_marks_first_of_equally_old() {
    let mut g = group(vec![
        file("a", 1, Some(5), FileMark::Unmarked),
        file("b", 1, None, FileMark::Unmarked),
        file("c", 1, Some(-3), FileMark::Unmarked),
        file("d", 1, Some(-3), FileMark::Unmarked),
    ]);
    g.auto_keep_oldest();
    assert_eq!(marks(&g), vec![FileMark::Delete, FileMark::Delete, FileMark::Keep, FileMark::Delete]);
    let mut unknown = group(vec![file("a", 1, Some(3), FileMark::Unmarked), file("b", 1, None, FileMark::Unmarked)]);
    unknown.auto_keep_oldest();
    // an unknown time counts as the epoch, which is older
    assert_eq!(marks(&unknown), vec![FileMark::Delete, FileMark::Keep]);
}

#[test]
fn auto_marking_an_empty_group_does_nothing() {
    let mut g = group(vec![]);
    g.auto_keep_newest();
    g.auto_keep_oldest();
    g.clear_marks();
    assert!(g.files.is_empty());
}

#[test]
fn clear_marks_removes_all_marks() {
    let mut g = group(vec![
        file("a", 1, Some(5), FileMark::Keep),
        file("b", 1, None, FileMark::Delete),
        file("c", 1, None, FileMark::Quarantine),
    ]);
    g.clear_marks();
    assert_eq!(marks(&g), vec![FileMark::Unmarked; 3]);
    assert_eq!(g.marked_keep_count(), 0);
    assert_eq!(g.marked_delete_count(), 0);
    assert_eq!(g.files[0].path, "a");
    assert_eq!(g.files[0].modified, Some(5));
}

#[test]
fn stats_sum_waste_and_marked_files() {
    let g1 = group(vec![
        file("a", 100, None, FileMark::Keep),
        file("b", 100, None, FileMark::Delete),
        file("c", 100, None, FileMark::Delete),
    ]);
    let g2 = group(vec![file("d", 7, None, FileMark::Unmarked), file("e", 9, None, FileMark::Delete)]);
    let groups = vec![g1, g2];
    assert!(ScanStats::fits(&groups));
    let s = ScanStats::from_groups(42, &groups);
    assert_eq!(s.files_scanned, 42);
    assert_eq!(s.groups_found, 2);
    assert_eq!(s.total_wasted, 207);
    assert_eq!(s.marked_delete_count, 3);
    assert_eq!(s.marked_delete_bytes, 209);
}

#[test]
fn stats_that_overflow_do_not_fit() {
    let g = group(vec![
        file("a", u64::MAX, None, FileMark::Delete),
        file("b", u64::MAX, None, FileMark::Delete),
    ]);
    assert!(!ScanStats::fits(&vec![g]));
}

fn entry(path: &str, size: u64, ext: &str) -> FileEntry {
    FileEntry::new(path.to_string(), size, Some(11), ext.to_string())
}

#[test]
fn build_groups_orders_exact_by_size_then_perceptual() {
    let entries = vec![
        entry("/s1", 10, "txt"),
        entry("/s2", 10, "txt"),
        entry("/b1", 500, "bin"),
        entry("/b2", 500, "bin"),
        entry("/m1", 10, "txt"),
        entry("/m2", 10, "txt"),
        entry("/img1.jpg", 3, "jpg"),
        entry("/img2.png", 4, "png"),
    ];
    let exact = vec![
        (FileHash(1), vec!["/s1".to_string(), "/s2".to_string()]),
        (FileHash(2), vec!["/b1".to_string(), "/b2".to_string()]),
        (FileHash(3), vec!["/m1".to_string(), "/m2".to_string()]),
    ];
    let images = vec![(vec!["/img1.jpg".to_string(), "/img2.png".to_string()], Similarity { score: 60, pairs: 1 })];
    let videos = vec![(vec!["/gone.mp4".to_string(), "/s1".to_string()], Similarity { score: 120, pairs: 2 })];
    let groups = build_groups(&entries, exact, images, videos);
    assert_eq!(groups.len(), 5);
    let firsts: Vec<&str> = groups.iter().map(|g| g.files[0].path.as_str()).collect();
    // largest exact group first; equal sizes keep their order
    assert_eq!(firsts, vec!["/b1", "/s1", "/m1", "/img1.jpg", "/gone.mp4"]);
    for (i, g) in groups.iter().enumerate() {
        assert_eq!(g.id, i);
        assert!(!g.collapsed);
        assert!(g.files.iter().all(|f| f.mark == FileMark::Unmarked));
    }
    assert_eq!(groups[0].kind, MatchKind::ExactHash);
    assert_eq!(groups[0].similarity, Similarity::identical());
    assert_eq!(groups[3].kind, MatchKind::PerceptualImage);
    assert_eq!(groups[3].similarity, Similarity { score: 60, pairs: 1 });
    assert_eq!(groups[3].files[1].kind, FileKind::Image);
    assert_eq!(groups[3].files[1].size, 4);
    assert_eq!(groups[4].kind, MatchKind::PerceptualVideo);
    // a path that was not scanned: size 0, no time, kind Other, its own extension
    let gone = &groups[4].files[0];
    assert_eq!(gone.size, 0);
    assert_eq!(gone.modified, None);
    assert_eq!(gone.kind, FileKind::Other);
    assert_eq!(gone.extension, "mp4");
    assert_eq!(groups[4].files[1].modified, Some(11));
}

#[test]
fn build_groups_uses_last_entry_for_repeated_paths() {
    let entries = vec![entry("/p", 1, "a"), entry("/p", 2, "b")];
    let exact = vec![(FileHash(1), vec!["/p".to_string(), "/p".to_string()])];
    let groups = build_groups(&entries, exact, Vec::new(), Vec::new());
    assert_eq!(groups[0].files[0].size, 2);
    assert_eq!(groups[0].files[0].extension, "b");
}

#[test]
fn mark_buttons_toggle() {
    assert_eq!(FileMark::Unmarked.toggled(FileMark::Delete), FileMark::Delete);
    assert_eq!(FileMark::Delete.toggled(FileMark::Delete), FileMark::Unmarked);
    assert_eq!(FileMark::Keep.toggled(FileMark::Delete), FileMark::Delete);
    assert_eq!(FileMark::Delete.toggled(FileMark::Keep), FileMark::Keep);
    // twice restores
    assert_eq!(FileMark::Unmarked.toggled(FileMark::Keep).toggled(FileMark::Keep), FileMark::Unmarked);
}
