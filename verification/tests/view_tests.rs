use dupehunter::grouper::{DupeFile, DuplicateGroup, FileMark, MatchKind};
use dupehunter::perceptual::Similarity;
use dupehunter::scanner::FileKind;
use dupehunter::view::{threshold_label, visible_groups, FilterKind, SortMode};

fn file(path: &str, size: u64, mark: FileMark) -> DupeFile {
    DupeFile { path: path.to_string(), size, modified: None, extension: String::new(), kind: FileKind::Other, mark }
}

fn group(id: usize, kind: MatchKind, files: Vec<DupeFile>) -> DuplicateGroup {
    DuplicateGroup { id, kind, similarity: Similarity::identical(), files, collapsed: false }
}

fn sample() -> Vec<DuplicateGroup> {
    vec![
        group(0, MatchKind::ExactHash, vec![file("/b/Photo.JPG", 10, FileMark::Unmarked), file("/x", 10, FileMark::Unmarked)]),
        group(1, MatchKind::PerceptualImage, vec![file("/a/cat.png", 50, FileMark::Delete), file("/y", 50, FileMark::Unmarked)]),
        group(2, MatchKind::ExactHash, vec![file("/c/doc.txt", 10, FileMark::Unmarked), file("/z", 1, FileMark::Unmarked), file("/w", 1, FileMark::Unmarked)]),
        group(3, MatchKind::PerceptualVideo, vec![file("/a/clip.mp4", 5, FileMark::Keep), file("/v", 5, FileMark::Unmarked)]),
    ]
}

#[test]
fn sorted_by_waste_with_ties_in_order() {
    let g = sample();
    // wasted: 10, 50, 20, 5
    assert_eq!(visible_groups(&g, FilterKind::All, "", false, SortMode::WastedDesc), vec![1, 2, 0, 3]);
    assert_eq!(visible_groups(&g, FilterKind::All, "", false, SortMode::WastedAsc), vec![3, 0, 2, 1]);
    // copies: 2, 2, 3, 2
    assert_eq!(visible_groups(&g, FilterKind::All, "", false, SortMode::CopiesDesc), vec![2, 0, 1, 3]);
    assert_eq!(visible_groups(&g, FilterKind::All, "", false, SortMode::NameAsc), vec![1, 3, 0, 2]);
}

#[test]
fn filters_by_kind_text_and_marks() {
    let g = sample();
    assert_eq!(visible_groups(&g, FilterKind::Exact, "", false, SortMode::NameAsc), vec![0, 2]);
    assert_eq!(visible_groups(&g, FilterKind::Image, "", false, SortMode::NameAsc), vec![1]);
    assert_eq!(visible_groups(&g, FilterKind::Video, "", false, SortMode::NameAsc), vec![3]);
    // the text filter ignores case
    assert_eq!(visible_groups(&g, FilterKind::All, "PHOTO", false, SortMode::NameAsc), vec![0]);
    assert_eq!(visible_groups(&g, FilterKind::All, "/a/", false, SortMode::NameAsc), vec![1, 3]);
    assert!(visible_groups(&g, FilterKind::All, "nothing", false, SortMode::NameAsc).is_empty());
    assert_eq!(visible_groups(&g, FilterKind::All, "", true, SortMode::NameAsc), vec![1, 3]);
    assert!(visible_groups(&Vec::new(), FilterKind::All, "", false, SortMode::NameAsc).is_empty());
}

#[test]
fn threshold_hints() {
    assert_eq!(threshold_label(0), "Strict (byte-near-identical)");
    assert_eq!(threshold_label(8), "Normal (same image, different format/compression)");
    assert_eq!(threshold_label(15), "Loose (similar images)");
    assert_eq!(threshold_label(16), "Very loose");
}
