use dupehunter::calendar::date_of_day;
use dupehunter::grouper::{DupeFile, FileMark, MatchKind};
use dupehunter::report::{csv_header, csv_row};
use dupehunter::scanner::FileKind;

const SEC: i128 = 1_000_000_000;

fn file(path: &str, size: u64, modified: Option<i128>, mark: FileMark) -> DupeFile {
    DupeFile {
        path: path.to_string(),
        size,
        modified,
        extension: String::new(),
        kind: FileKind::Other,
        mark,
    }
}

#[test]
fn report_header() {
    assert_eq!(csv_header(), "Group,MatchKind,Similarity,FilePath,Size,Modified,Mark");
}

#[test]
fn report_row_with_plain_path() {
    let f = file("/photos/a.jpg", 2048, Some(1_000_000_000 * SEC), FileMark::Keep);
    assert_eq!(csv_row(3, MatchKind::ExactHash, "1.00", &f), "3,Exact match,1.00,/photos/a.jpg,2048,2001-09-09,Keep");
    let g = file("/v.mp4", 0, None, FileMark::Unmarked);
    assert_eq!(csv_row(0, MatchKind::PerceptualVideo, "0.97", &g), "0,Video match,0.97,/v.mp4,0,Unknown,None");
    let h = file("/i.png", 7, Some(0), FileMark::Quarantine);
    assert_eq!(csv_row(12, MatchKind::PerceptualImage, "0.50", &h), "12,Visual match,0.50,/i.png,7,1970-01-01,Quarantine");
}

#[test]
fn report_row_quotes_paths() {
    let f = file("/a,b.txt", 1, None, FileMark::Delete);
    assert_eq!(csv_row(1, MatchKind::ExactHash, "1.00", &f), "1,Exact match,1.00,\"/a,b.txt\",1,Unknown,Delete");
    let g = file("/say \"hi\".txt", 1, None, FileMark::Delete);
    assert_eq!(csv_row(1, MatchKind::ExactHash, "1.00", &g), "1,Exact match,1.00,\"/say \"\"hi\"\".txt\",1,Unknown,Delete");
    let h = file("/two\nlines", 1, None, FileMark::Delete);
    assert_eq!(csv_row(1, MatchKind::ExactHash, "1.00", &h), "1,Exact match,1.00,\"/two\nlines\",1,Unknown,Delete");
}

#[test]
fn gregorian_days() {
    assert_eq!(date_of_day(0), (1970, 1, 1));
    assert_eq!(date_of_day(58), (1970, 2, 28));
    assert_eq!(date_of_day(59), (1970, 3, 1));
    assert_eq!(date_of_day(11016), (2000, 2, 29));
    assert_eq!(date_of_day(47541), (2100, 3, 1));
    // whole 400-year cycles of 146097 days
    assert_eq!(date_of_day(146097), (2370, 1, 1));
    assert_eq!(date_of_day(146097 * 1000 + 59), (401970, 3, 1));
}
