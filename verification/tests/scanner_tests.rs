use dupehunter::scanner::{entries_of_kind, format_size, FileEntry, FileKind, ScanOptions};

/// The float formula the sizes are meant to follow.
fn float_size(bytes: u64) -> String {
    const UNITS: &[&str] = &["B", "KB", "MB", "GB", "TB"];
    if bytes == 0 {
        return "0 B".to_string();
    }
    let mut val = bytes as f64;
    let mut unit = 0;
    while val >= 1024.0 && unit < UNITS.len() - 1 {
        val /= 1024.0;
        unit += 1;
    }
    if unit == 0 {
        format!("{} B", bytes)
    } else {
        format!("{:.1} {}", val, UNITS[unit])
    }
}

#[test]
fn format_size_small_values() {
    assert_eq!(format_size(0), "0 B");
    assert_eq!(format_size(1), "1 B");
    assert_eq!(format_size(512), "512 B");
    assert_eq!(format_size(1023), "1023 B");
}

#[test]
fn format_size_units() {
    assert_eq!(format_size(1024), "1.0 KB");
    assert_eq!(format_size(1536), "1.5 KB");
    assert_eq!(format_size(1048576), "1.0 MB");
    assert_eq!(format_size(5 * 1073741824), "5.0 GB");
    assert_eq!(format_size(1099511627776), "1.0 TB");
    assert_eq!(format_size(2048 * 1099511627776), "2048.0 TB");
}

#[test]
fn format_size_rounds_ties_to_even() {
    // 1.25 KB and 1.75 KB are exact ties at one decimal.
    assert_eq!(format_size(1280), float_size(1280));
    assert_eq!(format_size(1792), float_size(1792));
    assert_eq!(format_size(1280), "1.2 KB");
    assert_eq!(format_size(1792), "1.8 KB");
}

#[test]
fn format_size_matches_float_formula() {
    let mut samples: Vec<u64> = Vec::new();
    for k in 0..64u32 {
        let p = 1u64 << k;
        samples.push(p);
        samples.push(p - 1);
        samples.push(p + 1);
        samples.push(p.wrapping_mul(3) / 2);
    }
    for base in [1024u64, 1048576, 1073741824, 1099511627776] {
        for tenth in 0..200u64 {
            samples.push(base * tenth / 20);
            samples.push(base * tenth / 20 + 1);
            samples.push((base * tenth / 20).saturating_sub(1));
        }
    }
    samples.push(u64::MAX);
    samples.push(u64::MAX - 1);
    samples.push(9007199254740993);
    samples.push(9007199254740995);
    samples.push(18014398509481987);
    let mut x: u64 = 0x9E3779B97F4A7C15;
    for _ in 0..20000 {
        x ^= x << 13;
        x ^= x >> 7;
        x ^= x << 17;
        samples.push(x >> (x % 64));
    }
    for b in samples {
        assert_eq!(format_size(b), float_size(b), "bytes = {}", b);
    }
}

#[test]
fn file_kind_from_extension() {
    assert_eq!(FileKind::from_ext("jpg"), FileKind::Image);
    assert_eq!(FileKind::from_ext("JPEG"), FileKind::Image);
    assert_eq!(FileKind::from_ext("Heic"), FileKind::Image);
    assert_eq!(FileKind::from_ext("mp4"), FileKind::Video);
    assert_eq!(FileKind::from_ext("M2TS"), FileKind::Video);
    assert_eq!(FileKind::from_ext("3gp"), FileKind::Video);
    assert_eq!(FileKind::from_ext("txt"), FileKind::Other);
    assert_eq!(FileKind::from_ext(""), FileKind::Other);
    assert_eq!(FileKind::from_ext("jpgx"), FileKind::Other);
    assert_eq!(FileKind::from_lowercase_ext("JPG"), FileKind::Other);
    assert_eq!(FileKind::from_lowercase_ext("tif"), FileKind::Image);
}

#[test]
fn file_kind_icons() {
    assert_eq!(FileKind::Image.icon(), "🖼");
    assert_eq!(FileKind::Video.icon(), "🎬");
    assert_eq!(FileKind::Other.icon(), "📄");
}

#[test]
fn file_entry_takes_kind_from_extension() {
    let e = FileEntry::new("/a/b.PNG".to_string(), 10, Some(5), "PNG".to_string());
    assert_eq!(e.kind, FileKind::Image);
    assert_eq!(e.path, "/a/b.PNG");
    assert_eq!(e.size, 10);
    assert_eq!(e.modified, Some(5));
}

#[test]
fn scan_options_defaults_and_filters() {
    let o = ScanOptions::default();
    assert!(o.roots.is_empty());
    assert!(o.recursive && o.skip_hidden);
    assert_eq!(o.min_size_bytes, 1);
    assert!(o.compare_images_perceptually && o.compare_videos_perceptually);
    assert_eq!(o.max_depth(), usize::MAX);
    assert!(!o.walks_into(".git"));
    assert!(o.walks_into("photos"));
    assert!(o.walks_into(""));
    assert!(!o.admits(true, 0));
    assert!(o.admits(true, 1));
    assert!(!o.admits(false, 100));

    let mut p = ScanOptions::default();
    p.recursive = false;
    p.skip_hidden = false;
    p.min_size_bytes = 100;
    assert_eq!(p.max_depth(), 1);
    assert!(p.walks_into(".hidden"));
    assert!(!p.admits(true, 99));
    assert!(p.admits(true, 100));
}

#[test]
fn entries_split_by_kind() {
    let entries = vec![
        FileEntry::new("/a.jpg".to_string(), 1, None, "jpg".to_string()),
        FileEntry::new("/b.mp4".to_string(), 1, None, "mp4".to_string()),
        FileEntry::new("/c.txt".to_string(), 1, None, "txt".to_string()),
        FileEntry::new("/d.PNG".to_string(), 1, None, "PNG".to_string()),
    ];
    assert_eq!(entries_of_kind(&entries, FileKind::Image), vec![0, 3]);
    assert_eq!(entries_of_kind(&entries, FileKind::Video), vec![1]);
    assert_eq!(entries_of_kind(&entries, FileKind::Other), vec![2]);
}


#[test]
fn compare_options_turn_perceptual_matching_off() {
    let entries = vec![
        FileEntry::new("/a.jpg".to_string(), 1, None, "jpg".to_string()),
        FileEntry::new("/b.mp4".to_string(), 1, None, "mp4".to_string()),
        FileEntry::new("/c.txt".to_string(), 1, None, "txt".to_string()),
        FileEntry::new("/d.PNG".to_string(), 1, None, "PNG".to_string()),
    ];
    let mut o = ScanOptions::default();
    assert_eq!(o.perceptual_candidates(&entries, FileKind::Image), vec![0, 3]);
    assert_eq!(o.perceptual_candidates(&entries, FileKind::Video), vec![1]);
    assert!(o.perceptual_candidates(&entries, FileKind::Other).is_empty());
    o.compare_videos_perceptually = false;
    assert!(o.perceptual_candidates(&entries, FileKind::Video).is_empty());
    assert_eq!(o.perceptual_candidates(&entries, FileKind::Image), vec![0, 3]);
    o.compare_images_perceptually = false;
    assert!(o.perceptual_candidates(&entries, FileKind::Image).is_empty());
}
