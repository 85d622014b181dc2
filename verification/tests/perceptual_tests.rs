use dupehunter::perceptual::{
    dhash_from_raw, fingerprint_image, fingerprint_video, group_similar_images,
    group_similar_videos, video_distance, DHash, ImageFingerprint, Similarity, VideoFingerprint,
    VideoFingerprintError, IMAGE_THRESHOLD, VIDEO_FRAME_SAMPLES, VIDEO_THRESHOLD,
};

fn img(path: &str, h: u64) -> ImageFingerprint {
    ImageFingerprint { path: path.to_string(), hash: DHash(h) }
}

fn vid(path: &str, frames: &[u64]) -> VideoFingerprint {
    VideoFingerprint { path: path.to_string(), frame_hashes: frames.iter().map(|h| DHash(*h)).collect() }
}

#[test]
fn constants() {
    assert_eq!(IMAGE_THRESHOLD, 8);
    assert_eq!(VIDEO_THRESHOLD, 10);
    assert_eq!(VIDEO_FRAME_SAMPLES, 16);
}

#[test]
fn hamming_distance() {
    assert_eq!(DHash(0).dist(DHash(0)), 0);
    assert_eq!(DHash(0).dist(DHash(u64::MAX)), 64);
    assert_eq!(DHash(0b1011).dist(DHash(0)), 3);
    assert_eq!(DHash(0xF0F0).dist(DHash(0x0FF0)), 8);
}

#[test]
fn dhash_of_thumbnails() {
    // every pixel darker than its right neighbour: no bit set
    let rising: Vec<u8> = (0..72u32).map(|i| (i % 9) as u8 * 10).collect();
    assert_eq!(dhash_from_raw(&rising), DHash(0));
    // every pixel brighter than its right neighbour: all bits set
    let falling: Vec<u8> = (0..72u32).map(|i| 200 - (i % 9) as u8 * 10).collect();
    assert_eq!(dhash_from_raw(&falling), DHash(u64::MAX));
    // only the first pixel of row 1 is brighter than its neighbour: bit 8
    let mut one = rising.clone();
    one[9] = 255;
    assert_eq!(dhash_from_raw(&one), DHash(1 << 8));
    // equal neighbours do not set a bit
    assert_eq!(dhash_from_raw(&[7u8; 72]), DHash(0));
}

#[test]
fn image_fingerprint_keeps_path() {
    let falling: Vec<u8> = (0..72u32).map(|i| 200 - (i % 9) as u8 * 10).collect();
    let f = fingerprint_image("/x/a.png", &falling);
    assert_eq!(f.path, "/x/a.png");
    assert_eq!(f.hash, DHash(u64::MAX));
}

#[test]
fn video_fingerprint_skips_failed_frames() {
    let rising: Vec<u8> = (0..72u32).map(|i| (i % 9) as u8 * 10).collect();
    let falling: Vec<u8> = (0..72u32).map(|i| 200 - (i % 9) as u8 * 10).collect();
    let frames = vec![None, Some(rising), None, Some(falling)];
    let f = fingerprint_video("/v.mp4", &frames).ok().unwrap();
    assert_eq!(f.path, "/v.mp4");
    assert_eq!(f.frame_hashes, vec![DHash(0), DHash(u64::MAX)]);
}

#[test]
fn video_fingerprint_without_frames_fails() {
    let frames: Vec<Option<Vec<u8>>> = vec![None, None];
    match fingerprint_video("/v.mp4", &frames) {
        Err(e) => assert_eq!(e, VideoFingerprintError::NoFrames),
        Ok(_) => panic!("expected an error"),
    }
    assert!(fingerprint_video("/v.mp4", &Vec::new()).is_err());
}

#[test]
fn video_distance_averages_aligned_frames() {
    let a = vid("a", &[0, 0, 0]);
    let b = vid("b", &[0b1, 0b111, 0xFF, 0xFFFF]);
    // a's frames sit at 1/6, 3/6 and 5/6 of the video: b's frames 0, 2 and 3,
    // so 1 + 8 + 16 = 25 over 3 frames, rounded down
    assert_eq!(video_distance(&a, &b), 8);
    assert_eq!(video_distance(&b, &a), 8);
    assert_eq!(video_distance(&a, &a), 0);
    // as many frames: frame i with frame i, 1 + 3 = 4 over 3 frames rounds down to 1
    let c = vid("c", &[0b1, 0b111, 0]);
    assert_eq!(video_distance(&a, &c), 1);
    let empty = vid("e", &[]);
    assert_eq!(video_distance(&a, &empty), u32::MAX);
}

#[test]
fn video_distance_aligns_by_relative_position() {
    let a = vid("a", &[0, 0, u64::MAX, u64::MAX]);
    let b = vid("b", &[0, u64::MAX]);
    // b's first frame faces a's first half, its second frame a's second half
    assert_eq!(video_distance(&a, &b), 0);
    assert_eq!(video_distance(&b, &a), 0);
}

#[test]
fn images_cluster_around_first_unclaimed() {
    // a=0, b at distance 1 from a, c at distance 2 from a and 1 from b
    let prints = vec![img("a", 0), img("b", 0b1), img("c", 0b11)];
    let groups = group_similar_images(&prints, 1);
    assert_eq!(groups.len(), 1);
    assert_eq!(groups[0].0, vec!["a".to_string(), "b".to_string()]);
    assert_eq!(groups[0].1, Similarity { score: 63, pairs: 1 });
}

#[test]
fn images_join_only_within_threshold_of_every_member() {
    // c is 1 bit from a but 2 bits from b, so it stays out of their group
    let prints = vec![img("a", 0), img("b", 0b1), img("c", 0b10)];
    let groups = group_similar_images(&prints, 1);
    assert_eq!(groups.len(), 1);
    assert_eq!(groups[0].0, vec!["a".to_string(), "b".to_string()]);
    // an image left out can start a group of its own with a later one
    let prints = vec![img("a", 0), img("b", 0b1), img("c", 0b10), img("d", 0b110)];
    let groups = group_similar_images(&prints, 1);
    assert_eq!(groups.len(), 2);
    assert_eq!(groups[0].0, vec!["a".to_string(), "b".to_string()]);
    assert_eq!(groups[1].0, vec!["c".to_string(), "d".to_string()]);
    assert_eq!(groups[1].1, Similarity { score: 63, pairs: 1 });
}

#[test]
fn images_cluster_into_disjoint_groups() {
    let prints = vec![
        img("a", 0),
        img("x", u64::MAX),
        img("b", 0b11),
        img("y", u64::MAX ^ 0b1),
        img("lonely", 0x00FF_00FF_00FF_00FF),
    ];
    let groups = group_similar_images(&prints, IMAGE_THRESHOLD);
    assert_eq!(groups.len(), 2);
    assert_eq!(groups[0].0, vec!["a".to_string(), "b".to_string()]);
    assert_eq!(groups[0].1, Similarity { score: 62, pairs: 1 });
    assert_eq!(groups[1].0, vec!["x".to_string(), "y".to_string()]);
    assert_eq!(groups[1].1, Similarity { score: 63, pairs: 1 });
    let mut seen: Vec<String> = Vec::new();
    for (paths, _) in &groups {
        assert!(paths.len() >= 2);
        for p in paths {
            assert!(!seen.contains(p));
            seen.push(p.clone());
        }
    }
}

#[test]
fn images_without_duplicates_give_no_groups() {
    let prints = vec![img("a", 0), img("b", u64::MAX)];
    assert!(group_similar_images(&prints, 8).is_empty());
    assert!(group_similar_images(&Vec::new(), 8).is_empty());
}

#[test]
fn videos_cluster_by_average_distance() {
    let prints = vec![
        vid("v1", &[0, 0]),
        vid("v2", &[0b1, 0b111]),
        vid("v3", &[u64::MAX, u64::MAX]),
        vid("v4", &[0, 0, 0]),
    ];
    let groups = group_similar_videos(&prints, 2);
    assert_eq!(groups.len(), 1);
    assert_eq!(groups[0].0, vec!["v1".to_string(), "v2".to_string(), "v4".to_string()]);
    // distances 2 and 0
    assert_eq!(groups[0].1, Similarity { score: 62 + 64, pairs: 2 });
}

#[test]
fn videos_join_within_threshold_of_the_first() {
    // b and c are each 1 bit from a but 2 bits from each other: all three group
    let prints = vec![vid("a", &[0]), vid("b", &[0b1]), vid("c", &[0b10])];
    let groups = group_similar_videos(&prints, 1);
    assert_eq!(groups.len(), 1);
    assert_eq!(groups[0].0, vec!["a".to_string(), "b".to_string(), "c".to_string()]);
    assert_eq!(groups[0].1, Similarity { score: 63 + 63, pairs: 2 });
}
