use dupehunter::hasher::{
    group_by_full_hash, partial_candidates, shared_key_positions, size_candidates, ContentHasher,
    FileHash, CHUNK_SIZE, PARTIAL_SIZE,
};
use dupehunter::scanner::FileEntry;

fn entry(path: &str, size: u64) -> FileEntry {
    FileEntry::new(path.to_string(), size, None, String::new())
}

#[test]
fn buffer_sizes() {
    assert_eq!(PARTIAL_SIZE, 64 * 1024);
    assert_eq!(CHUNK_SIZE, 256 * 1024);
}

#[test]
fn streaming_hash_matches_one_shot_xxh3() {
    let data: Vec<u8> = (0..300_000u32).map(|i| (i * 31 % 251) as u8).collect();
    let mut h = ContentHasher::new();
    h.update(&data[..1000]);
    h.update(&data[1000..200_000]);
    h.update(&data[200_000..]);
    assert_eq!(h.finish(), FileHash(xxhash_rust::xxh3::xxh3_128(&data)));

    let mut small = ContentHasher::new();
    small.update(b"hello");
    assert_eq!(small.finish(), FileHash(xxhash_rust::xxh3::xxh3_128(b"hello")));
    assert_ne!(small.finish(), FileHash(xxhash_rust::xxh3::xxh3_128(b"hellp")));

    let empty = ContentHasher::new();
    assert_eq!(empty.finish(), FileHash(xxhash_rust::xxh3::xxh3_128(b"")));
}

#[test]
fn shared_positions_keep_only_repeated_keys() {
    let keys = vec![Some(5), Some(7), None, Some(5), Some(9), None, Some(7)];
    assert_eq!(shared_key_positions(&keys), vec![0, 1, 3, 6]);
    assert!(shared_key_positions(&vec![Some(1), Some(2), None]).is_empty());
    assert!(shared_key_positions(&Vec::new()).is_empty());
}

#[test]
fn size_stage_drops_unique_sizes() {
    let entries = vec![entry("a", 10), entry("b", 20), entry("c", 10), entry("d", 30), entry("e", 20)];
    assert_eq!(size_candidates(&entries), vec![0, 1, 2, 4]);
}

#[test]
fn partial_stage_groups_across_sizes_and_drops_failures() {
    let candidates = vec![0usize, 1, 2, 4, 7];
    let partial = vec![
        Some(FileHash(1)),
        Some(FileHash(2)),
        Some(FileHash(1)),
        None,
        Some(FileHash(3)),
    ];
    assert_eq!(partial_candidates(&candidates, &partial), vec![0, 2]);
    let all_failed = vec![None, None, None, None, None];
    assert!(partial_candidates(&candidates, &all_failed).is_empty());
}

#[test]
fn full_stage_groups_by_hash_in_first_seen_order() {
    let entries = vec![entry("a", 1), entry("b", 1), entry("c", 1), entry("d", 1), entry("e", 1)];
    let candidates = vec![4usize, 0, 3, 1, 2];
    let full = vec![
        Some(FileHash(9)),
        Some(FileHash(5)),
        Some(FileHash(9)),
        None,
        Some(FileHash(5)),
    ];
    let groups = group_by_full_hash(&entries, &candidates, &full);
    assert_eq!(groups.len(), 2);
    assert_eq!(groups[0].0, FileHash(9));
    assert_eq!(groups[0].1, vec!["e".to_string(), "d".to_string()]);
    assert_eq!(groups[1].0, FileHash(5));
    assert_eq!(groups[1].1, vec!["a".to_string(), "c".to_string()]);
}

#[test]
fn full_stage_without_repeats_is_empty() {
    let entries = vec![entry("a", 1), entry("b", 1)];
    let groups = group_by_full_hash(&entries, &vec![0, 1], &vec![Some(FileHash(1)), Some(FileHash(2))]);
    assert!(groups.is_empty());
}
