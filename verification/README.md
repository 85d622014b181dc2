# DupeHunter

A duplicate file finder: byte-identical files by size and XXH3-128 content hash, and
visually identical images and videos by 64-bit dHash fingerprints.

- `src/` is the verified core (Verus). Every function there states its behaviour in
  `requires`/`ensures`, and the laws of the library are proof functions (`law_*`).
  - `scanner`: file kinds, which walked entries are kept, which files are compared
    perceptually, human-readable sizes.
  - `hasher`: the three exact-duplicate passes (size, first-block hash, full hash)
    and a streaming XXH3-128 hasher.
  - `perceptual`: dHash, video frame distance by relative position, and the greedy
    clustering: every pair of an image group is within the threshold, and every video
    of a video group is within it of the group's first video.
  - `grouper`: duplicate groups, automatic keep/delete marking, merging all groups,
    summary statistics.
  - `actions`: records and tallies of file actions, and the groups after them.
  - `view`: which groups the results list shows, in which order.
  - `report`: the rows of the CSV report, with RFC 4180 quoting.
  - `calendar`: Gregorian dates in UTC; `text`: decimal text with exact models.
- `app/` is the desktop program (egui): folder walking, file reading, ffmpeg calls,
  filesystem actions and the user interface. It hands each decision on scan options,
  fingerprints, groups, marks, actions and report rows to the library; what stays in
  it is I/O, threads and the floating-point similarity shown on screen.
- `tests/` exercise the library on concrete values.
