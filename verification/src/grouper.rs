//! Duplicate groups as shown to the user: the files of each group with their marks,
//! the automatic keep/delete marking, and the merge of exact and perceptual groups.

use vstd::prelude::*;
use crate::text::{zero_padded, push_zero_padded, text_le, fixed_digits, fits_digits, lemma_text_le_concat, lemma_fixed_digits_order, lemma_zero_padded_fixed};
use crate::calendar::{civil_date, date_of_day, date_le, law_civil_date_monotone, lemma_civil_date_ranges};
use crate::scanner::{FileKind, FileEntry, format_size, size_text, path_extension, path_extension_of};
use crate::perceptual::{Similarity, same_indices};
use crate::hasher::{FileHash, ContentHasher, xxh3_digest_of};
use vstd::utf8::encode_utf8;
use std::collections::HashMap;

verus! {

/// How the files of a group were found to be duplicates.
#[derive(Debug, Clone, Copy, PartialEq, Eq, Structural)]
pub enum MatchKind {
    /// Byte-for-byte identical (same XXH3 hash).
    ExactHash,
    /// Visually identical images (dHash within threshold), possibly different formats.
    PerceptualImage,
    /// Visually identical video content (average frame dHash within threshold).
    PerceptualVideo,
}

impl MatchKind {
    pub fn label(&self) -> (s: &'static str)
        ensures
            s@ == (match *self {
                MatchKind::ExactHash => "Exact match"@,
                MatchKind::PerceptualImage => "Visual match"@,
                MatchKind::PerceptualVideo => "Video match"@,
            }),
    {
        match self {
            MatchKind::ExactHash => "Exact match",
            MatchKind::PerceptualImage => "Visual match",
            MatchKind::PerceptualVideo => "Video match",
        }
    }

    pub fn icon(&self) -> (s: &'static str)
        ensures
            s@ == (match *self {
                MatchKind::ExactHash => "≡"@,
                MatchKind::PerceptualImage => "👁"@,
                MatchKind::PerceptualVideo => "🎬"@,
            }),
    {
        match self {
            MatchKind::ExactHash => "≡",
            MatchKind::PerceptualImage => "👁",
            MatchKind::PerceptualVideo => "🎬",
        }
    }

    /// Returns (r, g, b) for this match kind.
    pub fn color_rgb(&self) -> (c: (u8, u8, u8))
        ensures
            c == (match *self {
                MatchKind::ExactHash => (100u8, 160u8, 255u8),
                MatchKind::PerceptualImage => (255u8, 180u8, 80u8),
                MatchKind::PerceptualVideo => (180u8, 120u8, 255u8),
            }),
    {
        match self {
            MatchKind::ExactHash => (100, 160, 255),
            MatchKind::PerceptualImage => (255, 180, 80),
            MatchKind::PerceptualVideo => (180, 120, 255),
        }
    }
}

/// Mark applied to a single file within a group.
#[derive(Debug, Clone, Copy, PartialEq, Eq, Structural)]
pub enum FileMark {
    Unmarked,
    Keep,
    Delete,
    Quarantine,
}

/// The mark a file gets when the button for `target` is clicked on a file marked `m`.
pub open spec fn toggle_mark(m: FileMark, target: FileMark) -> FileMark {
    if m == target {
        FileMark::Unmarked
    } else {
        target
    }
}

impl FileMark {
    /// The mark a file gets when the button for `target` is clicked: the button
    /// clears its own mark, and sets it otherwise.
    pub fn toggled(self, target: FileMark) -> (m: FileMark)
        ensures
            m == toggle_mark(self, target),
            self != target ==> m == target,
            self == target ==> m == FileMark::Unmarked,
    {
        if self == target {
            FileMark::Unmarked
        } else {
            target
        }
    }
}

/// Clicking the same mark button twice restores an unmarked file, and clears a
/// marked one after setting it.
pub proof fn law_toggle_twice(m: FileMark, target: FileMark)
    requires
        target != FileMark::Unmarked,
        m == FileMark::Unmarked || m == target,
    ensures
        toggle_mark(toggle_mark(m, target), target) == m,
{
}

/// What a mark button does: on a file without that mark it sets the mark, and on a
/// file with it it clears the mark.
pub proof fn law_toggle_sets_or_clears(m: FileMark, target: FileMark)
    ensures
        m != target ==> toggle_mark(m, target) == target,
        toggle_mark(target, target) == FileMark::Unmarked,
{
}

impl Default for FileMark {
    fn default() -> (m: Self)
        ensures
            m == FileMark::Unmarked,
    {
        FileMark::Unmarked
    }
}

/// Metadata and mark of one file in a duplicate group. `modified` is in nanoseconds
/// relative to the Unix epoch, when known.
#[derive(Debug, Clone)]
pub struct DupeFile {
    pub path: String,
    pub size: u64,
    pub modified: Option<i128>,
    pub extension: String,
    pub kind: FileKind,
    pub mark: FileMark,
}

/// Whole seconds since the epoch of a modification time; 0 for times before it.
pub open spec fn epoch_secs(t: i128) -> nat {
    if t >= 0 {
        (t / 1_000_000_000) as nat
    } else {
        0
    }
}

/// The UTC date of a modification time in the proleptic Gregorian calendar, as
/// "YYYY-MM-DD"; times before the epoch show the epoch's date.
pub open spec fn utc_date_text(t: i128) -> Seq<char> {
    let (y, m, d) = civil_date(epoch_secs(t) / 86400);
    date_text_of(y, m, d)
}

/// A date written "YYYY-MM-DD", each part zero-padded to its width.
pub open spec fn date_text_of(y: int, m: int, d: int) -> Seq<char> {
    zero_padded(y as nat, 4) + "-"@ + zero_padded(m as nat, 2) + "-"@ + zero_padded(d as nat, 2)
}

/// A later modification time never shows an earlier date.
pub proof fn law_modified_dates_monotone(t1: i128, t2: i128)
    requires
        t1 <= t2,
    ensures
        date_le(civil_date(epoch_secs(t1) / 86400), civil_date(epoch_secs(t2) / 86400)),
{
    if t1 >= 0 {
        vstd::arithmetic::div_mod::lemma_div_is_ordered(t1 as int, t2 as int, 1_000_000_000);
    }
    vstd::arithmetic::div_mod::lemma_div_is_ordered(epoch_secs(t1) as int, epoch_secs(t2) as int, 86400);
    law_civil_date_monotone(epoch_secs(t1) / 86400, epoch_secs(t2) / 86400);
}

proof fn lemma_fits_small(n: nat, w: nat)
    requires
        (w == 2 && n < 100) || (w == 4 && n < 10000),
    ensures
        fits_digits(n, w),
{
    if w == 4 {
        assert(fits_digits(n / 10 / 10 / 10 / 10, 0));
        assert(fits_digits(n / 10 / 10 / 10, 1));
        assert(fits_digits(n / 10 / 10, 2));
        assert(fits_digits(n / 10, 3));
    } else {
        assert(fits_digits(n / 10 / 10, 0));
        assert(fits_digits(n / 10, 1));
    }
}

#[verifier::spinoff_prover]
#[verifier::rlimit(50)]
proof fn lemma_date_text_order(y1: int, m1: int, d1: int, y2: int, m2: int, d2: int)
    requires
        date_le((y1, m1, d1), (y2, m2, d2)),
        0 <= y1 < 10000,
        0 <= y2 < 10000,
        1 <= m1 <= 12,
        1 <= m2 <= 12,
        1 <= d1 <= 31,
        1 <= d2 <= 31,
    ensures
        text_le(date_text_of(y1, m1, d1), date_text_of(y2, m2, d2)),
{
    lemma_fits_small(y1 as nat, 4);
    lemma_fits_small(y2 as nat, 4);
    lemma_fits_small(m1 as nat, 2);
    lemma_fits_small(m2 as nat, 2);
    lemma_fits_small(d1 as nat, 2);
    lemma_fits_small(d2 as nat, 2);
    lemma_zero_padded_fixed(y1 as nat, 4);
    lemma_zero_padded_fixed(y2 as nat, 4);
    lemma_zero_padded_fixed(m1 as nat, 2);
    lemma_zero_padded_fixed(m2 as nat, 2);
    lemma_zero_padded_fixed(d1 as nat, 2);
    lemma_zero_padded_fixed(d2 as nat, 2);
    let fy1 = fixed_digits(y1 as nat, 4);
    let fy2 = fixed_digits(y2 as nat, 4);
    let fm1 = fixed_digits(m1 as nat, 2);
    let fm2 = fixed_digits(m2 as nat, 2);
    let fd1 = fixed_digits(d1 as nat, 2);
    let fd2 = fixed_digits(d2 as nat, 2);
    let dash = "-"@;
    let day1 = dash + fd1;
    let day2 = dash + fd2;
    let md1 = fm1 + day1;
    let md2 = fm2 + day2;
    let rest1 = dash + md1;
    let rest2 = dash + md2;
    assert(date_text_of(y1, m1, d1) =~= fy1 + rest1);
    assert(date_text_of(y2, m2, d2) =~= fy2 + rest2);
    lemma_fixed_digits_order(y1 as nat, y2 as nat, 4);
    if y1 < y2 {
        lemma_text_le_concat(fy1, rest1, fy2, rest2);
    } else {
        lemma_fixed_digits_order(m1 as nat, m2 as nat, 2);
        if m1 < m2 {
            lemma_text_le_concat(fm1, day1, fm2, day2);
        } else {
            lemma_fixed_digits_order(d1 as nat, d2 as nat, 2);
            lemma_text_le_concat(dash, fd1, dash, fd2);
            lemma_text_le_concat(fm1, day1, fm2, day2);
        }
        lemma_text_le_concat(dash, md1, dash, md2);
        lemma_text_le_concat(fy1, rest1, fy2, rest2);
    }
}

/// Up to year 9999, a later modification time never shows a date text that sorts before
/// an earlier one's: "YYYY-MM-DD" texts compare as the dates do.
pub proof fn law_modified_text_monotone(t1: i128, t2: i128)
    requires
        t1 <= t2,
        civil_date(epoch_secs(t2) / 86400).0 < 10000,
    ensures
        text_le(utc_date_text(t1), utc_date_text(t2)),
{
    law_modified_dates_monotone(t1, t2);
    let c1 = civil_date(epoch_secs(t1) / 86400);
    let c2 = civil_date(epoch_secs(t2) / 86400);
    lemma_civil_date_ranges(epoch_secs(t1) / 86400);
    lemma_civil_date_ranges(epoch_secs(t2) / 86400);
    lemma_date_text_order(c1.0, c1.1, c1.2, c2.0, c2.1, c2.2);
}

impl DupeFile {
    pub fn size_str(&self) -> (s: String)
        ensures
            s@ == size_text(self.size as nat),
    {
        format_size(self.size)
    }

    pub fn modified_str(&self) -> (s: String)
        ensures
            s@ == (match self.modified {
                None => "Unknown"@,
                Some(t) => utc_date_text(t),
            }),
    {
        match self.modified {
            None => String::from_str("Unknown"),
            Some(t) => {
                let secs: u128 = if t >= 0 {
                    (t as u128) / 1_000_000_000
                } else {
                    0
                };
                let (y, m, d) = date_of_day(secs / 86400);
                let mut s = String::new();
                push_zero_padded(&mut s, y, 4);
                s.append("-");
                push_zero_padded(&mut s, m, 2);
                s.append("-");
                push_zero_padded(&mut s, d, 2);
                s
            },
        }
    }
}

/// One group of duplicate files.
#[derive(Debug, Clone)]
pub struct DuplicateGroup {
    pub id: usize,
    pub kind: MatchKind,
    /// How alike the files are (1 for byte-identical groups).
    pub similarity: Similarity,
    pub files: Vec<DupeFile>,
    /// Collapsed in the UI?
    pub collapsed: bool,
}

/// The time a file is ordered by when choosing which copy to keep: its
/// modification time, or the epoch when unknown.
pub open spec fn time_key(f: DupeFile) -> int {
    match f.modified {
        Some(t) => t as int,
        None => 0,
    }
}

/// Among the first `m` files, the index of the newest one; the last of equally new.
pub open spec fn newest_index(fs: Seq<DupeFile>, m: int) -> int
    decreases m,
{
    if m <= 1 {
        0
    } else {
        let p = newest_index(fs, m - 1);
        if time_key(fs[m - 1]) >= time_key(fs[p]) {
            m - 1
        } else {
            p
        }
    }
}

/// Among the first `m` files, the index of the oldest one; the first of equally old.
pub open spec fn oldest_index(fs: Seq<DupeFile>, m: int) -> int
    decreases m,
{
    if m <= 1 {
        0
    } else {
        let p = oldest_index(fs, m - 1);
        if time_key(fs[m - 1]) < time_key(fs[p]) {
            m - 1
        } else {
            p
        }
    }
}

/// The same file with another mark.
pub open spec fn with_mark(f: DupeFile, m: FileMark) -> DupeFile {
    DupeFile { mark: m, ..f }
}

/// How many of the files carry mark `m`.
pub open spec fn mark_count(fs: Seq<DupeFile>, m: FileMark) -> nat
    decreases fs.len(),
{
    if fs.len() == 0 {
        0
    } else {
        mark_count(fs.drop_last(), m) + (if fs.last().mark == m {
            1nat
        } else {
            0nat
        })
    }
}

/// Bytes that deleting all but one copy would free: the first file's size times the
/// number of other copies, saturating at `u64::MAX`.
pub open spec fn wasted(fs: Seq<DupeFile>) -> nat {
    if fs.len() <= 1 {
        0
    } else {
        let w = fs[0].size * (fs.len() - 1);
        if w > u64::MAX {
            u64::MAX as nat
        } else {
            w as nat
        }
    }
}

/// `g2` is `g1` with each file's mark replaced as `marks` says, nothing else changed.
pub open spec fn remarked(g1: DuplicateGroup, g2: DuplicateGroup, marks: spec_fn(int) -> FileMark) -> bool {
    &&& g2.id == g1.id
    &&& g2.kind == g1.kind
    &&& g2.similarity == g1.similarity
    &&& g2.collapsed == g1.collapsed
    &&& g2.files@.len() == g1.files@.len()
    &&& forall|k: int| 0 <= k < g1.files@.len() ==> g2.files@[k] == with_mark(g1.files@[k], marks(k))
}

impl DuplicateGroup {
    pub fn wasted_bytes(&self) -> (w: u64)
        ensures
            w == wasted(self.files@),
    {
        let size: u64 = if self.files.len() > 0 {
            self.files[0].size
        } else {
            0
        };
        let copies: u64 = (self.files.len() as u64).saturating_sub(1);
        assert(self.files@.len() >= 1 ==> copies == self.files@.len() - 1);
        assert(self.files@.len() <= 1 ==> size * copies == 0) by (nonlinear_arith)
            requires self.files@.len() <= 1 ==> (copies == 0 || size == 0);
        match size.checked_mul(copies) {
            Some(v) => v,
            None => u64::MAX,
        }
    }

    pub fn wasted_str(&self) -> (s: String)
        ensures
            s@ == size_text(wasted(self.files@)),
    {
        format_size(self.wasted_bytes())
    }

    fn count_marked(&self, m: FileMark) -> (c: usize)
        ensures
            c == mark_count(self.files@, m),
    {
        let mut c: usize = 0;
        let mut i: usize = 0;
        while i < self.files.len()
            invariant
                i <= self.files@.len(),
                c == mark_count(self.files@.take(i as int), m),
                c <= i,
            decreases self.files@.len() - i,
        {
            assert(self.files@.take(i + 1).drop_last() =~= self.files@.take(i as int));
            if self.files[i].mark == m {
                c = c + 1;
            }
            i = i + 1;
        }
        assert(self.files@.take(self.files@.len() as int) =~= self.files@);
        c
    }

    pub fn marked_delete_count(&self) -> (c: usize)
        ensures
            c == mark_count(self.files@, FileMark::Delete),
    {
        self.count_marked(FileMark::Delete)
    }

    pub fn marked_keep_count(&self) -> (c: usize)
        ensures
            c == mark_count(self.files@, FileMark::Keep),
    {
        self.count_marked(FileMark::Keep)
    }

    fn keep_only(&mut self, keep: usize)
        ensures
            remarked(
                *old(self),
                *final(self),
                |k: int|
                    if k == keep as int {
                        FileMark::Keep
                    } else {
                        FileMark::Delete
                    },
            ),
    {
        let ghost start = self.files@;
        let mut i: usize = 0;
        while i < self.files.len()
            invariant
                i <= self.files@.len(),
                self.files@.len() == start.len(),
                self.id == old(self).id,
                self.kind == old(self).kind,
                self.similarity == old(self).similarity,
                self.collapsed == old(self).collapsed,
                start == old(self).files@,
                forall|k: int|
                    0 <= k < i ==> self.files@[k] == with_mark(
                        start[k],
                        if k == keep as int {
                            FileMark::Keep
                        } else {
                            FileMark::Delete
                        },
                    ),
                forall|k: int| i <= k < start.len() ==> self.files@[k] == start[k],
            decreases start.len() - i,
        {
            let m = if i == keep {
                FileMark::Keep
            } else {
                FileMark::Delete
            };
            self.files[i].mark = m;
            i = i + 1;
        }
    }

    /// Marks the newest file (the last of equally new ones) Keep and all others Delete.
    pub fn auto_keep_newest(&mut self)
        ensures
            remarked(
                *old(self),
                *final(self),
                |k: int|
                    if k == newest_index(old(self).files@, old(self).files@.len() as int) {
                        FileMark::Keep
                    } else {
                        FileMark::Delete
                    },
            ),
    {
        let n = self.files.len();
        let mut best: usize = 0;
        if n > 0 {
            let mut i: usize = 1;
            while i < n
                invariant
                    n == self.files@.len(),
                    1 <= i <= n,
                    best == newest_index(self.files@, i as int),
                    best < i,
                decreases n - i,
            {
                let cur = match self.files[i].modified {
                    Some(t) => t,
                    None => 0,
                };
                let top = match self.files[best].modified {
                    Some(t) => t,
                    None => 0,
                };
                if cur >= top {
                    best = i;
                }
                i = i + 1;
            }
        }
        self.keep_only(best);
    }

    /// Marks the oldest file (the first of equally old ones) Keep and all others Delete.
    pub fn auto_keep_oldest(&mut self)
        ensures
            remarked(
                *old(self),
                *final(self),
                |k: int|
                    if k == oldest_index(old(self).files@, old(self).files@.len() as int) {
                        FileMark::Keep
                    } else {
                        FileMark::Delete
                    },
            ),
    {
        let n = self.files.len();
        let mut best: usize = 0;
        if n > 0 {
            let mut i: usize = 1;
            while i < n
                invariant
                    n == self.files@.len(),
                    1 <= i <= n,
                    best == oldest_index(self.files@, i as int),
                    best < i,
                decreases n - i,
            {
                let cur = match self.files[i].modified {
                    Some(t) => t,
                    None => 0,
                };
                let top = match self.files[best].modified {
                    Some(t) => t,
                    None => 0,
                };
                if cur < top {
                    best = i;
                }
                i = i + 1;
            }
        }
        self.keep_only(best);
    }

    /// Removes every mark of the group.
    pub fn clear_marks(&mut self)
        ensures
            remarked(*old(self), *final(self), |k: int| FileMark::Unmarked),
    {
        let ghost start = self.files@;
        let mut i: usize = 0;
        while i < self.files.len()
            invariant
                i <= self.files@.len(),
                self.files@.len() == start.len(),
                self.id == old(self).id,
                self.kind == old(self).kind,
                self.similarity == old(self).similarity,
                self.collapsed == old(self).collapsed,
                start == old(self).files@,
                forall|k: int| 0 <= k < i ==> self.files@[k] == with_mark(start[k], FileMark::Unmarked),
                forall|k: int| i <= k < start.len() ==> self.files@[k] == start[k],
            decreases start.len() - i,
        {
            self.files[i].mark = FileMark::Unmarked;
            i = i + 1;
        }
    }
}

// ── Building the groups ────────────────────────────────────────────────────

/// Index of the last of the first `m` entries whose path is `p`, or -1.
pub open spec fn last_entry_for(entries: Seq<FileEntry>, p: Seq<char>, m: int) -> int
    decreases m,
{
    if m <= 0 {
        -1
    } else if entries[m - 1].path@ == p {
        m - 1
    } else {
        last_entry_for(entries, p, m - 1)
    }
}

/// `f` is the unmarked record of path `p`: copied from the last scanned entry with
/// that path, or, for a path that was not scanned, size 0, no time, kind Other and the
/// path's own extension.
pub open spec fn describes(f: DupeFile, entries: Seq<FileEntry>, p: Seq<char>) -> bool {
    let i = last_entry_for(entries, p, entries.len() as int);
    &&& f.mark == FileMark::Unmarked
    &&& if i >= 0 {
        &&& f.path@ == entries[i].path@
        &&& f.size == entries[i].size
        &&& f.modified == entries[i].modified
        &&& f.extension@ == entries[i].extension@
        &&& f.kind == entries[i].kind
    } else {
        &&& f.path@ == p
        &&& f.size == 0
        &&& f.modified is None
        &&& f.extension@ == path_extension_of(p)
        &&& f.kind == FileKind::Other
    }
}

/// The scanned size of path `p` (0 when it was not scanned).
pub open spec fn scanned_size(entries: Seq<FileEntry>, p: Seq<char>) -> int {
    let i = last_entry_for(entries, p, entries.len() as int);
    if i >= 0 {
        entries[i].size as int
    } else {
        0
    }
}

/// `g` is the group numbered `id` of the given kind and similarity, holding the
/// records of `paths` in order, expanded.
pub open spec fn group_of(
    g: DuplicateGroup,
    id: int,
    kind: MatchKind,
    sim: Similarity,
    paths: Seq<String>,
    entries: Seq<FileEntry>,
) -> bool {
    &&& g.id == id
    &&& g.kind == kind
    &&& g.similarity == sim
    &&& !g.collapsed
    &&& g.files@.len() == paths.len()
    &&& forall|k: int| 0 <= k < paths.len() ==> describes(#[trigger] g.files@[k], entries, paths[k]@)
}

/// `perm` lists `0..keys.len()` by decreasing key, equal keys in their input order.
pub open spec fn decreasing_stable_order(keys: Seq<int>, perm: Seq<int>) -> bool {
    &&& perm.len() == keys.len()
    &&& forall|a: int| 0 <= a < perm.len() ==> 0 <= #[trigger] perm[a] < keys.len()
    &&& forall|a: int, b: int| 0 <= a < b < perm.len() ==> #[trigger] perm[a] != #[trigger] perm[b]
    &&& forall|a: int, b: int|
        0 <= a < b < perm.len() ==> keys[#[trigger] perm[a]] > keys[#[trigger] perm[b]] || (keys[perm[a]]
            == keys[perm[b]] && perm[a] < perm[b])
}

/// The size that orders exact groups: that of the group's first path.
pub open spec fn exact_group_sizes(entries: Seq<FileEntry>, exact: Seq<(FileHash, Vec<String>)>) -> Seq<int> {
    Seq::new(
        exact.len(),
        |g: int|
            if exact[g].1@.len() > 0 {
                scanned_size(entries, exact[g].1@[0]@)
            } else {
                0
            },
    )
}

fn order_by_size_desc(keys: &Vec<u64>) -> (perm: Vec<usize>)
    ensures
        decreasing_stable_order(keys@.map_values(|k: u64| k as int), perm@.map_values(|i: usize| i as int)),
{
    let ghost ks = keys@.map_values(|k: u64| k as int);
    let mut perm: Vec<usize> = Vec::new();
    let mut i: usize = 0;
    while i < keys.len()
        invariant
            i <= keys@.len(),
            ks == keys@.map_values(|k: u64| k as int),
            perm@.len() == i,
            forall|a: int| 0 <= a < perm@.len() ==> (#[trigger] perm@[a]) < i,
            forall|a: int, b: int| 0 <= a < b < perm@.len() ==> #[trigger] perm@[a] != #[trigger] perm@[b],
            forall|a: int, b: int|
                0 <= a < b < perm@.len() ==> keys@[#[trigger] perm@[a] as int] > keys@[#[trigger] perm@[b] as int]
                    || (keys@[perm@[a] as int] == keys@[perm@[b] as int] && perm@[a] < perm@[b]),
        decreases keys@.len() - i,
    {
        let key = keys[i];
        let mut p: usize = 0;
        while p < perm.len() && keys[perm[p]] >= key
            invariant
                p <= perm@.len(),
                i < keys@.len(),
                key == keys@[i as int],
                forall|a: int| 0 <= a < perm@.len() ==> (#[trigger] perm@[a]) < i,
                forall|a: int| 0 <= a < p ==> keys@[#[trigger] perm@[a] as int] >= key,
            decreases perm@.len() - p,
        {
            p = p + 1;
        }
        let ghost old_perm = perm@;
        proof {
            // everything from p on has a smaller key
            assert forall|b: int| p <= b < old_perm.len() implies keys@[#[trigger] old_perm[b] as int]
                < key by {
                if b > p {
                    assert(keys@[old_perm[p as int] as int] > keys@[old_perm[b] as int] || keys@[old_perm[p as int] as int] == keys@[old_perm[b] as int]);
                }
            }
        }
        perm.insert(p, i);
        proof {
            assert forall|a: int| 0 <= a < perm@.len() implies (#[trigger] perm@[a]) < i + 1 by {
                if a < p {
                    assert(perm@[a] == old_perm[a]);
                } else if a > p {
                    assert(perm@[a] == old_perm[a - 1]);
                }
            }
            assert forall|a: int, b: int| 0 <= a < b < perm@.len() implies #[trigger] perm@[a]
                != #[trigger] perm@[b] by {
                if a < p {
                    assert(perm@[a] == old_perm[a]);
                } else if a > p {
                    assert(perm@[a] == old_perm[a - 1]);
                }
                if b < p {
                    assert(perm@[b] == old_perm[b]);
                } else if b > p {
                    assert(perm@[b] == old_perm[b - 1]);
                }
            }
            assert forall|a: int, b: int| 0 <= a < b < perm@.len() implies keys@[#[trigger] perm@[a] as int]
                > keys@[#[trigger] perm@[b] as int] || (keys@[perm@[a] as int] == keys@[perm@[b] as int]
                && perm@[a] < perm@[b]) by {
                if a < p {
                    assert(perm@[a] == old_perm[a]);
                } else if a > p {
                    assert(perm@[a] == old_perm[a - 1]);
                }
                if b < p {
                    assert(perm@[b] == old_perm[b]);
                } else if b > p {
                    assert(perm@[b] == old_perm[b - 1]);
                }
            }
        }
        i = i + 1;
    }
    proof {
        let pm = perm@.map_values(|i: usize| i as int);
        assert(decreasing_stable_order(ks, pm));
    }
    perm
}

/// The key a path is indexed by: the XXH3 hash of its UTF-8 bytes.
pub open spec fn path_key(p: Seq<char>) -> u128 {
    xxh3_digest_of(encode_utf8(p))
}

fn path_key_exec(p: &str) -> (k: u128)
    ensures
        k == path_key(p@),
{
    let mut h = ContentHasher::new();
    let bytes = p.as_bytes();
    h.update(bytes);
    assert(h@ =~= encode_utf8(p@));
    h.finish().0
}

/// Indices of the first `m` entries whose path has key `k`, in order.
pub open spec fn key_positions(entries: Seq<FileEntry>, k: u128, m: int) -> Seq<int>
    decreases m,
{
    if m <= 0 {
        seq![]
    } else {
        let prev = key_positions(entries, k, m - 1);
        if path_key(entries[m - 1].path@) == k {
            prev.push(m - 1)
        } else {
            prev
        }
    }
}

/// Scanning `idxs[..l]` from the end, the first entry whose path is `p`, or -1.
pub open spec fn last_match_in(entries: Seq<FileEntry>, p: Seq<char>, idxs: Seq<int>, l: int) -> int
    decreases l,
{
    if l <= 0 {
        -1
    } else if entries[idxs[l - 1]].path@ == p {
        idxs[l - 1]
    } else {
        last_match_in(entries, p, idxs, l - 1)
    }
}

proof fn lemma_last_match_prefix(entries: Seq<FileEntry>, p: Seq<char>, idxs: Seq<int>, l: int)
    requires
        0 <= l <= idxs.len(),
    ensures
        last_match_in(entries, p, idxs, l) == last_match_in(entries, p, idxs.take(l), l),
    decreases l,
{
    if l > 0 {
        lemma_last_match_prefix(entries, p, idxs, l - 1);
        lemma_last_match_prefix(entries, p, idxs.take(l), l - 1);
        assert(idxs.take(l).take(l - 1) =~= idxs.take(l - 1));
    }
}

proof fn lemma_last_entry_via_keys(entries: Seq<FileEntry>, p: Seq<char>, m: int)
    requires
        0 <= m <= entries.len(),
    ensures
        last_entry_for(entries, p, m) == last_match_in(
            entries,
            p,
            key_positions(entries, path_key(p), m),
            key_positions(entries, path_key(p), m).len() as int,
        ),
    decreases m,
{
    if m > 0 {
        lemma_last_entry_via_keys(entries, p, m - 1);
        let prev = key_positions(entries, path_key(p), m - 1);
        let cur = key_positions(entries, path_key(p), m);
        if path_key(entries[m - 1].path@) == path_key(p) {
            assert(cur == prev.push(m - 1));
            lemma_last_match_prefix(entries, p, cur, prev.len() as int);
            assert(cur.take(prev.len() as int) =~= prev);
        }
    }
}

/// `index` maps each key to the indices of the entries whose path has that key.
pub open spec fn path_index_ok(index: Map<u128, Vec<usize>>, entries: Seq<FileEntry>) -> bool {
    &&& forall|k: u128| #[trigger] index.contains_key(k) ==> same_indices(index[k]@, key_positions(entries, k, entries.len() as int))
    &&& forall|k: u128| !(#[trigger] index.contains_key(k)) ==> key_positions(entries, k, entries.len() as int).len() == 0
}

proof fn lemma_key_positions_range(entries: Seq<FileEntry>, k: u128, m: int)
    requires
        0 <= m <= entries.len(),
    ensures
        forall|a: int| 0 <= a < key_positions(entries, k, m).len() ==> 0 <= #[trigger] key_positions(entries, k, m)[a] < m,
    decreases m,
{
    if m > 0 {
        lemma_key_positions_range(entries, k, m - 1);
        let prev = key_positions(entries, k, m - 1);
        let cur = key_positions(entries, k, m);
        assert forall|a: int| 0 <= a < cur.len() implies 0 <= #[trigger] cur[a] < m by {
            if a < prev.len() {
                assert(cur[a] == prev[a]);
            }
        }
    }
}

fn index_paths(entries: &Vec<FileEntry>) -> (index: HashMap<u128, Vec<usize>>)
    ensures
        path_index_ok(index@, entries@),
{
    broadcast use vstd::std_specs::hash::group_hash_axioms;
    let mut index: HashMap<u128, Vec<usize>> = HashMap::new();
    let mut i: usize = 0;
    while i < entries.len()
        invariant
            i <= entries@.len(),
            forall|k: u128| #[trigger] index@.contains_key(k) ==> same_indices(index@[k]@, key_positions(entries@, k, i as int)),
            forall|k: u128| !(#[trigger] index@.contains_key(k)) ==> key_positions(entries@, k, i as int).len() == 0,
        decreases entries@.len() - i,
    {
        let key = path_key_exec(entries[i].path.as_str());
        let ghost old_index = index@;
        let mut bucket: Vec<usize> = match index.remove(&key) {
            Some(v) => v,
            None => Vec::new(),
        };
        let ghost old_bucket = bucket@;
        bucket.push(i);
        index.insert(key, bucket);
        proof {
            assert forall|k: u128| #[trigger] index@.contains_key(k) implies same_indices(index@[k]@, key_positions(entries@, k, i + 1)) by {
                if k == key {
                    assert(key_positions(entries@, k, i + 1) == key_positions(entries@, k, i as int).push(i as int));
                    if old_index.contains_key(k) {
                        assert(same_indices(old_bucket, key_positions(entries@, k, i as int)));
                    } else {
                        assert(old_bucket.len() == 0);
                    }
                } else {
                    assert(old_index.contains_key(k));
                    assert(index@[k] == old_index[k]);
                }
            }
        }
        i = i + 1;
    }
    index
}

fn record_for(index: &HashMap<u128, Vec<usize>>, entries: &Vec<FileEntry>, path: &String) -> (f: DupeFile)
    requires
        path_index_ok(index@, entries@),
    ensures
        describes(f, entries@, path@),
{
    broadcast use vstd::std_specs::hash::group_hash_axioms;
    let key = path_key_exec(path.as_str());
    let ghost kp = key_positions(entries@, key, entries@.len() as int);
    proof {
        lemma_last_entry_via_keys(entries@, path@, entries@.len() as int);
        lemma_key_positions_range(entries@, key, entries@.len() as int);
    }
    match index.get(&key) {
        Some(bucket) => {
            assert(same_indices(bucket@, kp));
            let mut j: usize = bucket.len();
            while j > 0
                invariant
                    j <= bucket@.len(),
                    same_indices(bucket@, kp),
                    forall|a: int| 0 <= a < kp.len() ==> 0 <= #[trigger] kp[a] < entries@.len(),
                    last_entry_for(entries@, path@, entries@.len() as int) == last_match_in(entries@, path@, kp, j as int),
                decreases j,
            {
                let i = bucket[j - 1];
                assert(i as int == kp[j - 1]);
                if entries[i].path == *path {
                    let e = &entries[i];
                    return DupeFile {
                        path: e.path.clone(),
                        size: e.size,
                        modified: e.modified,
                        extension: e.extension.clone(),
                        kind: e.kind,
                        mark: FileMark::Unmarked,
                    };
                }
                j = j - 1;
            }
        },
        None => {
            assert(kp.len() == 0);
        },
    }
    DupeFile {
        path: path.clone(),
        size: 0,
        modified: None,
        extension: path_extension(path.as_str()),
        kind: FileKind::Other,
        mark: FileMark::Unmarked,
    }
}

fn scanned_size_exec(index: &HashMap<u128, Vec<usize>>, entries: &Vec<FileEntry>, path: &String) -> (s: u64)
    requires
        path_index_ok(index@, entries@),
    ensures
        s as int == scanned_size(entries@, path@),
{
    let f = record_for(index, entries, path);
    f.size
}

fn records_for(index: &HashMap<u128, Vec<usize>>, entries: &Vec<FileEntry>, paths: &Vec<String>) -> (files: Vec<DupeFile>)
    requires
        path_index_ok(index@, entries@),
    ensures
        files@.len() == paths@.len(),
        forall|k: int| 0 <= k < paths@.len() ==> describes(#[trigger] files@[k], entries@, paths@[k]@),
{
    let mut files: Vec<DupeFile> = Vec::new();
    let mut k: usize = 0;
    while k < paths.len()
        invariant
            path_index_ok(index@, entries@),
            k <= paths@.len(),
            files@.len() == k,
            forall|a: int| 0 <= a < k ==> describes(#[trigger] files@[a], entries@, paths@[a]@),
        decreases paths@.len() - k,
    {
        files.push(record_for(index, entries, &paths[k]));
        k = k + 1;
    }
    files
}

fn push_perceptual(
    groups: &mut Vec<DuplicateGroup>,
    index: &HashMap<u128, Vec<usize>>,
    entries: &Vec<FileEntry>,
    found: &Vec<(Vec<String>, Similarity)>,
    kind: MatchKind,
)
    requires
        old(groups)@.len() + found@.len() <= usize::MAX,
        path_index_ok(index@, entries@),
    ensures
        final(groups)@.len() == old(groups)@.len() + found@.len(),
        forall|k: int| 0 <= k < old(groups)@.len() ==> final(groups)@[k] == old(groups)@[k],
        forall|k: int|
            0 <= k < found@.len() ==> group_of(
                #[trigger] final(groups)@[old(groups)@.len() + k],
                old(groups)@.len() + k,
                kind,
                found@[k].1,
                found@[k].0@,
                entries@,
            ),
{
    let ghost start = groups@;
    let mut k: usize = 0;
    while k < found.len()
        invariant
            k <= found@.len(),
            start == old(groups)@,
            start.len() + found@.len() <= usize::MAX,
            path_index_ok(index@, entries@),
            groups@.len() == start.len() + k,
            forall|a: int| 0 <= a < start.len() ==> groups@[a] == start[a],
            forall|a: int|
                0 <= a < k ==> group_of(
                    #[trigger] groups@[start.len() + a],
                    start.len() + a,
                    kind,
                    found@[a].1,
                    found@[a].0@,
                    entries@,
                ),
        decreases found@.len() - k,
    {
        let id = groups.len();
        let files = records_for(index, entries, &found[k].0);
        groups.push(DuplicateGroup { id, kind, similarity: found[k].1, files, collapsed: false });
        proof {
            assert(groups@[start.len() + k as int].id == id);
        }
        k = k + 1;
    }
}

/// Builds the list of duplicate groups: exact groups first, largest files first
/// (equal sizes keep their order), then perceptual image groups, then perceptual
/// video groups, numbered from 0 in that order, every file unmarked.
pub fn build_groups(
    entries: &Vec<FileEntry>,
    exact_groups: Vec<(FileHash, Vec<String>)>,
    perceptual_image_groups: Vec<(Vec<String>, Similarity)>,
    perceptual_video_groups: Vec<(Vec<String>, Similarity)>,
) -> (r: Vec<DuplicateGroup>)
    requires
        exact_groups@.len() >= 2 ==> forall|g: int|
            0 <= g < exact_groups@.len() ==> (#[trigger] exact_groups@[g]).1@.len() > 0,
        exact_groups@.len() + perceptual_image_groups@.len() + perceptual_video_groups@.len()
            <= usize::MAX,
    ensures
        r@.len() == exact_groups@.len() + perceptual_image_groups@.len()
            + perceptual_video_groups@.len(),
        exists|perm: Seq<int>|
            {
                &&& decreasing_stable_order(exact_group_sizes(entries@, exact_groups@), perm)
                &&& forall|k: int|
                    0 <= k < exact_groups@.len() ==> group_of(
                        #[trigger] r@[k],
                        k,
                        MatchKind::ExactHash,
                        Similarity { score: 0, pairs: 0 },
                        exact_groups@[perm[k]].1@,
                        entries@,
                    )
            },
        forall|k: int|
            0 <= k < perceptual_image_groups@.len() ==> group_of(
                #[trigger] r@[exact_groups@.len() + k],
                exact_groups@.len() + k,
                MatchKind::PerceptualImage,
                perceptual_image_groups@[k].1,
                perceptual_image_groups@[k].0@,
                entries@,
            ),
        forall|k: int|
            0 <= k < perceptual_video_groups@.len() ==> group_of(
                #[trigger] r@[exact_groups@.len() + perceptual_image_groups@.len() + k],
                exact_groups@.len() + perceptual_image_groups@.len() + k,
                MatchKind::PerceptualVideo,
                perceptual_video_groups@[k].1,
                perceptual_video_groups@[k].0@,
                entries@,
            ),
{
    let ghost sizes = exact_group_sizes(entries@, exact_groups@);
    let index = index_paths(entries);
    let ne = exact_groups.len();
    let mut keys: Vec<u64> = Vec::new();
    let mut g: usize = 0;
    while g < ne
        invariant
            ne == exact_groups@.len(),
            g <= ne,
            keys@.len() == g,
            sizes == exact_group_sizes(entries@, exact_groups@),
            path_index_ok(index@, entries@),
            forall|a: int| 0 <= a < g ==> (#[trigger] keys@[a]) as int == sizes[a],
        decreases ne - g,
    {
        let key: u64 = if exact_groups[g].1.len() > 0 {
            scanned_size_exec(&index, entries, &exact_groups[g].1[0])
        } else {
            0
        };
        keys.push(key);
        g = g + 1;
    }
    assert(keys@.map_values(|k: u64| k as int) =~= sizes);
    let perm = order_by_size_desc(&keys);
    let ghost pm = perm@.map_values(|i: usize| i as int);
    assert(perm@.len() == pm.len());
    let mut groups: Vec<DuplicateGroup> = Vec::new();
    let mut k: usize = 0;
    while k < ne
        invariant
            ne == exact_groups@.len(),
            k <= ne,
            decreasing_stable_order(sizes, pm),
            pm == perm@.map_values(|i: usize| i as int),
            perm@.len() == ne,
            sizes.len() == ne,
            path_index_ok(index@, entries@),
            groups@.len() == k,
            forall|a: int|
                0 <= a < k ==> group_of(
                    #[trigger] groups@[a],
                    a,
                    MatchKind::ExactHash,
                    Similarity { score: 0, pairs: 0 },
                    exact_groups@[pm[a]].1@,
                    entries@,
                ),
        decreases ne - k,
    {
        let idx = perm[k];
        assert(pm[k as int] == idx as int);
        assert(0 <= pm[k as int] < sizes.len());
        let files = records_for(&index, entries, &exact_groups[idx].1);
        groups.push(
            DuplicateGroup {
                id: k,
                kind: MatchKind::ExactHash,
                similarity: Similarity::identical(),
                files,
                collapsed: false,
            },
        );
        k = k + 1;
    }
    let ghost exact_part = groups@;
    push_perceptual(&mut groups, &index, entries, &perceptual_image_groups, MatchKind::PerceptualImage);
    let ghost image_part = groups@;
    push_perceptual(&mut groups, &index, entries, &perceptual_video_groups, MatchKind::PerceptualVideo);
    proof {
        assert forall|k: int| 0 <= k < exact_groups@.len() implies group_of(
            #[trigger] groups@[k],
            k,
            MatchKind::ExactHash,
            Similarity { score: 0, pairs: 0 },
            exact_groups@[pm[k]].1@,
            entries@,
        ) by {
            assert(groups@[k] == image_part[k]);
            assert(image_part[k] == exact_part[k]);
        }
        assert forall|k: int| 0 <= k < perceptual_image_groups@.len() implies group_of(
            #[trigger] groups@[exact_groups@.len() + k],
            exact_groups@.len() + k,
            MatchKind::PerceptualImage,
            perceptual_image_groups@[k].1,
            perceptual_image_groups@[k].0@,
            entries@,
        ) by {
            assert(groups@[exact_groups@.len() + k] == image_part[exact_groups@.len() + k]);
        }
    }
    groups
}

// ── Summary statistics ─────────────────────────────────────────────────────

/// Sum of the wasted bytes of the groups.
pub open spec fn total_wasted(gs: Seq<DuplicateGroup>) -> nat
    decreases gs.len(),
{
    if gs.len() == 0 {
        0
    } else {
        total_wasted(gs.drop_last()) + wasted(gs.last().files@)
    }
}

/// Number of files marked Delete across the groups.
pub open spec fn delete_count(gs: Seq<DuplicateGroup>) -> nat
    decreases gs.len(),
{
    if gs.len() == 0 {
        0
    } else {
        delete_count(gs.drop_last()) + mark_count(gs.last().files@, FileMark::Delete)
    }
}

/// Total size of the files marked Delete.
pub open spec fn delete_bytes_in(fs: Seq<DupeFile>) -> nat
    decreases fs.len(),
{
    if fs.len() == 0 {
        0
    } else {
        delete_bytes_in(fs.drop_last()) + (if fs.last().mark == FileMark::Delete {
            fs.last().size as nat
        } else {
            0
        })
    }
}

/// Total size of the files marked Delete across the groups.
pub open spec fn delete_bytes(gs: Seq<DuplicateGroup>) -> nat
    decreases gs.len(),
{
    if gs.len() == 0 {
        0
    } else {
        delete_bytes(gs.drop_last()) + delete_bytes_in(gs.last().files@)
    }
}

/// The sums of a summary fit their integer types.
pub open spec fn stats_fit(gs: Seq<DuplicateGroup>) -> bool {
    &&& total_wasted(gs) <= u64::MAX
    &&& delete_bytes(gs) <= u64::MAX
    &&& delete_count(gs) <= usize::MAX
}

proof fn lemma_sums_monotone(gs: Seq<DuplicateGroup>, i: int)
    requires
        0 <= i <= gs.len(),
    ensures
        total_wasted(gs.take(i)) <= total_wasted(gs),
        delete_bytes(gs.take(i)) <= delete_bytes(gs),
        delete_count(gs.take(i)) <= delete_count(gs),
    decreases gs.len() - i,
{
    if i < gs.len() {
        lemma_sums_monotone(gs, i + 1);
        assert(gs.take(i + 1).drop_last() =~= gs.take(i));
    } else {
        assert(gs.take(i) =~= gs);
    }
}

proof fn lemma_file_sums_monotone(fs: Seq<DupeFile>, i: int)
    requires
        0 <= i <= fs.len(),
    ensures
        delete_bytes_in(fs.take(i)) <= delete_bytes_in(fs),
        mark_count(fs.take(i), FileMark::Delete) <= mark_count(fs, FileMark::Delete),
    decreases fs.len() - i,
{
    if i < fs.len() {
        lemma_file_sums_monotone(fs, i + 1);
        assert(fs.take(i + 1).drop_last() =~= fs.take(i));
    } else {
        assert(fs.take(i) =~= fs);
    }
}

/// Summary stats for the results panel header.
pub struct ScanStats {
    pub files_scanned: usize,
    pub groups_found: usize,
    pub total_wasted: u64,
    pub marked_delete_count: usize,
    pub marked_delete_bytes: u64,
}

impl ScanStats {
    /// Whether the summary of these groups fits its integer fields.
    pub fn fits(groups: &Vec<DuplicateGroup>) -> (b: bool)
        ensures
            b == stats_fit(groups@),
    {
        let mut wasted_sum: u128 = 0;
        let mut bytes_sum: u128 = 0;
        let mut count_sum: u128 = 0;
        let mut i: usize = 0;
        while i < groups.len()
            invariant
                i <= groups@.len(),
                wasted_sum == total_wasted(groups@.take(i as int)),
                bytes_sum == delete_bytes(groups@.take(i as int)),
                count_sum == delete_count(groups@.take(i as int)),
                wasted_sum <= u64::MAX,
                bytes_sum <= u64::MAX,
                count_sum <= usize::MAX,
            decreases groups@.len() - i,
        {
            assert(groups@.take(i + 1).drop_last() =~= groups@.take(i as int));
            let g = &groups[i];
            let (b, c) = delete_sums(g);
            let fl = g.files.len();
            assert(b <= 0xFFFF_FFFF_FFFF_FFFFu128 * 0xFFFF_FFFF_FFFF_FFFFu128) by (nonlinear_arith)
                requires b <= u64::MAX * fl, fl <= 0xFFFF_FFFF_FFFF_FFFFu128;
            wasted_sum = wasted_sum + g.wasted_bytes() as u128;
            bytes_sum = bytes_sum + b;
            count_sum = count_sum + c;
            if wasted_sum > u64::MAX as u128 || bytes_sum > u64::MAX as u128 || count_sum
                > usize::MAX as u128 {
                proof {
                    lemma_sums_monotone(groups@, i + 1);
                }
                return false;
            }
            i = i + 1;
        }
        assert(groups@.take(groups@.len() as int) =~= groups@);
        true
    }

    /// Summarises the groups: how many there are, the bytes that removing duplicates
    /// would free, and how many files (and bytes) are marked Delete.
    pub fn from_groups(scanned: usize, groups: &Vec<DuplicateGroup>) -> (s: ScanStats)
        requires
            stats_fit(groups@),
        ensures
            s.files_scanned == scanned,
            s.groups_found == groups@.len(),
            s.total_wasted == total_wasted(groups@),
            s.marked_delete_count == delete_count(groups@),
            s.marked_delete_bytes == delete_bytes(groups@),
    {
        let mut wasted_sum: u64 = 0;
        let mut bytes_sum: u64 = 0;
        let mut count_sum: usize = 0;
        let mut i: usize = 0;
        while i < groups.len()
            invariant
                i <= groups@.len(),
                stats_fit(groups@),
                wasted_sum == total_wasted(groups@.take(i as int)),
                bytes_sum == delete_bytes(groups@.take(i as int)),
                count_sum == delete_count(groups@.take(i as int)),
            decreases groups@.len() - i,
        {
            assert(groups@.take(i + 1).drop_last() =~= groups@.take(i as int));
            proof {
                lemma_sums_monotone(groups@, i + 1);
            }
            let g = &groups[i];
            let (b, c) = delete_sums(g);
            wasted_sum = wasted_sum + g.wasted_bytes();
            bytes_sum = bytes_sum + b as u64;
            count_sum = count_sum + c as usize;
            i = i + 1;
        }
        assert(groups@.take(groups@.len() as int) =~= groups@);
        ScanStats {
            files_scanned: scanned,
            groups_found: groups.len(),
            total_wasted: wasted_sum,
            marked_delete_count: count_sum,
            marked_delete_bytes: bytes_sum,
        }
    }
}

/// Bytes and count of the group's files marked Delete.
fn delete_sums(g: &DuplicateGroup) -> (r: (u128, u128))
    ensures
        r.0 == delete_bytes_in(g.files@),
        r.1 == mark_count(g.files@, FileMark::Delete),
        r.0 <= u64::MAX * g.files@.len(),
        r.1 <= g.files@.len(),
{
    let mut bytes: u128 = 0;
    let mut count: u128 = 0;
    let mut i: usize = 0;
    while i < g.files.len()
        invariant
            i <= g.files@.len(),
            bytes == delete_bytes_in(g.files@.take(i as int)),
            count == mark_count(g.files@.take(i as int), FileMark::Delete),
            bytes <= u64::MAX * i,
            count <= i,
        decreases g.files@.len() - i,
    {
        assert(g.files@.take(i + 1).drop_last() =~= g.files@.take(i as int));
        if g.files[i].mark == FileMark::Delete {
            bytes = bytes + g.files[i].size as u128;
            count = count + 1;
        }
        i = i + 1;
    }
    assert(g.files@.take(g.files@.len() as int) =~= g.files@);
    (bytes, count)
}

// ── Laws of marking ────────────────────────────────────────────────────────

proof fn lemma_newest_index(fs: Seq<DupeFile>, m: int)
    requires
        1 <= m <= fs.len(),
    ensures
        0 <= newest_index(fs, m) < m,
        forall|k: int| 0 <= k < m ==> time_key(#[trigger] fs[k]) <= time_key(fs[newest_index(fs, m)]),
        forall|k: int|
            newest_index(fs, m) < k < m ==> time_key(#[trigger] fs[k]) < time_key(
                fs[newest_index(fs, m)],
            ),
    decreases m,
{
    if m > 1 {
        lemma_newest_index(fs, m - 1);
    }
}

proof fn lemma_oldest_index(fs: Seq<DupeFile>, m: int)
    requires
        1 <= m <= fs.len(),
    ensures
        0 <= oldest_index(fs, m) < m,
        forall|k: int| 0 <= k < m ==> time_key(fs[oldest_index(fs, m)]) <= time_key(#[trigger] fs[k]),
        forall|k: int|
            0 <= k < oldest_index(fs, m) ==> time_key(fs[oldest_index(fs, m)]) < time_key(
                #[trigger] fs[k],
            ),
    decreases m,
{
    if m > 1 {
        lemma_oldest_index(fs, m - 1);
    }
}

proof fn lemma_count_one_marked(fs: Seq<DupeFile>, idx: int, a: FileMark, b: FileMark)
    requires
        a != b,
        forall|k: int| 0 <= k < fs.len() ==> (#[trigger] fs[k]).mark == (if k == idx { a } else { b }),
    ensures
        mark_count(fs, a) == (if 0 <= idx < fs.len() { 1nat } else { 0nat }),
        mark_count(fs, b) == fs.len() - (if 0 <= idx < fs.len() { 1nat } else { 0nat }),
    decreases fs.len(),
{
    if fs.len() > 0 {
        let p = fs.drop_last();
        assert forall|k: int| 0 <= k < p.len() implies (#[trigger] p[k]).mark == (if k == idx {
            a
        } else {
            b
        }) by {
            assert(p[k] == fs[k]);
        }
        lemma_count_one_marked(p, idx, a, b);
        assert(fs.last() == fs[fs.len() - 1]);
    }
}

proof fn lemma_count_all_marked(fs: Seq<DupeFile>, a: FileMark, b: FileMark)
    requires
        a != b,
        forall|k: int| 0 <= k < fs.len() ==> (#[trigger] fs[k]).mark == a,
    ensures
        mark_count(fs, a) == fs.len(),
        mark_count(fs, b) == 0,
    decreases fs.len(),
{
    if fs.len() > 0 {
        let p = fs.drop_last();
        assert forall|k: int| 0 <= k < p.len() implies (#[trigger] p[k]).mark == a by {
            assert(p[k] == fs[k]);
        }
        lemma_count_all_marked(p, a, b);
        assert(fs.last() == fs[fs.len() - 1]);
    }
}

/// Keeping the newest file of a non-empty group leaves exactly one file marked Keep
/// and every other one marked Delete; no file is newer than the kept one, and every
/// file after it in the group is strictly older.
pub proof fn law_keep_newest(g1: DuplicateGroup, g2: DuplicateGroup)
    requires
        g1.files@.len() > 0,
        remarked(
            g1,
            g2,
            |k: int|
                if k == newest_index(g1.files@, g1.files@.len() as int) {
                    FileMark::Keep
                } else {
                    FileMark::Delete
                },
        ),
    ensures
        mark_count(g2.files@, FileMark::Keep) == 1,
        mark_count(g2.files@, FileMark::Delete) == g2.files@.len() - 1,
        ({
            let kept = newest_index(g1.files@, g1.files@.len() as int);
            &&& 0 <= kept < g2.files@.len()
            &&& g2.files@[kept].mark == FileMark::Keep
            &&& forall|k: int|
                0 <= k < g2.files@.len() ==> time_key(#[trigger] g2.files@[k]) <= time_key(
                    g2.files@[kept],
                )
            &&& forall|k: int|
                kept < k < g2.files@.len() ==> time_key(#[trigger] g2.files@[k]) < time_key(
                    g2.files@[kept],
                )
        }),
{
    let fs = g1.files@;
    let n = fs.len() as int;
    let kept = newest_index(fs, n);
    lemma_newest_index(fs, n);
    assert forall|k: int| 0 <= k < n implies (#[trigger] g2.files@[k]).mark == (if k == kept {
        FileMark::Keep
    } else {
        FileMark::Delete
    }) && time_key(g2.files@[k]) == time_key(fs[k]) by {
        assert(g2.files@[k] == with_mark(fs[k], if k == kept { FileMark::Keep } else { FileMark::Delete }));
    }
    lemma_count_one_marked(g2.files@, kept, FileMark::Keep, FileMark::Delete);
}

/// Keeping the oldest file of a non-empty group leaves exactly one file marked Keep
/// and every other one marked Delete; no file is older than the kept one, and every
/// file before it in the group is strictly newer.
pub proof fn law_keep_oldest(g1: DuplicateGroup, g2: DuplicateGroup)
    requires
        g1.files@.len() > 0,
        remarked(
            g1,
            g2,
            |k: int|
                if k == oldest_index(g1.files@, g1.files@.len() as int) {
                    FileMark::Keep
                } else {
                    FileMark::Delete
                },
        ),
    ensures
        mark_count(g2.files@, FileMark::Keep) == 1,
        mark_count(g2.files@, FileMark::Delete) == g2.files@.len() - 1,
        ({
            let kept = oldest_index(g1.files@, g1.files@.len() as int);
            &&& 0 <= kept < g2.files@.len()
            &&& g2.files@[kept].mark == FileMark::Keep
            &&& forall|k: int|
                0 <= k < g2.files@.len() ==> time_key(g2.files@[kept]) <= time_key(
                    #[trigger] g2.files@[k],
                )
            &&& forall|k: int|
                0 <= k < kept ==> time_key(g2.files@[kept]) < time_key(#[trigger] g2.files@[k])
        }),
{
    let fs = g1.files@;
    let n = fs.len() as int;
    let kept = oldest_index(fs, n);
    lemma_oldest_index(fs, n);
    assert forall|k: int| 0 <= k < n implies (#[trigger] g2.files@[k]).mark == (if k == kept {
        FileMark::Keep
    } else {
        FileMark::Delete
    }) && time_key(g2.files@[k]) == time_key(fs[k]) by {
        assert(g2.files@[k] == with_mark(fs[k], if k == kept { FileMark::Keep } else { FileMark::Delete }));
    }
    lemma_count_one_marked(g2.files@, kept, FileMark::Keep, FileMark::Delete);
}

/// After clearing, no file of the group is marked Keep or Delete.
pub proof fn law_clear_marks(g1: DuplicateGroup, g2: DuplicateGroup)
    requires
        remarked(g1, g2, |k: int| FileMark::Unmarked),
    ensures
        mark_count(g2.files@, FileMark::Keep) == 0,
        mark_count(g2.files@, FileMark::Delete) == 0,
        mark_count(g2.files@, FileMark::Unmarked) == g2.files@.len(),
{
    assert forall|k: int| 0 <= k < g2.files@.len() implies (#[trigger] g2.files@[k]).mark
        == FileMark::Unmarked by {
        assert(g2.files@[k] == with_mark(g1.files@[k], FileMark::Unmarked));
    }
    lemma_count_all_marked(g2.files@, FileMark::Unmarked, FileMark::Keep);
    lemma_count_all_marked(g2.files@, FileMark::Unmarked, FileMark::Delete);
}

/// Marking never changes which file counts as newest or oldest, so repeating
/// "keep newest" (or "keep oldest") changes nothing more.
pub proof fn law_marks_do_not_move_choice(fs1: Seq<DupeFile>, fs2: Seq<DupeFile>, m: int)
    requires
        fs1.len() == fs2.len(),
        forall|k: int| 0 <= k < fs1.len() ==> time_key(#[trigger] fs1[k]) == time_key(fs2[k]),
        m <= fs1.len(),
    ensures
        newest_index(fs1, m) == newest_index(fs2, m),
        oldest_index(fs1, m) == oldest_index(fs2, m),
    decreases m,
{
    if m > 1 {
        law_marks_do_not_move_choice(fs1, fs2, m - 1);
        let p = newest_index(fs1, m - 1);
        let q = oldest_index(fs1, m - 1);
        if 1 <= m - 1 {
            lemma_newest_index(fs1, m - 1);
            lemma_oldest_index(fs1, m - 1);
        }
        assert(time_key(fs1[m - 1]) == time_key(fs2[m - 1]));
        assert(time_key(fs1[p]) == time_key(fs2[p]));
        assert(time_key(fs1[q]) == time_key(fs2[q]));
    }
}

} // verus!
