//! What a scan collects about each file: its kind by extension, the choices that
//! decide which walked entries are kept, and human-readable sizes.

use vstd::prelude::*;
use vstd::arithmetic::power2::pow2;
use crate::text::{decimal, push_decimal, same_text};

verus! {

/// Broad class of a file, decided by its extension.
#[derive(Debug, Clone, Copy, PartialEq, Eq, Structural)]
pub enum FileKind {
    Image,
    Video,
    Other,
}

/// Lowercased extensions that name still images.
pub open spec fn is_image_ext(e: Seq<char>) -> bool {
    ||| e == "jpg"@
    ||| e == "jpeg"@
    ||| e == "png"@
    ||| e == "gif"@
    ||| e == "webp"@
    ||| e == "bmp"@
    ||| e == "tiff"@
    ||| e == "tif"@
    ||| e == "ico"@
    ||| e == "heic"@
    ||| e == "heif"@
    ||| e == "avif"@
    ||| e == "jxl"@
}

/// Lowercased extensions that name video containers.
pub open spec fn is_video_ext(e: Seq<char>) -> bool {
    ||| e == "mp4"@
    ||| e == "mkv"@
    ||| e == "avi"@
    ||| e == "mov"@
    ||| e == "wmv"@
    ||| e == "flv"@
    ||| e == "webm"@
    ||| e == "m4v"@
    ||| e == "mpg"@
    ||| e == "mpeg"@
    ||| e == "3gp"@
    ||| e == "ts"@
    ||| e == "mts"@
    ||| e == "m2ts"@
}

/// The kind that an already lowercased extension names.
pub open spec fn kind_of_lowercase(e: Seq<char>) -> FileKind {
    if is_image_ext(e) {
        FileKind::Image
    } else if is_video_ext(e) {
        FileKind::Video
    } else {
        FileKind::Other
    }
}

/// What `str::to_lowercase` gives for a string (Unicode lowercase mapping).
pub uninterp spec fn lowercase_of(s: Seq<char>) -> Seq<char>;

/// Calls `str::to_lowercase`. Trusted: the result is taken to be `lowercase_of` of the
/// argument, a function of the characters alone; nothing more is claimed of it.
#[verifier::external_body]
fn to_lowercase(s: &str) -> (r: String)
    ensures
        r@ == lowercase_of(s@),
{
    s.to_lowercase()
}

/// Lowercases a string as `str::to_lowercase` does.
pub(crate) fn lowercase(s: &str) -> (r: String)
    ensures
        r@ == lowercase_of(s@),
{
    to_lowercase(s)
}

fn is_one_of_images(e: &str) -> (r: bool)
    ensures
        r == is_image_ext(e@),
{
    same_text(e, "jpg") || same_text(e, "jpeg") || same_text(e, "png") || same_text(e, "gif")
        || same_text(e, "webp") || same_text(e, "bmp") || same_text(e, "tiff") || same_text(
        e,
        "tif",
    ) || same_text(e, "ico") || same_text(e, "heic") || same_text(e, "heif") || same_text(
        e,
        "avif",
    ) || same_text(e, "jxl")
}

fn is_one_of_videos(e: &str) -> (r: bool)
    ensures
        r == is_video_ext(e@),
{
    same_text(e, "mp4") || same_text(e, "mkv") || same_text(e, "avi") || same_text(e, "mov")
        || same_text(e, "wmv") || same_text(e, "flv") || same_text(e, "webm") || same_text(
        e,
        "m4v",
    ) || same_text(e, "mpg") || same_text(e, "mpeg") || same_text(e, "3gp") || same_text(
        e,
        "ts",
    ) || same_text(e, "mts") || same_text(e, "m2ts")
}

impl FileKind {
    /// Classifies an extension that is already lowercased.
    pub fn from_lowercase_ext(lower: &str) -> (k: FileKind)
        ensures
            k == kind_of_lowercase(lower@),
    {
        if is_one_of_images(lower) {
            FileKind::Image
        } else if is_one_of_videos(lower) {
            FileKind::Video
        } else {
            FileKind::Other
        }
    }

    /// Classifies a file extension (any case) as image, video or other.
    pub fn from_ext(ext: &str) -> (k: FileKind)
        ensures
            k == kind_of_lowercase(lowercase_of(ext@)),
    {
        let lower = to_lowercase(ext);
        FileKind::from_lowercase_ext(lower.as_str())
    }

    /// Icon shown beside a file of this kind.
    pub fn icon(&self) -> (s: &'static str)
        ensures
            s@ == (match *self {
                FileKind::Image => "🖼"@,
                FileKind::Video => "🎬"@,
                FileKind::Other => "📄"@,
            }),
    {
        match self {
            FileKind::Image => "🖼",
            FileKind::Video => "🎬",
            FileKind::Other => "📄",
        }
    }
}

/// Every file discovered during a scan. `modified` is the modification time in
/// nanoseconds relative to the Unix epoch (negative before it), when known.
#[derive(Debug, Clone)]
pub struct FileEntry {
    pub path: String,
    pub size: u64,
    pub modified: Option<i128>,
    pub extension: String,
    pub kind: FileKind,
}

impl FileEntry {
    /// Builds the record of a walked file; its kind follows from its extension.
    pub fn new(path: String, size: u64, modified: Option<i128>, extension: String) -> (e: FileEntry)
        ensures
            e.path@ == path@,
            e.size == size,
            e.modified == modified,
            e.extension@ == extension@,
            e.kind == kind_of_lowercase(lowercase_of(extension@)),
    {
        let kind = FileKind::from_ext(extension.as_str());
        FileEntry { path, size, modified, extension, kind }
    }
}

/// What `Path::extension` gives for a path, lossily converted to text ("" when the
/// path has none).
pub uninterp spec fn path_extension_of(path: Seq<char>) -> Seq<char>;

/// Calls `std::path::Path::extension`, lossily converted to a `String` (empty when there
/// is no extension). Trusted: the result is taken to be `path_extension_of` of the
/// path's characters; nothing more is claimed of it.
#[verifier::external_body]
pub(crate) fn path_extension(path: &str) -> (e: String)
    ensures
        e@ == path_extension_of(path@),
{
    std::path::Path::new(path).extension().unwrap_or_default().to_string_lossy().to_string()
}

/// What to scan and how.
#[derive(Debug, Clone)]
pub struct ScanOptions {
    pub roots: Vec<String>,
    pub recursive: bool,
    pub skip_hidden: bool,
    pub min_size_bytes: u64,
    pub compare_images_perceptually: bool,
    pub compare_videos_perceptually: bool,
}

impl Default for ScanOptions {
    fn default() -> (o: Self)
        ensures
            o.roots@.len() == 0,
            o.recursive,
            o.skip_hidden,
            o.min_size_bytes == 1,
            o.compare_images_perceptually,
            o.compare_videos_perceptually,
    {
        ScanOptions {
            roots: Vec::new(),
            recursive: true,
            skip_hidden: true,
            min_size_bytes: 1,
            compare_images_perceptually: true,
            compare_videos_perceptually: true,
        }
    }
}

/// Whether a name is hidden: it starts with a dot.
pub open spec fn is_hidden(name: Seq<char>) -> bool {
    name.len() > 0 && name[0] == '.'
}

impl ScanOptions {
    /// How deep the walk goes below each root (the root itself is depth 0).
    pub fn max_depth(&self) -> (d: usize)
        ensures
            d == (if self.recursive { usize::MAX } else { 1 }),
    {
        if self.recursive {
            usize::MAX
        } else {
            1
        }
    }

    /// Whether the walk enters (or yields) an entry with this file name.
    pub fn walks_into(&self, name: &str) -> (b: bool)
        ensures
            b == (!self.skip_hidden || !is_hidden(name@)),
    {
        if self.skip_hidden {
            let n = name.unicode_len();
            !(n > 0 && name.get_char(0) == '.')
        } else {
            true
        }
    }

    /// Whether a walked entry becomes part of the scan: a regular file of at least
    /// the minimum size.
    pub fn admits(&self, is_file: bool, size: u64) -> (b: bool)
        ensures
            b == (is_file && size >= self.min_size_bytes),
    {
        is_file && size >= self.min_size_bytes
    }
}

/// Whether the scan compares files of kind `k` perceptually: images and videos each
/// when their option is set, other files never.
pub open spec fn compares_perceptually(o: ScanOptions, k: FileKind) -> bool {
    match k {
        FileKind::Image => o.compare_images_perceptually,
        FileKind::Video => o.compare_videos_perceptually,
        FileKind::Other => false,
    }
}

impl ScanOptions {
    /// The entries of kind `kind` to fingerprint and compare perceptually, as indices
    /// in scan order: those of `entries_of_kind` when the options turn perceptual
    /// matching on for that kind, and none otherwise.
    pub fn perceptual_candidates(&self, entries: &Vec<FileEntry>, kind: FileKind) -> (r: Vec<usize>)
        ensures
            compares_perceptually(*self, kind) ==> r@.len() == indices_of(
                entries@,
                kind,
                entries@.len() as int,
            ).len() && forall|a: int|
                0 <= a < r@.len() ==> (#[trigger] r@[a]) as int == indices_of(
                    entries@,
                    kind,
                    entries@.len() as int,
                )[a],
            !compares_perceptually(*self, kind) ==> r@.len() == 0,
    {
        let on = match kind {
            FileKind::Image => self.compare_images_perceptually,
            FileKind::Video => self.compare_videos_perceptually,
            FileKind::Other => false,
        };
        if on {
            entries_of_kind(entries, kind)
        } else {
            Vec::new()
        }
    }
}

/// Indices of the first `m` entries that are of kind `k`, in order.
pub open spec fn indices_of(entries: Seq<FileEntry>, k: FileKind, m: int) -> Seq<int>
    decreases m,
{
    if m <= 0 {
        seq![]
    } else {
        let prev = indices_of(entries, k, m - 1);
        if entries[m - 1].kind == k {
            prev.push(m - 1)
        } else {
            prev
        }
    }
}

/// The entries of one kind (the images, or the videos, to fingerprint), as indices
/// in scan order.
pub fn entries_of_kind(entries: &Vec<FileEntry>, kind: FileKind) -> (r: Vec<usize>)
    ensures
        r@.len() == indices_of(entries@, kind, entries@.len() as int).len(),
        forall|a: int| 0 <= a < r@.len() ==> (#[trigger] r@[a]) as int == indices_of(entries@, kind, entries@.len() as int)[a],
{
    let mut r: Vec<usize> = Vec::new();
    let mut i: usize = 0;
    while i < entries.len()
        invariant
            i <= entries@.len(),
            r@.len() == indices_of(entries@, kind, i as int).len(),
            forall|a: int| 0 <= a < r@.len() ==> (#[trigger] r@[a]) as int == indices_of(entries@, kind, i as int)[a],
        decreases entries@.len() - i,
    {
        let ghost old_r = r@;
        if entries[i].kind == kind {
            r.push(i);
        }
        proof {
            assert forall|a: int| 0 <= a < r@.len() implies (#[trigger] r@[a]) as int == indices_of(entries@, kind, i + 1)[a] by {
                if a < old_r.len() {
                    assert(r@[a] == old_r[a]);
                }
            }
        }
        i = i + 1;
    }
    r
}

/// 1024 raised to `u`, for the units that sizes are shown in.
pub open spec fn unit_scale(u: nat) -> nat {
    if u == 0 {
        1
    } else if u == 1 {
        1024
    } else if u == 2 {
        1048576
    } else if u == 3 {
        1073741824
    } else {
        1099511627776
    }
}

/// The largest unit (B, KB, MB, GB, TB) whose scale does not exceed `b`.
pub open spec fn unit_for(b: nat) -> nat {
    if b >= unit_scale(4) {
        4
    } else if b >= unit_scale(3) {
        3
    } else if b >= unit_scale(2) {
        2
    } else if b >= unit_scale(1) {
        1
    } else {
        0
    }
}

pub open spec fn unit_name(u: nat) -> Seq<char> {
    if u == 0 {
        "B"@
    } else if u == 1 {
        "KB"@
    } else if u == 2 {
        "MB"@
    } else if u == 3 {
        "GB"@
    } else {
        "TB"@
    }
}

/// `num / den` rounded to the nearest integer, ties to the even one.
pub open spec fn round_half_even(num: nat, den: nat) -> nat {
    let q = num / den;
    let r = num % den;
    if 2 * r > den || (2 * r == den && q % 2 == 1) {
        q + 1
    } else {
        q
    }
}

/// How many low bits of `b` an `f64` cannot hold (it keeps 53 significant bits).
pub open spec fn f64_dropped_bits(b: nat) -> nat
    decreases b,
{
    if b < 9007199254740992 {
        0
    } else {
        1 + f64_dropped_bits(b / 2)
    }
}

/// The value of `b as f64`: `b` rounded to 53 significant bits, ties to even.
pub open spec fn f64_value(b: nat) -> nat {
    let e = f64_dropped_bits(b);
    round_half_even(b, pow2(e)) * pow2(e)
}

/// Tenths of the shown number for `b` bytes in unit `u` (`u >= 1`), rounded as
/// one-decimal formatting of a float rounds: to nearest, ties to even.
pub open spec fn size_tenths(b: nat, u: nat) -> nat {
    round_half_even(f64_value(b) * 10, unit_scale(u))
}

/// The text shown for a size in bytes: "0 B", "512 B", "1.5 KB", "3.2 GB", ...
pub open spec fn size_text(b: nat) -> Seq<char> {
    let u = unit_for(b);
    if b == 0 {
        "0 B"@
    } else if u == 0 {
        decimal(b) + " B"@
    } else {
        let t = size_tenths(b, u);
        decimal(t / 10) + "."@ + decimal(t % 10) + " "@ + unit_name(u)
    }
}

fn unit_str(u: u64) -> (s: &'static str)
    requires
        1 <= u <= 4,
    ensures
        s@ == unit_name(u as nat),
{
    if u == 1 {
        "KB"
    } else if u == 2 {
        "MB"
    } else if u == 3 {
        "GB"
    } else {
        "TB"
    }
}

proof fn lemma_dropped_bits_step(b: nat, k: nat)
    requires
        b / pow2(k) >= 9007199254740992,
    ensures
        f64_dropped_bits(b / pow2(k)) == 1 + f64_dropped_bits(b / pow2(k + 1)),
        b / pow2(k + 1) == (b / pow2(k)) / 2,
{
    vstd::arithmetic::power2::lemma_pow2_unfold(k + 1);
    vstd::arithmetic::power2::lemma_pow2_pos(k);
    vstd::arithmetic::div_mod::lemma_div_denominator(b as int, pow2(k) as int, 2);
    assert(pow2(k) * 2 == pow2(k + 1)) by (nonlinear_arith)
        requires pow2(k + 1) == 2 * pow2(k);
}

/// `bytes as f64`, exactly, as an integer.
fn f64_value_exec(bytes: u64) -> (v: u128)
    ensures
        v == f64_value(bytes as nat),
        v <= 2 * (bytes as nat),
{
    let mut div: u128 = 1;
    let mut t: u128 = bytes as u128;
    let ghost mut k: nat = 0;
    proof {
        vstd::arithmetic::power2::lemma2_to64();
        assert(bytes as nat / pow2(0) == bytes as nat);
    }
    while t >= 9007199254740992
        invariant
            div == pow2(k),
            t == bytes as nat / pow2(k),
            f64_dropped_bits(bytes as nat) == k + f64_dropped_bits(t as nat),
            t * div <= bytes,
            k == 0 ==> t == bytes,
            k > 0 ==> t >= 4503599627370496,
            div <= bytes || k == 0,
            1 <= div <= 0x1_0000_0000_0000_0000,
        decreases t,
    {
        proof {
            lemma_dropped_bits_step(bytes as nat, k);
            vstd::arithmetic::power2::lemma_pow2_unfold(k + 1);
        }
        let ghost old_t = t;
        let ghost old_div = div;
        t = t / 2;
        div = div * 2;
        proof {
            k = k + 1;
            assert(t * div <= bytes) by (nonlinear_arith)
                requires t == old_t / 2, div == old_div * 2, old_t * old_div <= bytes;
            assert(div <= bytes) by (nonlinear_arith)
                requires t * div <= bytes, t >= 1;
        }
    }
    assert(f64_dropped_bits(t as nat) == 0);
    let q = bytes as u128 / div;
    let r = bytes as u128 % div;
    let rounded: u128 = if 2 * r > div || (2 * r == div && q % 2 == 1) {
        q + 1
    } else {
        q
    };
    assert(q == t);
    if div == 1 {
        assert(r == 0);
        assert(rounded == q);
    } else {
        assert(rounded * div <= q * div + div) by (nonlinear_arith)
            requires rounded <= q + 1, div >= 1;
    }
    rounded * div
}

/// Human-readable size: bytes below 1 KB exactly, larger sizes with one decimal
/// in the largest unit up to TB (e.g. "1.5 KB").
pub fn format_size(bytes: u64) -> (s: String)
    ensures
        s@ == size_text(bytes as nat),
{
    let mut s = String::new();
    if bytes == 0 {
        s.append("0 B");
        return s;
    }
    let unit: u64 = if bytes >= 1099511627776 {
        4
    } else if bytes >= 1073741824 {
        3
    } else if bytes >= 1048576 {
        2
    } else if bytes >= 1024 {
        1
    } else {
        0
    };
    if unit == 0 {
        push_decimal(&mut s, bytes as u128);
        s.append(" B");
        return s;
    }
    let scale: u128 = if unit == 1 {
        1024
    } else if unit == 2 {
        1048576
    } else if unit == 3 {
        1073741824
    } else {
        1099511627776
    };
    let value = f64_value_exec(bytes);
    let num = value * 10;
    let q = num / scale;
    let r = num % scale;
    let tenths: u128 = if 2 * r > scale || (2 * r == scale && q % 2 == 1) {
        q + 1
    } else {
        q
    };
    assert(tenths == size_tenths(bytes as nat, unit as nat));
    push_decimal(&mut s, tenths / 10);
    s.append(".");
    push_decimal(&mut s, tenths % 10);
    s.append(" ");
    s.append(unit_str(unit));
    s
}

} // verus!
