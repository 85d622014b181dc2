//! What the results list shows: which groups pass the filters, and in which order.

use vstd::prelude::*;
use vstd::utf8::encode_utf8;
use crate::grouper::{DuplicateGroup, FileMark, MatchKind, wasted};
use crate::scanner::lowercase_of;

verus! {

/// Which kinds of groups the list shows.
#[derive(Debug, Clone, Copy, PartialEq, Eq, Structural)]
pub enum FilterKind {
    All,
    Exact,
    Image,
    Video,
}

/// How the list is ordered.
#[derive(Debug, Clone, Copy, PartialEq, Eq, Structural)]
pub enum SortMode {
    WastedDesc,
    WastedAsc,
    CopiesDesc,
    NameAsc,
}

pub open spec fn kind_shown(f: FilterKind, k: MatchKind) -> bool {
    match f {
        FilterKind::All => true,
        FilterKind::Exact => k == MatchKind::ExactHash,
        FilterKind::Image => k == MatchKind::PerceptualImage,
        FilterKind::Video => k == MatchKind::PerceptualVideo,
    }
}

/// `needle` occurs in `hay` as a contiguous run of characters.
pub open spec fn has_substring(hay: Seq<char>, needle: Seq<char>) -> bool {
    exists|i: int| 0 <= i && i + needle.len() <= hay.len() && #[trigger] hay.subrange(i, i + needle.len()) == needle
}

/// Whether `needle` occurs in `hay` as a contiguous run of characters.
fn contains_text(hay: &str, needle: &str) -> (b: bool)
    ensures
        b == has_substring(hay@, needle@),
{
    let n = hay.unicode_len();
    let m = needle.unicode_len();
    if m > n {
        return false;
    }
    let mut i: usize = 0;
    while i <= n - m
        invariant
            n == hay@.len(),
            m == needle@.len(),
            m <= n,
            i <= n - m + 1,
            forall|k: int| 0 <= k < i ==> #[trigger] hay@.subrange(k, k + m) != needle@,
        decreases n - m + 1 - i,
    {
        let mut ok = true;
        let mut j: usize = 0;
        while j < m && ok
            invariant
                n == hay@.len(),
                m == needle@.len(),
                i + m <= n,
                j <= m,
                ok <==> forall|y: int| 0 <= y < j ==> hay@[i + y] == #[trigger] needle@[y],
            decreases m - j,
        {
            if hay.get_char(i + j) != needle.get_char(j) {
                ok = false;
            }
            j = j + 1;
        }
        if ok {
            assert(hay@.subrange(i as int, i + m) =~= needle@);
            return true;
        }
        let ghost y = choose|y: int| 0 <= y < j && hay@[i + y] != needle@[y];
        assert(hay@.subrange(i as int, i + m)[y] != needle@[y]);
        i = i + 1;
    }
    false
}

/// Calls `str::to_lowercase`; see `crate::scanner::lowercase_of`.
fn lower(s: &str) -> (r: String)
    ensures
        r@ == lowercase_of(s@),
{
    crate::scanner::lowercase(s)
}

/// A group is listed when its kind passes, some file path contains the (lowercased)
/// filter text, compared lowercased, unless the text is empty, and, when only marked
/// groups are wanted, some file carries a mark.
pub open spec fn group_shown(g: DuplicateGroup, kind: FilterKind, filter_lower: Seq<char>, only_marked: bool) -> bool {
    &&& kind_shown(kind, g.kind)
    &&& (filter_lower.len() == 0 || exists|k: int|
        0 <= k < g.files@.len() && has_substring(lowercase_of(#[trigger] g.files@[k].path@), filter_lower))
    &&& (!only_marked || exists|k: int| 0 <= k < g.files@.len() && (#[trigger] g.files@[k]).mark != FileMark::Unmarked)
}

/// Strict lexicographic order of byte strings.
pub open spec fn bytes_lt(a: Seq<u8>, b: Seq<u8>) -> bool
    decreases a.len(),
{
    if a.len() == 0 {
        b.len() > 0
    } else if b.len() == 0 {
        false
    } else if a[0] < b[0] {
        true
    } else if a[0] > b[0] {
        false
    } else {
        bytes_lt(a.drop_first(), b.drop_first())
    }
}

proof fn lemma_bytes_lt_order(a: Seq<u8>, b: Seq<u8>, c: Seq<u8>)
    ensures
        bytes_lt(a, b) && bytes_lt(b, c) ==> bytes_lt(a, c),
        !bytes_lt(a, b) && !bytes_lt(b, a) ==> a == b,
        !(bytes_lt(a, b) && bytes_lt(b, a)),
    decreases a.len(),
{
    if a.len() > 0 && b.len() > 0 {
        if c.len() > 0 {
            lemma_bytes_lt_order(a.drop_first(), b.drop_first(), c.drop_first());
        } else {
            lemma_bytes_lt_order(a.drop_first(), b.drop_first(), c);
        }
        if !bytes_lt(a, b) && !bytes_lt(b, a) {
            assert(a[0] == b[0]);
            assert(a =~= seq![a[0]] + a.drop_first());
            assert(b =~= seq![b[0]] + b.drop_first());
        }
    } else if a.len() == 0 && b.len() == 0 {
        assert(a =~= b);
    }
}

/// The text a group is sorted by under NameAsc: its first file's path, as UTF-8.
pub open spec fn name_key(g: DuplicateGroup) -> Seq<u8> {
    if g.files@.len() > 0 {
        encode_utf8(g.files@[0].path@)
    } else {
        seq![]
    }
}

/// `a` comes strictly before `b` in the list under `mode`.
pub open spec fn sorts_before(mode: SortMode, a: DuplicateGroup, b: DuplicateGroup) -> bool {
    match mode {
        SortMode::WastedDesc => wasted(a.files@) > wasted(b.files@),
        SortMode::WastedAsc => wasted(a.files@) < wasted(b.files@),
        SortMode::CopiesDesc => a.files@.len() > b.files@.len(),
        SortMode::NameAsc => bytes_lt(name_key(a), name_key(b)),
    }
}

proof fn lemma_sorts_before(mode: SortMode, n: DuplicateGroup, x: DuplicateGroup, y: DuplicateGroup)
    ensures
        sorts_before(mode, n, x) && !sorts_before(mode, y, x) ==> sorts_before(mode, n, y),
        !(sorts_before(mode, x, y) && sorts_before(mode, y, x)),
{
    if mode == SortMode::NameAsc {
        lemma_bytes_lt_order(name_key(n), name_key(x), name_key(y));
        lemma_bytes_lt_order(name_key(x), name_key(y), name_key(n));
        lemma_bytes_lt_order(name_key(y), name_key(x), name_key(n));
    }
}

/// Indices of the groups below `m` that are shown, in increasing order.
pub open spec fn shown_upto(gs: Seq<DuplicateGroup>, kind: FilterKind, filter_lower: Seq<char>, only_marked: bool, m: int) -> Seq<int>
    decreases m,
{
    if m <= 0 {
        seq![]
    } else {
        let prev = shown_upto(gs, kind, filter_lower, only_marked, m - 1);
        if group_shown(gs[m - 1], kind, filter_lower, only_marked) {
            prev.push(m - 1)
        } else {
            prev
        }
    }
}

/// `order` lists the indices of `shown` once each, sorted under `mode`, groups that
/// tie keeping their input order.
pub open spec fn listed_in_order(gs: Seq<DuplicateGroup>, shown: Seq<int>, order: Seq<usize>, mode: SortMode) -> bool {
    &&& order.len() == shown.len()
    &&& forall|a: int| 0 <= a < order.len() ==> shown.contains(#[trigger] order[a] as int)
    &&& forall|a: int, b: int| 0 <= a < b < order.len() ==> #[trigger] order[a] != #[trigger] order[b]
    &&& forall|a: int, b: int|
        0 <= a < b < order.len() ==> sorts_before(mode, gs[#[trigger] order[a] as int], gs[#[trigger] order[b] as int])
            || (!sorts_before(mode, gs[order[b] as int], gs[order[a] as int]) && order[a] < order[b])
}

fn sorts_before_exec(mode: SortMode, a: &DuplicateGroup, b: &DuplicateGroup) -> (r: bool)
    ensures
        r == sorts_before(mode, *a, *b),
{
    match mode {
        SortMode::WastedDesc => a.wasted_bytes() > b.wasted_bytes(),
        SortMode::WastedAsc => a.wasted_bytes() < b.wasted_bytes(),
        SortMode::CopiesDesc => a.files.len() > b.files.len(),
        SortMode::NameAsc => {
            let x: &[u8] = if a.files.len() > 0 {
                a.files[0].path.as_str().as_bytes()
            } else {
                &[]
            };
            let y: &[u8] = if b.files.len() > 0 {
                b.files[0].path.as_str().as_bytes()
            } else {
                &[]
            };
            assert(x@ == name_key(*a));
            assert(y@ == name_key(*b));
            bytes_lt_exec(x, y)
        },
    }
}

fn bytes_lt_exec(x: &[u8], y: &[u8]) -> (r: bool)
    ensures
        r == bytes_lt(x@, y@),
{
    let mut i: usize = 0;
    assert(x@.skip(0) =~= x@);
    assert(y@.skip(0) =~= y@);
    while i < x.len() && i < y.len()
        invariant
            i <= x@.len(),
            i <= y@.len(),
            bytes_lt(x@, y@) == bytes_lt(x@.skip(i as int), y@.skip(i as int)),
        decreases x@.len() - i,
    {
        if x[i] < y[i] {
            return true;
        }
        if x[i] > y[i] {
            return false;
        }
        assert(x@.skip(i as int).drop_first() =~= x@.skip(i + 1));
        assert(y@.skip(i as int).drop_first() =~= y@.skip(i + 1));
        i = i + 1;
    }
    i == x.len() && i < y.len()
}

fn group_passes(g: &DuplicateGroup, kind: FilterKind, filter_lower: &str, only_marked: bool) -> (b: bool)
    ensures
        b == group_shown(*g, kind, filter_lower@, only_marked),
{
    let kind_ok = match kind {
        FilterKind::All => true,
        FilterKind::Exact => g.kind == MatchKind::ExactHash,
        FilterKind::Image => g.kind == MatchKind::PerceptualImage,
        FilterKind::Video => g.kind == MatchKind::PerceptualVideo,
    };
    if !kind_ok {
        return false;
    }
    let empty = filter_lower.unicode_len() == 0;
    let mut text_ok = empty;
    let mut i: usize = 0;
    while i < g.files.len() && !text_ok
        invariant
            i <= g.files@.len(),
            empty == (filter_lower@.len() == 0),
            !empty ==> (text_ok == exists|k: int| 0 <= k < i && has_substring(lowercase_of(#[trigger] g.files@[k].path@), filter_lower@)),
            empty ==> text_ok,
        decreases g.files@.len() - i,
    {
        let p = lower(g.files[i].path.as_str());
        if contains_text(p.as_str(), filter_lower) {
            text_ok = true;
        }
        i = i + 1;
    }
    if !text_ok {
        return false;
    }
    if !only_marked {
        return true;
    }
    let mut j: usize = 0;
    while j < g.files.len()
        invariant
            j <= g.files@.len(),
            only_marked,
            kind_shown(kind, g.kind),
            filter_lower@.len() == 0 || exists|k: int|
                0 <= k < g.files@.len() && has_substring(lowercase_of(#[trigger] g.files@[k].path@), filter_lower@),
            forall|k: int| 0 <= k < j ==> (#[trigger] g.files@[k]).mark == FileMark::Unmarked,
        decreases g.files@.len() - j,
    {
        if g.files[j].mark != FileMark::Unmarked {
            return true;
        }
        j = j + 1;
    }
    false
}

/// The groups the results list shows, as indices, in the order it shows them:
/// groups passing the kind filter, the text filter (compared lowercased) and the
/// marked-only switch, sorted under `mode`, ties in their input order.
pub fn visible_groups(
    groups: &Vec<DuplicateGroup>,
    kind: FilterKind,
    filter_text: &str,
    only_marked: bool,
    mode: SortMode,
) -> (r: Vec<usize>)
    ensures
        listed_in_order(
            groups@,
            shown_upto(groups@, kind, lowercase_of(filter_text@), only_marked, groups@.len() as int),
            r@,
            mode,
        ),
{
    let filter_lower = lower(filter_text);
    let ghost fl = filter_lower@;
    let mut order: Vec<usize> = Vec::new();
    let mut i: usize = 0;
    while i < groups.len()
        invariant
            i <= groups@.len(),
            fl == lowercase_of(filter_text@),
            fl == filter_lower@,
            listed_in_order(groups@, shown_upto(groups@, kind, fl, only_marked, i as int), order@, mode),
            forall|a: int| 0 <= a < order@.len() ==> (#[trigger] order@[a]) < i,
        decreases groups@.len() - i,
    {
        let ghost shown = shown_upto(groups@, kind, fl, only_marked, i as int);
        if group_passes(&groups[i], kind, filter_lower.as_str(), only_marked) {
            // binary search for the first listed group the new one sorts before
            let ghost ni = groups@[i as int];
            proof {
                assert forall|a: int, b: int| 0 <= a < b < order@.len() && sorts_before(mode, ni, groups@[#[trigger] order@[a] as int])
                    implies sorts_before(mode, ni, groups@[#[trigger] order@[b] as int]) by {
                    lemma_sorts_before(mode, ni, groups@[order@[a] as int], groups@[order@[b] as int]);
                }
            }
            let mut lo: usize = 0;
            let mut hi: usize = order.len();
            while lo < hi
                invariant
                    i < groups@.len(),
                    ni == groups@[i as int],
                    lo <= hi <= order@.len(),
                    forall|a: int| 0 <= a < order@.len() ==> (#[trigger] order@[a]) < i,
                    forall|a: int| 0 <= a < lo ==> !sorts_before(mode, ni, groups@[#[trigger] order@[a] as int]),
                    forall|a: int| hi <= a < order@.len() ==> sorts_before(mode, ni, groups@[#[trigger] order@[a] as int]),
                    forall|a: int, b: int| 0 <= a < b < order@.len() && sorts_before(mode, ni, groups@[#[trigger] order@[a] as int])
                        ==> sorts_before(mode, ni, groups@[#[trigger] order@[b] as int]),
                decreases hi - lo,
            {
                let mid = lo + (hi - lo) / 2;
                if sorts_before_exec(mode, &groups[i], &groups[order[mid]]) {
                    hi = mid;
                } else {
                    lo = mid + 1;
                }
            }
            let p = lo;
            let ghost old_order = order@;
            order.insert(p, i);
            proof {
                let s1 = shown_upto(groups@, kind, fl, only_marked, i + 1);
                assert(s1 == shown.push(i as int));
                assert forall|a: int| 0 <= a < order@.len() implies s1.contains(#[trigger] order@[a] as int) by {
                    if a < p {
                        assert(order@[a] == old_order[a]);
                        assert(shown.contains(old_order[a] as int));
                        let w = choose|w: int| 0 <= w < shown.len() && shown[w] == old_order[a] as int;
                        assert(s1[w] == shown[w]);
                    } else if a > p {
                        assert(order@[a] == old_order[a - 1]);
                        assert(shown.contains(old_order[a - 1] as int));
                        let w = choose|w: int| 0 <= w < shown.len() && shown[w] == old_order[a - 1] as int;
                        assert(s1[w] == shown[w]);
                    } else {
                        assert(s1[s1.len() - 1] == i as int);
                    }
                }
                assert forall|a: int| 0 <= a < order@.len() implies (#[trigger] order@[a]) < i + 1 by {
                    if a < p {
                        assert(order@[a] == old_order[a]);
                    } else if a > p {
                        assert(order@[a] == old_order[a - 1]);
                    }
                }
                assert forall|a: int, b: int| 0 <= a < b < order@.len() implies #[trigger] order@[a] != #[trigger] order@[b] by {
                    if a < p {
                        assert(order@[a] == old_order[a]);
                    } else if a > p {
                        assert(order@[a] == old_order[a - 1]);
                    }
                    if b < p {
                        assert(order@[b] == old_order[b]);
                    } else if b > p {
                        assert(order@[b] == old_order[b - 1]);
                    }
                }
                assert forall|a: int, b: int| 0 <= a < b < order@.len() implies sorts_before(mode, groups@[#[trigger] order@[a] as int], groups@[#[trigger] order@[b] as int])
                    || (!sorts_before(mode, groups@[order@[b] as int], groups@[order@[a] as int]) && order@[a] < order@[b]) by {
                    if a < p {
                        assert(order@[a] == old_order[a]);
                    } else if a > p {
                        assert(order@[a] == old_order[a - 1]);
                    }
                    if b < p {
                        assert(order@[b] == old_order[b]);
                    } else if b > p {
                        assert(order@[b] == old_order[b - 1]);
                    }
                }
            }
        } else {
            proof {
                assert(shown_upto(groups@, kind, fl, only_marked, i + 1) == shown);
            }
        }
        i = i + 1;
    }
    order
}

/// The hint shown beside the image threshold slider.
pub fn threshold_label(threshold: u32) -> (s: &'static str)
    ensures
        s@ == (if threshold <= 2 {
            "Strict (byte-near-identical)"@
        } else if threshold <= 8 {
            "Normal (same image, different format/compression)"@
        } else if threshold <= 15 {
            "Loose (similar images)"@
        } else {
            "Very loose"@
        }),
{
    if threshold <= 2 {
        "Strict (byte-near-identical)"
    } else if threshold <= 8 {
        "Normal (same image, different format/compression)"
    } else if threshold <= 15 {
        "Loose (similar images)"
    } else {
        "Very loose"
    }
}

} // verus!
