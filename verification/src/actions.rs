//! Acting on marked files: the record of each delete / quarantine / hardlink, the
//! tally of a bulk run, and how the groups change once files are gone. The
//! filesystem work itself is done by the caller, which hands over its outcome.

use vstd::prelude::*;
use crate::text::{decimal, push_decimal};
use crate::grouper::{DuplicateGroup, DupeFile, FileMark};

verus! {

/// What to do with a marked file.
#[derive(Debug, Clone, PartialEq, Eq)]
pub enum ActionKind {
    /// Remove it permanently.
    Delete,
    /// Move it into this folder.
    Quarantine(String),
    /// Replace it with a hard link to this original.
    Hardlink(String),
}

/// The record of one action on one file.
#[derive(Debug)]
pub struct ActionResult {
    pub path: String,
    pub success: bool,
    pub message: String,
}

/// The message for a successful action on `path`; `dest` is where a quarantined
/// file went.
pub open spec fn success_text(path: Seq<char>, kind: ActionKind, dest: Seq<char>) -> Seq<char> {
    match kind {
        ActionKind::Delete => "Deleted "@ + path,
        ActionKind::Quarantine(_) => "Moved to "@ + dest,
        ActionKind::Hardlink(original) => "Hardlinked to "@ + original@,
    }
}

/// Records an action on `path` from what the filesystem step reported: `Ok` with the
/// file's new location (only quarantine uses it) or `Err` with the error's text.
pub fn execute_action(path: &str, kind: &ActionKind, outcome: &Result<String, String>) -> (r: ActionResult)
    ensures
        r.path@ == path@,
        r.success == outcome is Ok,
        match outcome {
            Ok(dest) => r.message@ == success_text(path@, *kind, dest@),
            Err(e) => r.message@ == e@,
        },
{
    match outcome {
        Ok(dest) => {
            let message = match kind {
                ActionKind::Delete => String::from_str("Deleted ").concat(path),
                ActionKind::Quarantine(_) => String::from_str("Moved to ").concat(dest.as_str()),
                ActionKind::Hardlink(original) => String::from_str("Hardlinked to ").concat(
                    original.as_str(),
                ),
            };
            ActionResult { path: path.to_string(), success: true, message }
        },
        Err(e) => ActionResult { path: path.to_string(), success: false, message: e.clone() },
    }
}

/// Successes among the first `m` outcomes.
pub open spec fn ok_count(outcomes: Seq<Result<String, String>>, m: int) -> nat
    decreases m,
{
    if m <= 0 {
        0
    } else {
        ok_count(outcomes, m - 1) + (if outcomes[m - 1] is Ok {
            1nat
        } else {
            0nat
        })
    }
}

/// The error lines of the failures among the first `m` outcomes, "path: error".
pub open spec fn error_lines(paths: Seq<String>, outcomes: Seq<Result<String, String>>, m: int) -> Seq<
    Seq<char>,
>
    decreases m,
{
    if m <= 0 {
        seq![]
    } else {
        let prev = error_lines(paths, outcomes, m - 1);
        match outcomes[m - 1] {
            Ok(_) => prev,
            Err(e) => prev.push(paths[m - 1]@ + ": "@ + e@),
        }
    }
}

proof fn lemma_counts_bounded(outcomes: Seq<Result<String, String>>, paths: Seq<String>, m: int)
    requires
        0 <= m <= outcomes.len(),
    ensures
        ok_count(outcomes, m) + error_lines(paths, outcomes, m).len() == m,
    decreases m,
{
    if m > 0 {
        lemma_counts_bounded(outcomes, paths, m - 1);
    }
}

/// Runs the bookkeeping of an action over many files, given the filesystem outcome
/// for each (in the same order). Returns (succeeded, failed, error lines), with one
/// "path: error" line per failure, in order.
pub fn execute_bulk(paths: &Vec<String>, kind: &ActionKind, outcomes: &Vec<Result<String, String>>) -> (r: (
    usize,
    usize,
    Vec<String>,
))
    requires
        outcomes@.len() == paths@.len(),
    ensures
        r.0 == ok_count(outcomes@, paths@.len() as int),
        r.1 == paths@.len() - r.0,
        r.2@.len() == r.1,
        forall|k: int|
            0 <= k < r.2@.len() ==> (#[trigger] r.2@[k])@ == error_lines(paths@, outcomes@, paths@.len() as int)[k],
{
    let mut ok: usize = 0;
    let mut fail: usize = 0;
    let mut errors: Vec<String> = Vec::new();
    let mut i: usize = 0;
    while i < paths.len()
        invariant
            outcomes@.len() == paths@.len(),
            i <= paths@.len(),
            ok == ok_count(outcomes@, i as int),
            ok + fail == i,
            errors@.len() == error_lines(paths@, outcomes@, i as int).len(),
            forall|k: int|
                0 <= k < errors@.len() ==> (#[trigger] errors@[k])@ == error_lines(paths@, outcomes@, i as int)[k],
        decreases paths@.len() - i,
    {
        proof {
            lemma_counts_bounded(outcomes@, paths@, i as int);
        }
        let r = execute_action(paths[i].as_str(), kind, &outcomes[i]);
        if r.success {
            ok = ok + 1;
        } else {
            fail = fail + 1;
            let line = paths[i].clone().concat(": ").concat(r.message.as_str());
            let ghost old_errors = errors@;
            errors.push(line);
            proof {
                assert forall|k: int| 0 <= k < errors@.len() implies (#[trigger] errors@[k])@
                    == error_lines(paths@, outcomes@, i + 1)[k] by {
                    if k < old_errors.len() {
                        assert(errors@[k] == old_errors[k]);
                    }
                }
            }
        }
        i = i + 1;
    }
    proof {
        lemma_counts_bounded(outcomes@, paths@, paths@.len() as int);
    }
    (ok, fail, errors)
}

/// The paths of all files marked Delete, group by group, in order.
pub open spec fn marked_paths_of(gs: Seq<DuplicateGroup>) -> Seq<Seq<char>>
    decreases gs.len(),
{
    if gs.len() == 0 {
        seq![]
    } else {
        marked_paths_of(gs.drop_last()) + marked_paths_in(gs.last().files@)
    }
}

/// The paths of the files marked Delete, in order.
pub open spec fn marked_paths_in(fs: Seq<DupeFile>) -> Seq<Seq<char>>
    decreases fs.len(),
{
    if fs.len() == 0 {
        seq![]
    } else {
        let prev = marked_paths_in(fs.drop_last());
        if fs.last().mark == FileMark::Delete {
            prev.push(fs.last().path@)
        } else {
            prev
        }
    }
}

/// The paths of every file marked Delete, across all groups, in order.
pub fn marked_delete_paths(groups: &Vec<DuplicateGroup>) -> (r: Vec<String>)
    ensures
        r@.len() == marked_paths_of(groups@).len(),
        forall|k: int| 0 <= k < r@.len() ==> (#[trigger] r@[k])@ == marked_paths_of(groups@)[k],
{
    let mut r: Vec<String> = Vec::new();
    let mut g: usize = 0;
    while g < groups.len()
        invariant
            g <= groups@.len(),
            r@.len() == marked_paths_of(groups@.take(g as int)).len(),
            forall|k: int| 0 <= k < r@.len() ==> (#[trigger] r@[k])@ == marked_paths_of(groups@.take(g as int))[k],
        decreases groups@.len() - g,
    {
        assert(groups@.take(g + 1).drop_last() =~= groups@.take(g as int));
        let files = &groups[g].files;
        let ghost base = r@;
        let ghost prev = marked_paths_of(groups@.take(g as int));
        assert(forall|k: int| 0 <= k < base.len() ==> (#[trigger] base[k])@ == prev[k]);
        let mut i: usize = 0;
        while i < files.len()
            invariant
                g < groups@.len(),
                *files == groups@[g as int].files,
                i <= files@.len(),
                r@.len() == base.len() + marked_paths_in(files@.take(i as int)).len(),
                forall|k: int| 0 <= k < base.len() ==> r@[k] == base[k],
                forall|k: int|
                    0 <= k < marked_paths_in(files@.take(i as int)).len() ==> (#[trigger] r@[base.len() + k])@
                        == marked_paths_in(files@.take(i as int))[k],
            decreases files@.len() - i,
        {
            assert(files@.take(i + 1).drop_last() =~= files@.take(i as int));
            if files[i].mark == FileMark::Delete {
                r.push(files[i].path.clone());
            }
            i = i + 1;
        }
        assert(files@.take(files@.len() as int) =~= files@);
        proof {
            let now = marked_paths_of(groups@.take(g + 1));
            assert(now == prev + marked_paths_in(files@));
            assert forall|k: int| 0 <= k < r@.len() implies (#[trigger] r@[k])@ == now[k] by {
                if k >= base.len() {
                    let j = k - base.len();
                    assert(r@[base.len() + j] == r@[k]);
                    assert(now[k] == marked_paths_in(files@)[j]);
                } else {
                    assert(r@[k] == base[k]);
                    assert(now[k] == prev[k]);
                }
            }
        }
        g = g + 1;
    }
    assert(groups@.take(groups@.len() as int) =~= groups@);
    r
}

/// The files whose paths are not among `gone`, in order.
pub open spec fn remaining_files(fs: Seq<DupeFile>, gone: Seq<Seq<char>>) -> Seq<DupeFile>
    decreases fs.len(),
{
    if fs.len() == 0 {
        seq![]
    } else {
        let prev = remaining_files(fs.drop_last(), gone);
        if gone.contains(fs.last().path@) {
            prev
        } else {
            prev.push(fs.last())
        }
    }
}

/// Indices of the groups that still hold two or more files once `gone` are removed.
pub open spec fn surviving_groups(gs: Seq<DuplicateGroup>, gone: Seq<Seq<char>>, m: int) -> Seq<int>
    decreases m,
{
    if m <= 0 {
        seq![]
    } else {
        let prev = surviving_groups(gs, gone, m - 1);
        if remaining_files(gs[m - 1].files@, gone).len() > 1 {
            prev.push(m - 1)
        } else {
            prev
        }
    }
}

fn path_in(paths: &Vec<String>, p: &String) -> (b: bool)
    ensures
        b == paths@.map_values(|s: String| s@).contains(p@),
{
    let ghost views = paths@.map_values(|s: String| s@);
    let mut i: usize = 0;
    while i < paths.len()
        invariant
            i <= paths@.len(),
            views == paths@.map_values(|s: String| s@),
            forall|k: int| 0 <= k < i ==> views[k] != p@,
        decreases paths@.len() - i,
    {
        if paths[i] == *p {
            assert(views[i as int] == p@);
            return true;
        }
        i = i + 1;
    }
    false
}

fn copy_file(f: &DupeFile) -> (c: DupeFile)
    ensures
        c == *f,
{
    DupeFile {
        path: f.path.clone(),
        size: f.size,
        modified: f.modified,
        extension: f.extension.clone(),
        kind: f.kind,
        mark: f.mark,
    }
}

/// The paths among the first `m` whose action succeeded, in order.
pub open spec fn succeeded_paths(paths: Seq<String>, outcomes: Seq<Result<String, String>>, m: int) -> Seq<Seq<char>>
    decreases m,
{
    if m <= 0 {
        seq![]
    } else {
        let prev = succeeded_paths(paths, outcomes, m - 1);
        if outcomes[m - 1] is Ok {
            prev.push(paths[m - 1]@)
        } else {
            prev
        }
    }
}

/// After an action on the `marked` paths with the given outcomes (same order), drops
/// from the groups every file whose action succeeded, then every group left with
/// fewer than two files. The remaining groups keep their order, fields and the order
/// of their files.
pub fn remove_actioned(
    groups: &Vec<DuplicateGroup>,
    marked: &Vec<String>,
    outcomes: &Vec<Result<String, String>>,
) -> (r: Vec<DuplicateGroup>)
    requires
        outcomes@.len() == marked@.len(),
    ensures
        ({
            let gone = succeeded_paths(marked@, outcomes@, marked@.len() as int);
            let keep = surviving_groups(groups@, gone, groups@.len() as int);
            &&& r@.len() == keep.len()
            &&& forall|o: int|
                0 <= o < keep.len() ==> {
                    let g = groups@[keep[o]];
                    &&& (#[trigger] r@[o]).id == g.id
                    &&& r@[o].kind == g.kind
                    &&& r@[o].similarity == g.similarity
                    &&& r@[o].collapsed == g.collapsed
                    &&& r@[o].files@ == remaining_files(g.files@, gone)
                }
        }),
{
    let mut gone_vec: Vec<String> = Vec::new();
    let mut j: usize = 0;
    while j < marked.len()
        invariant
            j <= marked@.len(),
            outcomes@.len() == marked@.len(),
            gone_vec@.map_values(|s: String| s@) == succeeded_paths(marked@, outcomes@, j as int),
        decreases marked@.len() - j,
    {
        let ghost before = gone_vec@;
        if outcomes[j].is_ok() {
            gone_vec.push(marked[j].clone());
            assert(gone_vec@.map_values(|s: String| s@) =~= before.map_values(|s: String| s@).push(marked@[j as int]@));
        }
        j = j + 1;
    }
    let ghost gone = succeeded_paths(marked@, outcomes@, marked@.len() as int);
    let mut r: Vec<DuplicateGroup> = Vec::new();
    let mut g: usize = 0;
    while g < groups.len()
        invariant
            g <= groups@.len(),
            gone == gone_vec@.map_values(|s: String| s@),
            r@.len() == surviving_groups(groups@, gone, g as int).len(),
            forall|o: int|
                0 <= o < r@.len() ==> {
                    let src = groups@[surviving_groups(groups@, gone, g as int)[o]];
                    &&& (#[trigger] r@[o]).id == src.id
                    &&& r@[o].kind == src.kind
                    &&& r@[o].similarity == src.similarity
                    &&& r@[o].collapsed == src.collapsed
                    &&& r@[o].files@ == remaining_files(src.files@, gone)
                },
        decreases groups@.len() - g,
    {
        let grp = &groups[g];
        let mut files: Vec<DupeFile> = Vec::new();
        let mut i: usize = 0;
        while i < grp.files.len()
            invariant
                g < groups@.len(),
                *grp == groups@[g as int],
                gone == gone_vec@.map_values(|s: String| s@),
                i <= grp.files@.len(),
                files@ == remaining_files(grp.files@.take(i as int), gone),
            decreases grp.files@.len() - i,
        {
            assert(grp.files@.take(i + 1).drop_last() =~= grp.files@.take(i as int));
            if !path_in(&gone_vec, &grp.files[i].path) {
                files.push(copy_file(&grp.files[i]));
            }
            i = i + 1;
        }
        assert(grp.files@.take(grp.files@.len() as int) =~= grp.files@);
        let ghost old_r = r@;
        if files.len() > 1 {
            r.push(
                DuplicateGroup {
                    id: grp.id,
                    kind: grp.kind,
                    similarity: grp.similarity,
                    files,
                    collapsed: grp.collapsed,
                },
            );
            proof {
                let s1 = surviving_groups(groups@, gone, g + 1);
                assert forall|o: int| 0 <= o < r@.len() implies {
                    let src = groups@[s1[o]];
                    &&& (#[trigger] r@[o]).id == src.id
                    &&& r@[o].kind == src.kind
                    &&& r@[o].similarity == src.similarity
                    &&& r@[o].collapsed == src.collapsed
                    &&& r@[o].files@ == remaining_files(src.files@, gone)
                } by {
                    if o < old_r.len() {
                        assert(r@[o] == old_r[o]);
                    }
                }
            }
        }
        g = g + 1;
    }
    r
}

/// The summary line of a bulk run: "Deleted 3 file(s)", "Moved 2 file(s), 1 failed".
pub open spec fn bulk_summary_text(kind: ActionKind, ok: nat, fail: nat) -> Seq<char> {
    (match kind {
        ActionKind::Delete => "Deleted"@,
        _ => "Moved"@,
    }) + " "@ + decimal(ok) + " file(s)"@ + (if fail > 0 {
        ", "@ + decimal(fail) + " failed"@
    } else {
        Seq::empty()
    })
}

/// The summary line logged after a bulk run.
pub fn bulk_summary(kind: &ActionKind, ok: usize, fail: usize) -> (s: String)
    ensures
        s@ == bulk_summary_text(*kind, ok as nat, fail as nat),
{
    let mut s = match kind {
        ActionKind::Delete => String::from_str("Deleted"),
        _ => String::from_str("Moved"),
    };
    s.append(" ");
    push_decimal(&mut s, ok as u128);
    s.append(" file(s)");
    if fail > 0 {
        s.append(", ");
        push_decimal(&mut s, fail as u128);
        s.append(" failed");
    }
    proof {
        if fail == 0 {
            assert(s@ =~= bulk_summary_text(*kind, ok as nat, fail as nat));
        }
    }
    s
}

/// The name a quarantined file takes when its own name is taken: "{stem} ({i}){ext}",
/// where `ext_suffix` is "." and the extension, or empty.
pub fn numbered_name(stem: &str, i: u32, ext_suffix: &str) -> (s: String)
    ensures
        s@ == stem@ + " ("@ + decimal(i as nat) + ")"@ + ext_suffix@,
{
    let mut s = String::from_str(stem);
    s.append(" (");
    push_decimal(&mut s, i as u128);
    s.append(")");
    s.append(ext_suffix);
    s
}

proof fn lemma_remaining_files(fs: Seq<DupeFile>, gone: Seq<Seq<char>>)
    ensures
        forall|k: int|
            0 <= k < remaining_files(fs, gone).len() ==> !gone.contains(
                (#[trigger] remaining_files(fs, gone)[k]).path@,
            ) && fs.contains(remaining_files(fs, gone)[k]),
    decreases fs.len(),
{
    if fs.len() > 0 {
        let d = fs.drop_last();
        lemma_remaining_files(d, gone);
        let p = remaining_files(d, gone);
        let q = remaining_files(fs, gone);
        assert forall|k: int| 0 <= k < q.len() implies !gone.contains((#[trigger] q[k]).path@) && fs.contains(q[k]) by {
            if k < p.len() {
                assert(q[k] == p[k]);
                let w = choose|w: int| 0 <= w < d.len() && d[w] == p[k];
                assert(fs[w] == d[w]);
            } else {
                assert(q[k] == fs.last());
                assert(fs[fs.len() - 1] == fs.last());
            }
        }
    }
}

proof fn lemma_surviving_groups(gs: Seq<DuplicateGroup>, gone: Seq<Seq<char>>, m: int)
    requires
        m <= gs.len(),
    ensures
        forall|o: int|
            0 <= o < surviving_groups(gs, gone, m).len() ==> 0 <= #[trigger] surviving_groups(gs, gone, m)[o] < m
                && remaining_files(gs[surviving_groups(gs, gone, m)[o]].files@, gone).len() > 1,
        forall|a: int, b: int|
            0 <= a < b < surviving_groups(gs, gone, m).len() ==> #[trigger] surviving_groups(gs, gone, m)[a]
                < #[trigger] surviving_groups(gs, gone, m)[b],
    decreases m,
{
    if m > 0 {
        lemma_surviving_groups(gs, gone, m - 1);
        let p = surviving_groups(gs, gone, m - 1);
        let q = surviving_groups(gs, gone, m);
        assert forall|o: int| 0 <= o < q.len() implies 0 <= #[trigger] q[o] < m
            && remaining_files(gs[q[o]].files@, gone).len() > 1 by {
            if o < p.len() {
                assert(q[o] == p[o]);
            }
        }
        assert forall|a: int, b: int| 0 <= a < b < q.len() implies #[trigger] q[a] < #[trigger] q[b] by {
            if b < p.len() {
                assert(q[a] == p[a] && q[b] == p[b]);
            } else {
                assert(q[a] == p[a]);
            }
        }
    }
}

/// After removing acted-on files, every group that remains has at least two files,
/// none of them one of the removed paths, each one a file the group had before;
/// the remaining groups keep their relative order.
pub proof fn law_pruned_groups(gs: Seq<DuplicateGroup>, gone: Seq<Seq<char>>)
    ensures
        forall|o: int|
            0 <= o < surviving_groups(gs, gone, gs.len() as int).len() ==> {
                let src = gs[#[trigger] surviving_groups(gs, gone, gs.len() as int)[o]];
                let left = remaining_files(src.files@, gone);
                &&& left.len() >= 2
                &&& forall|k: int|
                    0 <= k < left.len() ==> !gone.contains((#[trigger] left[k]).path@) && src.files@.contains(
                        left[k],
                    )
            },
        forall|a: int, b: int|
            0 <= a < b < surviving_groups(gs, gone, gs.len() as int).len() ==> #[trigger] surviving_groups(
                gs,
                gone,
                gs.len() as int,
            )[a] < #[trigger] surviving_groups(gs, gone, gs.len() as int)[b],
{
    lemma_surviving_groups(gs, gone, gs.len() as int);
    let keep = surviving_groups(gs, gone, gs.len() as int);
    assert forall|o: int| 0 <= o < keep.len() implies {
        let src = gs[#[trigger] keep[o]];
        let left = remaining_files(src.files@, gone);
        &&& left.len() >= 2
        &&& forall|k: int|
            0 <= k < left.len() ==> !gone.contains((#[trigger] left[k]).path@) && src.files@.contains(
                left[k],
            )
    } by {
        lemma_remaining_files(gs[keep[o]].files@, gone);
    }
}

/// The highest number tried when looking for a free quarantine name.
pub const QUARANTINE_MAX_SUFFIX: u32 = 9999;

/// The next move in the search for a free quarantine name. Candidate 0 is the file's
/// own name; candidate `i > 0` is `numbered_name(stem, i, ext)`.
#[derive(Debug, Clone, Copy, PartialEq, Eq, Structural)]
pub enum NameSearch {
    /// Check whether candidate `n` is taken.
    Check(u32),
    /// Use candidate `n`.
    Use(u32),
}

/// One step of the search for a free quarantine name, given whether the candidate
/// just checked is taken: the first free one of the own name and the numbered names
/// 1 to 9999 is used; when all are taken, the own name is used.
pub fn next_name_step(attempt: u32, taken: bool) -> (s: NameSearch)
    requires
        attempt <= QUARANTINE_MAX_SUFFIX,
    ensures
        s == (if !taken {
            NameSearch::Use(attempt)
        } else if attempt < QUARANTINE_MAX_SUFFIX {
            NameSearch::Check((attempt + 1) as u32)
        } else {
            NameSearch::Use(0)
        }),
{
    if !taken {
        NameSearch::Use(attempt)
    } else if attempt < QUARANTINE_MAX_SUFFIX {
        NameSearch::Check(attempt + 1)
    } else {
        NameSearch::Use(0)
    }
}

} // verus!
