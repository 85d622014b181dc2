//! The CSV report of the duplicate groups: one row per file, fields separated by
//! commas, and a field quoted (RFC 4180) when it holds a comma, a quote or a line break.

use vstd::prelude::*;
use crate::text::{decimal, push_decimal};
use crate::grouper::{DupeFile, FileMark, MatchKind, utc_date_text};

verus! {

/// The first line of the report.
pub fn csv_header() -> (s: String)
    ensures
        s@ == "Group,MatchKind,Similarity,FilePath,Size,Modified,Mark"@,
{
    String::from_str("Group,MatchKind,Similarity,FilePath,Size,Modified,Mark")
}

/// A field needs quoting when it holds a comma, a double quote, CR or LF.
pub open spec fn needs_quotes(s: Seq<char>) -> bool {
    exists|i: int| 0 <= i < s.len() && (#[trigger] s[i] == ',' || s[i] == '"' || s[i] == '\n' || s[i] == '\r')
}

/// `s` with every double quote doubled.
pub open spec fn doubled_quotes(s: Seq<char>) -> Seq<char>
    decreases s.len(),
{
    if s.len() == 0 {
        seq![]
    } else {
        doubled_quotes(s.drop_last()) + (if s.last() == '"' {
            seq!['"', '"']
        } else {
            seq![s.last()]
        })
    }
}

/// A field as RFC 4180 writes it.
pub open spec fn csv_field(s: Seq<char>) -> Seq<char> {
    if needs_quotes(s) {
        seq!['"'] + doubled_quotes(s) + seq!['"']
    } else {
        s
    }
}

/// How a mark is named in the report.
pub open spec fn mark_text(m: FileMark) -> Seq<char> {
    match m {
        FileMark::Unmarked => "None"@,
        FileMark::Keep => "Keep"@,
        FileMark::Delete => "Delete"@,
        FileMark::Quarantine => "Quarantine"@,
    }
}

pub open spec fn kind_text(k: MatchKind) -> Seq<char> {
    match k {
        MatchKind::ExactHash => "Exact match"@,
        MatchKind::PerceptualImage => "Visual match"@,
        MatchKind::PerceptualVideo => "Video match"@,
    }
}

/// One report row: group id, match kind, similarity (as given), the quoted path, size,
/// modification date ("Unknown" when not known) and mark.
pub open spec fn csv_row_text(group_id: nat, kind: MatchKind, similarity: Seq<char>, file: DupeFile) -> Seq<char> {
    decimal(group_id) + ","@ + kind_text(kind) + ","@ + similarity + ","@ + csv_field(file.path@) + ","@
        + decimal(file.size as nat) + ","@ + (match file.modified {
        None => "Unknown"@,
        Some(t) => utc_date_text(t),
    }) + ","@ + mark_text(file.mark)
}

fn push_csv_field(s: &mut String, f: &str)
    ensures
        final(s)@ == old(s)@ + csv_field(f@),
{
    let n = f.unicode_len();
    let mut quote = false;
    let mut i: usize = 0;
    while i < n
        invariant
            n == f@.len(),
            i <= n,
            quote == exists|k: int| 0 <= k < i && (#[trigger] f@[k] == ',' || f@[k] == '"' || f@[k] == '\n' || f@[k] == '\r'),
        decreases n - i,
    {
        let c = f.get_char(i);
        if c == ',' || c == '"' || c == '\n' || c == '\r' {
            quote = true;
        }
        i = i + 1;
    }
    if !quote {
        s.append(f);
        return;
    }
    let ghost start = s@;
    proof {
        reveal_strlit("\"");
        reveal_strlit("\"\"");
    }
    s.append("\"");
    let mut j: usize = 0;
    while j < n
        invariant
            n == f@.len(),
            j <= n,
            s@ == start + seq!['"'] + doubled_quotes(f@.take(j as int)),
        decreases n - j,
    {
        let ghost prev = s@;
        let c = f.get_char(j);
        proof {
            reveal_strlit("\"\"");
            let t = f@.take(j + 1);
            assert(t.drop_last() =~= f@.take(j as int));
            assert(t.last() == c);
        }
        if c == '"' {
            s.append("\"\"");
            assert(s@ =~= prev + seq!['"', '"']);
        } else {
            s.append(f.substring_char(j, j + 1));
            assert(f@.subrange(j as int, j + 1) =~= seq![c]);
        }
        j = j + 1;
        assert(s@ =~= start + seq!['"'] + doubled_quotes(f@.take(j as int)));
    }
    assert(f@.take(n as int) =~= f@);
    s.append("\"");
    assert(s@ =~= start + csv_field(f@));
}

/// One row of the report for a file of a group; `similarity_text` is the group's similarity
/// already written out.
pub fn csv_row(group_id: usize, kind: MatchKind, similarity_text: &str, file: &DupeFile) -> (r: String)
    ensures
        r@ == csv_row_text(group_id as nat, kind, similarity_text@, *file),
{
    let mut s = String::new();
    push_decimal(&mut s, group_id as u128);
    s.append(",");
    s.append(kind.label());
    s.append(",");
    s.append(similarity_text);
    s.append(",");
    push_csv_field(&mut s, file.path.as_str());
    s.append(",");
    push_decimal(&mut s, file.size as u128);
    s.append(",");
    let date = file.modified_str();
    s.append(date.as_str());
    s.append(",");
    let m = match file.mark {
        FileMark::Unmarked => "None",
        FileMark::Keep => "Keep",
        FileMark::Delete => "Delete",
        FileMark::Quarantine => "Quarantine",
    };
    s.append(m);
    s
}

} // verus!
