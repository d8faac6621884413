//! Working-tree status lines: picking out the status letter and the path it
//! applies to, so the caller can report uncommitted changes.

use vstd::prelude::*;
use crate::strutil::chars_of;
use crate::strutil::slice_chars;
use crate::strutil::string_from_chars;

verus! {

/// The characters the status pattern accepts as a status marker.  The comma
/// is part of the accepted set, exactly as the pattern is written.
pub open spec fn status_char(c: char) -> bool {
    c == 'M' || c == ',' || c == 'T' || c == 'A' || c == 'R' || c == 'D' || c == 'C' || c == 'U'
        || c == '?'
}

/// Decides whether `c` is a status marker.
pub fn status_char_exec(c: char) -> (r: bool)
    ensures
        r == status_char(c),
{
    c == 'M' || c == ',' || c == 'T' || c == 'A' || c == 'R' || c == 'D' || c == 'C' || c == 'U'
        || c == '?'
}

/// The index of the first status marker of `s` at or after `i`.
pub open spec fn first_status_idx(s: Seq<char>, i: int) -> Option<int>
    decreases (if 0 <= i <= s.len() {
        s.len() - i
    } else {
        0
    }),
{
    if i < 0 || i >= s.len() {
        None
    } else if status_char(s[i]) {
        Some(i)
    } else {
        first_status_idx(s, i + 1)
    }
}

/// How a status line splits: the label of its first status marker, and
/// everything after that marker; `None` when no marker occurs.
pub open spec fn status_split(s: Seq<char>) -> Option<(Seq<char>, Seq<char>)> {
    match first_status_idx(s, 0) {
        None => None,
        Some(i) => Some((status_label(s[i]), s.skip(i + 1))),
    }
}

/// The report label of a status marker.
pub open spec fn status_label(c: char) -> Seq<char> {
    if c == 'M' {
        "Modified:"@
    } else if c == 'T' {
        "File Type Changed:"@
    } else if c == 'A' {
        "Added:"@
    } else if c == 'R' {
        "Renamed:"@
    } else if c == 'D' {
        "Deleted:"@
    } else if c == 'C' {
        "Copied:"@
    } else if c == 'U' {
        "Unmerged:"@
    } else if c == '?' {
        "Untracked:"@
    } else {
        "Unknown:"@
    }
}

/// The report label of a status marker.
fn status_label_exec(c: char) -> (r: String)
    ensures
        r@ == status_label(c),
{
    if c == 'M' {
        "Modified:".to_owned()
    } else if c == 'T' {
        "File Type Changed:".to_owned()
    } else if c == 'A' {
        "Added:".to_owned()
    } else if c == 'R' {
        "Renamed:".to_owned()
    } else if c == 'D' {
        "Deleted:".to_owned()
    } else if c == 'C' {
        "Copied:".to_owned()
    } else if c == 'U' {
        "Unmerged:".to_owned()
    } else if c == '?' {
        "Untracked:".to_owned()
    } else {
        "Unknown:".to_owned()
    }
}

/// Splits a working-tree status line into the label of its first status
/// marker and the text after the marker; `None` when the line has no marker.
pub fn classify_status_line(line: &str) -> (r: Option<(String, String)>)
    ensures
        r matches Some(p) ==> status_split(line@) == Some((p.0@, p.1@)),
        r is None ==> status_split(line@) is None,
{
    let v = chars_of(line);
    let n = v.len();
    let mut i: usize = 0;
    while i < n
        invariant
            i <= n,
            n == v@.len(),
            v@ == line@,
            first_status_idx(line@, 0) == first_status_idx(line@, i as int),
        decreases n - i,
    {
        if status_char_exec(v[i]) {
            let label = status_label_exec(v[i]);
            let rest = slice_chars(&v, i + 1, n);
            proof {
                assert(rest@ =~= line@.skip(i + 1));
            }
            return Some((label, string_from_chars(&rest)));
        }
        i += 1;
    }
    None
}

} // verus!
