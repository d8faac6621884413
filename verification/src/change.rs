//! Commit records: the parsed form of one history line, message
//! classification, and commit-link resolution.

use vstd::prelude::*;
use crate::bucket::bucket_spec;
use crate::bucket::bucket_changes;
use crate::bucket::lemma_assign_no_missing;
use crate::bucket::lemma_bucket_completeness;
use crate::bucket::lemma_version_roundtrip;
use crate::bucket::lemma_version_suffix_exists;
use crate::bucket::seed_groups;
use crate::bucket::ssort;
use crate::bucket::version_suffix;
use crate::bucket::versions_ok;
use crate::config::Config;
use crate::errors::ChangelogError;
use crate::group::ChangeGroup;
use crate::version::Version;
use crate::version::version_string;
use crate::strutil::chars_of;
use crate::strutil::contains_chars;
use crate::strutil::contains_sub;
use crate::strutil::copy_chars;
use crate::strutil::append_chars;
use crate::strutil::find_sub_from;
use crate::strutil::matches_at;
use crate::strutil::replace_all;
use crate::strutil::replace_all_chars;
use crate::strutil::slice_chars;
use crate::strutil::string_from_chars;
use crate::strutil::strip_trailing;
use crate::strutil::strip_trailing_chars;
use crate::strutil::trim_chars;
use crate::strutil::trim_spec;
use crate::timestamp::Timestamp;
use crate::timestamp::iso_spec;
use crate::timestamp::now_timestamp;
use crate::timestamp::parse_iso_timestamp;

verus! {

/// The semantic category of a commit message.
#[derive(Clone, Copy, Debug, PartialEq, Eq, Structural)]
pub enum ChangeType {
    Feature,
    Fix,
    Version,
    Unknown,
}

impl ChangeType {
    /// The display name of the category.
    pub fn label(&self) -> (r: String)
        ensures
            self is Feature ==> r@ == "Feature"@,
            self is Fix ==> r@ == "Fix"@,
            self is Version ==> r@ == "Version"@,
            self is Unknown ==> r@ == "Unknown"@,
    {
        match self {
            ChangeType::Feature => "Feature".to_owned(),
            ChangeType::Fix => "Fix".to_owned(),
            ChangeType::Version => "Version".to_owned(),
            ChangeType::Unknown => "Unknown".to_owned(),
        }
    }
}

/// The mathematical shape of a commit record: what contracts speak about.
#[verifier::ext_equal]
pub struct ChangeModel {
    pub message: Seq<char>,
    pub commit_id: Seq<char>,
    pub link: Option<Seq<char>>,
    pub author: Seq<char>,
    pub change_type: ChangeType,
    pub date: Timestamp,
}

/// One parsed commit record.
#[derive(Debug)]
pub struct Change {
    pub message: String,
    pub commit_id: String,
    pub link: Option<String>,
    pub author: String,
    pub change_type: ChangeType,
    pub date: Timestamp,
}

/// The view of an optional string.
pub open spec fn opt_str_view(o: Option<String>) -> Option<Seq<char>> {
    match o {
        Some(s) => Some(s@),
        None => None,
    }
}

impl View for Change {
    type V = ChangeModel;

    open spec fn view(&self) -> ChangeModel {
        ChangeModel {
            message: self.message@,
            commit_id: self.commit_id@,
            link: opt_str_view(self.link),
            author: self.author@,
            change_type: self.change_type,
            date: self.date,
        }
    }
}

impl Change {
    /// Every record the engine works on carries a well-formed timestamp.
    pub open spec fn wf(self) -> bool {
        self.date.wf()
    }
}

/// The views of a sequence of records.
pub open spec fn models(cs: Seq<Change>) -> Seq<ChangeModel> {
    cs.map_values(|c: Change| c@)
}

/// The classification constants handed to the engine: the release-marker
/// prefix and the shorthand-to-glyph substitution table, kept as explicit
/// configuration so runs are reproducible.
#[derive(Debug)]
pub struct ClassifierRules {
    pub release_prefix: String,
    pub substitutions: Vec<(String, String)>,
}

/// The substring whose presence marks a feature commit.
pub open spec fn feat_marker() -> Seq<char> {
    seq!['f', 'e', 'a', 't', ':']
}

/// The substring whose presence marks a fix commit.
pub open spec fn fix_marker() -> Seq<char> {
    seq!['f', 'i', 'x', ':']
}

/// The category of a message: the release-marker prefix wins over the feature
/// marker, which wins over the fix marker; anything else is unclassified.
pub open spec fn classify_spec(message: Seq<char>, release_prefix: Seq<char>) -> ChangeType {
    if contains_sub(message, release_prefix) {
        ChangeType::Version
    } else if contains_sub(message, feat_marker()) {
        ChangeType::Feature
    } else if contains_sub(message, fix_marker()) {
        ChangeType::Fix
    } else {
        ChangeType::Unknown
    }
}

/// Classification is a pure function of message content: a message holding
/// the release-marker prefix is a release whatever else it holds; otherwise
/// the feature marker, then the fix marker, decide; otherwise the message is
/// unclassified.
pub proof fn lemma_classification_purity(message: Seq<char>, release_prefix: Seq<char>)
    ensures
        contains_sub(message, release_prefix) ==> classify_spec(message, release_prefix)
            is Version,
        !contains_sub(message, release_prefix) && contains_sub(message, feat_marker())
            ==> classify_spec(message, release_prefix) is Feature,
        !contains_sub(message, release_prefix) && !contains_sub(message, feat_marker())
            && contains_sub(message, fix_marker()) ==> classify_spec(message, release_prefix)
            is Fix,
        !contains_sub(message, release_prefix) && !contains_sub(message, feat_marker())
            && !contains_sub(message, fix_marker()) ==> classify_spec(message, release_prefix)
            is Unknown,
{
}

/// The feature marker as characters.
fn feat_needle() -> (r: Vec<char>)
    ensures
        r@ == feat_marker(),
{
    let mut v: Vec<char> = Vec::new();
    v.push('f');
    v.push('e');
    v.push('a');
    v.push('t');
    v.push(':');
    proof {
        assert(v@ =~= feat_marker());
    }
    v
}

/// The fix marker as characters.
fn fix_needle() -> (r: Vec<char>)
    ensures
        r@ == fix_marker(),
{
    let mut v: Vec<char> = Vec::new();
    v.push('f');
    v.push('i');
    v.push('x');
    v.push(':');
    proof {
        assert(v@ =~= fix_marker());
    }
    v
}

/// Classifies a message, checking the release-marker prefix first, then the
/// feature marker, then the fix marker.
pub fn classify_message(message: &str, release_prefix: &str) -> (r: ChangeType)
    ensures
        r == classify_spec(message@, release_prefix@),
{
    let msg = chars_of(message);
    let prefix = chars_of(release_prefix);
    classify_chars(&msg, &prefix)
}

/// Classifies a message given as characters.
pub fn classify_chars(message: &Vec<char>, release_prefix: &Vec<char>) -> (r: ChangeType)
    ensures
        r == classify_spec(message@, release_prefix@),
{
    if contains_chars(message, release_prefix) {
        ChangeType::Version
    } else if contains_chars(message, &feat_needle()) {
        ChangeType::Feature
    } else if contains_chars(message, &fix_needle()) {
        ChangeType::Fix
    } else {
        ChangeType::Unknown
    }
}

/// The substitution table as character sequences.
pub open spec fn subs_view(subs: Seq<(String, String)>) -> Seq<(Seq<char>, Seq<char>)> {
    subs.map_values(|p: (String, String)| (p.0@, p.1@))
}

/// `s` after each substitution of the table has been applied in order.
pub open spec fn apply_subs(s: Seq<char>, subs: Seq<(Seq<char>, Seq<char>)>) -> Seq<char>
    decreases subs.len(),
{
    if subs.len() == 0 {
        s
    } else {
        apply_subs(replace_all(s, subs[0].0, subs[0].1), subs.drop_first())
    }
}

/// Applies each substitution of the table to `s`, in table order.
pub fn apply_substitutions(s: &Vec<char>, subs: &Vec<(String, String)>) -> (r: Vec<char>)
    ensures
        r@ == apply_subs(s@, subs_view(subs@)),
{
    let ghost m = subs_view(subs@);
    let mut cur = copy_chars(s);
    let mut i: usize = 0;
    proof {
        assert(m.skip(0) =~= m);
    }
    while i < subs.len()
        invariant
            i <= subs@.len(),
            m == subs_view(subs@),
            apply_subs(s@, m) == apply_subs(cur@, m.skip(i as int)),
        decreases subs.len() - i,
    {
        let pat = chars_of(subs[i].0.as_str());
        let rep = chars_of(subs[i].1.as_str());
        proof {
            assert(m.skip(i as int)[0] == m[i as int]);
            assert(m[i as int] == (subs@[i as int].0@, subs@[i as int].1@));
            assert(m.skip(i as int).drop_first() =~= m.skip(i as int + 1));
        }
        cur = replace_all_chars(&cur, &pat, &rep);
        i += 1;
    }
    proof {
        assert(m.skip(i as int).len() == 0);
        assert(apply_subs(cur@, m.skip(i as int)) == cur@);
    }
    cur
}

/// The hosting-provider markers and path shapes for commit links.
pub open spec fn github_marker() -> Seq<char> {
    seq!['g', 'i', 't', 'h', 'u', 'b']
}

/// The marker of a Bitbucket-style repository URL.
pub open spec fn stash_marker() -> Seq<char> {
    seq!['s', 't', 'a', 's', 'h', '/', 'p', 'r', 'o', 'j', 'e', 'c', 't', 's']
}

/// The path segment a GitHub-style commit link uses.
pub open spec fn commit_segment() -> Seq<char> {
    seq!['/', 'c', 'o', 'm', 'm', 'i', 't', '/']
}

/// The path segment a Bitbucket-style commit link uses.
pub open spec fn commits_segment() -> Seq<char> {
    seq!['/', 'c', 'o', 'm', 'm', 'i', 't', 's', '/']
}

/// The commit URL derived from an optional base repository URL: trailing
/// slashes are stripped, a URL holding `github` links under `/commit/`, one
/// holding `stash/projects` links under `/commits/`, and any other base
/// yields no link.
pub open spec fn resolve_link_spec(repo: Option<Seq<char>>, commit_id: Seq<char>) -> Option<
    Seq<char>,
> {
    match repo {
        None => None,
        Some(r) => {
            let base = strip_trailing(r, '/');
            if contains_sub(base, github_marker()) {
                Some(base + commit_segment() + commit_id)
            } else if contains_sub(base, stash_marker()) {
                Some(base + commits_segment() + commit_id)
            } else {
                None
            }
        },
    }
}

/// The GitHub marker as characters.
fn github_needle() -> (r: Vec<char>)
    ensures
        r@ == github_marker(),
{
    let mut v: Vec<char> = Vec::new();
    v.push('g');
    v.push('i');
    v.push('t');
    v.push('h');
    v.push('u');
    v.push('b');
    proof {
        assert(v@ =~= github_marker());
    }
    v
}

/// The Bitbucket marker as characters.
fn stash_needle() -> (r: Vec<char>)
    ensures
        r@ == stash_marker(),
{
    let mut v: Vec<char> = Vec::new();
    v.push('s');
    v.push('t');
    v.push('a');
    v.push('s');
    v.push('h');
    v.push('/');
    v.push('p');
    v.push('r');
    v.push('o');
    v.push('j');
    v.push('e');
    v.push('c');
    v.push('t');
    v.push('s');
    proof {
        assert(v@ =~= stash_marker());
    }
    v
}

/// The `/commit/` path segment as characters.
fn commit_segment_chars() -> (r: Vec<char>)
    ensures
        r@ == commit_segment(),
{
    let mut v: Vec<char> = Vec::new();
    v.push('/');
    v.push('c');
    v.push('o');
    v.push('m');
    v.push('m');
    v.push('i');
    v.push('t');
    v.push('/');
    proof {
        assert(v@ =~= commit_segment());
    }
    v
}

/// The `/commits/` path segment as characters.
fn commits_segment_chars() -> (r: Vec<char>)
    ensures
        r@ == commits_segment(),
{
    let mut v: Vec<char> = Vec::new();
    v.push('/');
    v.push('c');
    v.push('o');
    v.push('m');
    v.push('m');
    v.push('i');
    v.push('t');
    v.push('s');
    v.push('/');
    proof {
        assert(v@ =~= commits_segment());
    }
    v
}

/// The first index at or after `from` where `pat` occurs in `s`; `None` when
/// it never does (or `from` is negative).
pub open spec fn find_from(s: Seq<char>, pat: Seq<char>, from: int) -> Option<int>
    decreases (if from <= s.len() + 1 {
        s.len() + 1 - from
    } else {
        0
    }),
{
    if from < 0 || from + pat.len() > s.len() {
        None
    } else if matches_at(s, pat, from) {
        Some(from)
    } else {
        find_from(s, pat, from + 1)
    }
}

proof fn lemma_find_from_props(s: Seq<char>, pat: Seq<char>, from: int)
    requires
        from >= 0,
    ensures
        match find_from(s, pat, from) {
            Some(i) => from <= i && matches_at(s, pat, i) && forall|k: int|
                from <= k < i ==> !matches_at(s, pat, k),
            None => forall|k: int| from <= k ==> !matches_at(s, pat, k),
        },
    decreases (if from <= s.len() + 1 {
        s.len() + 1 - from
    } else {
        0
    }),
{
    if from + pat.len() > s.len() {
        assert(forall|k: int| from <= k ==> !matches_at(s, pat, k));
    } else if matches_at(s, pat, from) {
    } else {
        lemma_find_from_props(s, pat, from + 1);
    }
}

/// Finds the first occurrence of `pat` in `v` at or after `from`, as
/// `find_from` denotes it.
pub fn find_tag(v: &Vec<char>, pat: &Vec<char>, from: usize) -> (r: Option<usize>)
    ensures
        r matches Some(i) ==> find_from(v@, pat@, from as int) == Some(i as int) && from <= i && i
            + pat@.len() <= v@.len(),
        r is None ==> find_from(v@, pat@, from as int) is None,
{
    let r = find_sub_from(v, pat, from);
    proof {
        lemma_find_from_props(v@, pat@, from as int);
        match r {
            Some(i) => {
                match find_from(v@, pat@, from as int) {
                    Some(i2) => {
                        if i2 < i as int {
                            assert(!matches_at(v@, pat@, i2));
                            assert(false);
                        }
                        if i2 > i as int {
                            assert(!matches_at(v@, pat@, i as int));
                            assert(false);
                        }
                    },
                    None => {
                        assert(!matches_at(v@, pat@, i as int));
                        assert(false);
                    },
                }
            },
            None => {
                match find_from(v@, pat@, from as int) {
                    Some(i2) => {
                        assert(!matches_at(v@, pat@, i2));
                        assert(false);
                    },
                    None => {},
                }
            },
        }
    }
    r
}

/// The field tag that opens the commit id.
pub open spec fn commit_id_tag() -> Seq<char> {
    seq!['C', 'O', 'M', 'M', 'I', 'T', '_', 'I', 'D', ':']
}

/// The field tag that opens the author.
pub open spec fn author_tag() -> Seq<char> {
    seq!['A', 'U', 'T', 'H', 'O', 'R', ':']
}

/// The field tag that opens the subject line.
pub open spec fn message_tag() -> Seq<char> {
    seq!['M', 'E', 'S', 'S', 'A', 'G', 'E', ':']
}

/// The field tag that opens the commit date.
pub open spec fn date_tag() -> Seq<char> {
    seq!['D', 'A', 'T', 'E', ':']
}

/// The literal that closes the date field on every history line.
pub open spec fn iso_flag() -> Seq<char> {
    seq!['-', '-', 'd', 'a', 't', 'e', '=', 'i', 's', 'o', '-', 's', 't', 'r', 'i', 'c', 't']
}

/// The commit-id tag as characters.
fn commit_id_tag_chars() -> (r: Vec<char>)
    ensures
        r@ == commit_id_tag(),
{
    let mut v: Vec<char> = Vec::new();
    v.push('C');
    v.push('O');
    v.push('M');
    v.push('M');
    v.push('I');
    v.push('T');
    v.push('_');
    v.push('I');
    v.push('D');
    v.push(':');
    proof {
        assert(v@ =~= commit_id_tag());
    }
    v
}

/// The author tag as characters.
fn author_tag_chars() -> (r: Vec<char>)
    ensures
        r@ == author_tag(),
{
    let mut v: Vec<char> = Vec::new();
    v.push('A');
    v.push('U');
    v.push('T');
    v.push('H');
    v.push('O');
    v.push('R');
    v.push(':');
    proof {
        assert(v@ =~= author_tag());
    }
    v
}

/// The message tag as characters.
fn message_tag_chars() -> (r: Vec<char>)
    ensures
        r@ == message_tag(),
{
    let mut v: Vec<char> = Vec::new();
    v.push('M');
    v.push('E');
    v.push('S');
    v.push('S');
    v.push('A');
    v.push('G');
    v.push('E');
    v.push(':');
    proof {
        assert(v@ =~= message_tag());
    }
    v
}

/// The date tag as characters.
fn date_tag_chars() -> (r: Vec<char>)
    ensures
        r@ == date_tag(),
{
    let mut v: Vec<char> = Vec::new();
    v.push('D');
    v.push('A');
    v.push('T');
    v.push('E');
    v.push(':');
    proof {
        assert(v@ =~= date_tag());
    }
    v
}

/// The date-flag terminator as characters.
fn iso_flag_chars() -> (r: Vec<char>)
    ensures
        r@ == iso_flag(),
{
    let mut v: Vec<char> = Vec::new();
    v.push('-');
    v.push('-');
    v.push('d');
    v.push('a');
    v.push('t');
    v.push('e');
    v.push('=');
    v.push('i');
    v.push('s');
    v.push('o');
    v.push('-');
    v.push('s');
    v.push('t');
    v.push('r');
    v.push('i');
    v.push('c');
    v.push('t');
    proof {
        assert(v@ =~= iso_flag());
    }
    v
}

/// The record a history line denotes, or the error that aborts the run: the
/// five tags must occur in order; the id, author and date fields are trimmed;
/// the message is normalized through the substitution table, trimmed and
/// classified; the link comes from the configured base URL.
pub open spec fn parse_line_spec(
    line: Seq<char>,
    release_prefix: Seq<char>,
    subs: Seq<(Seq<char>, Seq<char>)>,
    repo: Option<Seq<char>>,
) -> Result<ChangeModel, ChangelogError> {
    match find_from(line, commit_id_tag(), 0) {
        None => Err(ChangelogError::MalformedLogLine),
        Some(p0) => {
            let a = p0 + commit_id_tag().len();
            match find_from(line, author_tag(), a) {
                None => Err(ChangelogError::MalformedLogLine),
                Some(p1) => {
                    let commit_id = trim_spec(line.subrange(a, p1));
                    let b = p1 + author_tag().len();
                    match find_from(line, message_tag(), b) {
                        None => Err(ChangelogError::MalformedLogLine),
                        Some(p2) => {
                            let author = trim_spec(line.subrange(b, p2));
                            let c = p2 + message_tag().len();
                            match find_from(line, date_tag(), c) {
                                None => Err(ChangelogError::MalformedLogLine),
                                Some(p3) => {
                                    let message = trim_spec(
                                        apply_subs(line.subrange(c, p3), subs),
                                    );
                                    let d = p3 + date_tag().len();
                                    match find_from(line, iso_flag(), d) {
                                        None => Err(ChangelogError::MalformedLogLine),
                                        Some(p4) => {
                                            let date_str = trim_spec(line.subrange(d, p4));
                                            match iso_spec(date_str) {
                                                None => Err(ChangelogError::MalformedTimestamp),
                                                Some(ts) => Ok(
                                                    ChangeModel {
                                                        message,
                                                        commit_id,
                                                        link: resolve_link_spec(repo, commit_id),
                                                        author,
                                                        change_type: classify_spec(
                                                            message,
                                                            release_prefix,
                                                        ),
                                                        date: ts,
                                                    },
                                                ),
                                            }
                                        },
                                    }
                                },
                            }
                        },
                    }
                },
            }
        },
    }
}

/// Parses one history line into a commit record, exactly as
/// `parse_line_spec` denotes.
pub fn parse_log_line(line: &Vec<char>, rules: &ClassifierRules, repo: &Option<String>) -> (r:
    Result<Change, ChangelogError>)
    ensures
        ({
            let sp = parse_line_spec(
                line@,
                rules.release_prefix@,
                subs_view(rules.substitutions@),
                opt_str_view(*repo),
            );
            match r {
                Ok(c) => sp == Ok::<ChangeModel, ChangelogError>(c@) && c.wf(),
                Err(e) => sp == Err::<ChangeModel, ChangelogError>(e),
            }
        }),
{
    let n = line.len();
    let p0 = match find_tag(line, &commit_id_tag_chars(), 0) {
        Some(p) => p,
        None => {
            return Err(ChangelogError::MalformedLogLine);
        },
    };
    let a = p0 + 10;
    let p1 = match find_tag(line, &author_tag_chars(), a) {
        Some(p) => p,
        None => {
            return Err(ChangelogError::MalformedLogLine);
        },
    };
    let commit_id = trim_chars(&slice_chars(line, a, p1));
    let b = p1 + 7;
    let p2 = match find_tag(line, &message_tag_chars(), b) {
        Some(p) => p,
        None => {
            return Err(ChangelogError::MalformedLogLine);
        },
    };
    let author = trim_chars(&slice_chars(line, b, p2));
    let c = p2 + 8;
    let p3 = match find_tag(line, &date_tag_chars(), c) {
        Some(p) => p,
        None => {
            return Err(ChangelogError::MalformedLogLine);
        },
    };
    let message = trim_chars(&apply_substitutions(&slice_chars(line, c, p3), &rules.substitutions));
    let d = p3 + 5;
    let p4 = match find_tag(line, &iso_flag_chars(), d) {
        Some(p) => p,
        None => {
            return Err(ChangelogError::MalformedLogLine);
        },
    };
    let date_str = trim_chars(&slice_chars(line, d, p4));
    let ts = match parse_iso_timestamp(&date_str) {
        Some(ts) => ts,
        None => {
            return Err(ChangelogError::MalformedTimestamp);
        },
    };
    let prefix_chars = chars_of(rules.release_prefix.as_str());
    let change_type = classify_chars(&message, &prefix_chars);
    let link = resolve_link(repo, &commit_id);
    let record = Change {
        message: string_from_chars(&message),
        commit_id: string_from_chars(&commit_id),
        link,
        author: string_from_chars(&author),
        change_type,
        date: ts,
    };
    proof {
        assert(record@ =~= parse_line_spec(
            line@,
            rules.release_prefix@,
            subs_view(rules.substitutions@),
            opt_str_view(*repo),
        ).unwrap());
    }
    Ok(record)
}

/// The views of the raw history lines.
pub open spec fn lines_view(lines: Seq<String>) -> Seq<Seq<char>> {
    lines.map_values(|s: String| s@)
}

/// The records a raw history feed denotes, in feed order: empty lines are
/// skipped, and the first malformed line aborts the run.
pub open spec fn parse_lines_spec(
    lines: Seq<Seq<char>>,
    release_prefix: Seq<char>,
    subs: Seq<(Seq<char>, Seq<char>)>,
    repo: Option<Seq<char>>,
) -> Result<Seq<ChangeModel>, ChangelogError>
    decreases lines.len(),
{
    if lines.len() == 0 {
        Ok(Seq::empty())
    } else if lines[0].len() == 0 {
        parse_lines_spec(lines.drop_first(), release_prefix, subs, repo)
    } else {
        match parse_line_spec(lines[0], release_prefix, subs, repo) {
            Err(e) => Err(e),
            Ok(m) => match parse_lines_spec(lines.drop_first(), release_prefix, subs, repo) {
                Err(e) => Err(e),
                Ok(rest) => Ok(seq![m] + rest),
            },
        }
    }
}

/// Parses every history line, skipping empty ones and aborting on the first
/// malformed one, exactly as `parse_lines_spec` denotes.
pub fn parse_log_lines(lines: &Vec<String>, rules: &ClassifierRules, repo: &Option<String>) -> (r:
    Result<Vec<Change>, ChangelogError>)
    ensures
        ({
            let sp = parse_lines_spec(
                lines_view(lines@),
                rules.release_prefix@,
                subs_view(rules.substitutions@),
                opt_str_view(*repo),
            );
            match r {
                Ok(v) => sp == Ok::<Seq<ChangeModel>, ChangelogError>(models(v@)) && forall|k: int|
                    0 <= k < v@.len() ==> (#[trigger] v@[k]).wf(),
                Err(e) => sp == Err::<Seq<ChangeModel>, ChangelogError>(e),
            }
        }),
{
    let ghost lv = lines_view(lines@);
    let ghost prefix = rules.release_prefix@;
    let ghost subs = subs_view(rules.substitutions@);
    let ghost rv = opt_str_view(*repo);
    let n = lines.len();
    let mut acc: Vec<Change> = Vec::new();
    let mut i: usize = 0;
    proof {
        assert(lv.skip(0) =~= lv);
        assert(models(acc@) =~= Seq::<ChangeModel>::empty());
    }
    while i < n
        invariant
            i <= n,
            n == lv.len(),
            lv == lines_view(lines@),
            prefix == rules.release_prefix@,
            subs == subs_view(rules.substitutions@),
            rv == opt_str_view(*repo),
            forall|k: int| 0 <= k < acc@.len() ==> (#[trigger] acc@[k]).wf(),
            parse_lines_spec(lv, prefix, subs, rv) == match parse_lines_spec(
                lv.skip(i as int),
                prefix,
                subs,
                rv,
            ) {
                Ok(rest) => Ok::<Seq<ChangeModel>, ChangelogError>(models(acc@) + rest),
                Err(e) => Err::<Seq<ChangeModel>, ChangelogError>(e),
            },
        decreases n - i,
    {
        let lc = chars_of(lines[i].as_str());
        proof {
            assert(lc@ == lv[i as int]);
            assert(lv.skip(i as int)[0] == lv[i as int]);
            assert(lv.skip(i as int).drop_first() =~= lv.skip(i as int + 1));
        }
        if lc.len() > 0 {
            match parse_log_line(&lc, rules, repo) {
                Ok(c) => {
                    let ghost before = models(acc@);
                    acc.push(c);
                    proof {
                        assert(models(acc@) =~= before.push(c@));
                        assert(before.push(c@) =~= before + seq![c@]);
                        match parse_lines_spec(lv.skip(i as int + 1), prefix, subs, rv) {
                            Ok(rest) => {
                                assert((before + seq![c@]) + rest =~= before + (seq![c@] + rest));
                            },
                            Err(_) => {},
                        }
                    }
                },
                Err(e) => {
                    return Err(e);
                },
            }
        }
        i += 1;
    }
    proof {
        assert(lv.skip(n as int).len() == 0);
        assert(models(acc@) + Seq::<ChangeModel>::empty() =~= models(acc@));
    }
    Ok(acc)
}

/// The release markers of `ms`, in input order.
pub open spec fn releases_of(ms: Seq<ChangeModel>) -> Seq<ChangeModel>
    decreases ms.len(),
{
    if ms.len() == 0 {
        Seq::empty()
    } else {
        let init = releases_of(ms.drop_last());
        if ms.last().change_type is Version {
            init.push(ms.last())
        } else {
            init
        }
    }
}

/// The ordinary (feature and fix) changes of `ms`, in input order; release
/// markers and unclassified records are excluded.
pub open spec fn ordinary_of(ms: Seq<ChangeModel>) -> Seq<ChangeModel>
    decreases ms.len(),
{
    if ms.len() == 0 {
        Seq::empty()
    } else {
        let init = ordinary_of(ms.drop_last());
        if ms.last().change_type is Feature || ms.last().change_type is Fix {
            init.push(ms.last())
        } else {
            init
        }
    }
}

/// Splits the parsed records into release markers and ordinary changes,
/// dropping unclassified records.
fn partition_records(parsed: Vec<Change>) -> (r: (Vec<Change>, Vec<Change>))
    requires
        forall|k: int| 0 <= k < parsed@.len() ==> (#[trigger] parsed@[k]).wf(),
    ensures
        models(r.0@) == releases_of(models(parsed@)),
        models(r.1@) == ordinary_of(models(parsed@)),
        forall|k: int| 0 <= k < r.0@.len() ==> (#[trigger] r.0@[k]).wf(),
        forall|k: int| 0 <= k < r.1@.len() ==> (#[trigger] r.1@[k]).wf(),
{
    let ghost pm = models(parsed@);
    let mut rels: Vec<Change> = Vec::new();
    let mut ords: Vec<Change> = Vec::new();
    let mut rest = parsed;
    let ghost idx: int = 0;
    proof {
        assert(models(rels@) =~= releases_of(pm.take(0)));
        assert(models(ords@) =~= ordinary_of(pm.take(0)));
    }
    while rest.len() > 0
        invariant
            0 <= idx <= pm.len(),
            pm == models(parsed@),
            rest@ == parsed@.skip(idx),
            forall|k: int| 0 <= k < parsed@.len() ==> (#[trigger] parsed@[k]).wf(),
            forall|k: int| 0 <= k < rels@.len() ==> (#[trigger] rels@[k]).wf(),
            forall|k: int| 0 <= k < ords@.len() ==> (#[trigger] ords@[k]).wf(),
            models(rels@) == releases_of(pm.take(idx)),
            models(ords@) == ordinary_of(pm.take(idx)),
        decreases rest@.len(),
    {
        let c = rest.remove(0);
        proof {
            assert(c == parsed@[idx]);
            assert(rest@ =~= parsed@.skip(idx + 1));
            assert(pm.take(idx + 1).drop_last() =~= pm.take(idx));
            assert(pm.take(idx + 1).last() == pm[idx]);
        }
        let ghost rels_before = models(rels@);
        let ghost ords_before = models(ords@);
        match c.change_type {
            ChangeType::Version => {
                rels.push(c);
                proof {
                    assert(models(rels@) =~= rels_before.push(pm[idx]));
                }
            },
            ChangeType::Feature => {
                ords.push(c);
                proof {
                    assert(models(ords@) =~= ords_before.push(pm[idx]));
                }
            },
            ChangeType::Fix => {
                ords.push(c);
                proof {
                    assert(models(ords@) =~= ords_before.push(pm[idx]));
                }
            },
            ChangeType::Unknown => {},
        }
        proof {
            idx = idx + 1;
        }
    }
    proof {
        assert(pm.take(idx) =~= pm);
    }
    (rels, ords)
}

/// The synthetic pending release marker: the version about to be stamped,
/// not yet in history, carried under the sentinel id `HEAD` at the current
/// wall-clock time.
pub open spec fn pending_model(prefix: Seq<char>, version: Version, now: Timestamp) -> ChangeModel {
    ChangeModel {
        message: prefix + version_string(version),
        commit_id: "HEAD"@,
        link: None,
        author: "GitScribe"@,
        change_type: ChangeType::Version,
        date: now,
    }
}

/// Builds the synthetic pending release marker.
fn make_pending(rules: &ClassifierRules, version: &Version, now: Timestamp) -> (c: Change)
    requires
        version.wf(),
        now.wf(),
    ensures
        c@ == pending_model(rules.release_prefix@, *version, now),
        c.wf(),
{
    let mut msg = chars_of(rules.release_prefix.as_str());
    let vstr = version.to_version_string();
    let vchars = chars_of(vstr.as_str());
    append_chars(&mut msg, &vchars);
    let c = Change {
        message: string_from_chars(&msg),
        commit_id: "HEAD".to_owned(),
        link: None,
        author: "GitScribe".to_owned(),
        change_type: ChangeType::Version,
        date: now,
    };
    proof {
        assert(c@ =~= pending_model(rules.release_prefix@, *version, now));
    }
    c
}

/// What the engine's entry point denotes, given the wall-clock time `now`:
/// parse and classify the feed, split off the release markers, append the
/// pending marker, and bucket the ordinary changes.
pub open spec fn get_changes_spec(
    lines: Seq<Seq<char>>,
    release_prefix: Seq<char>,
    subs: Seq<(Seq<char>, Seq<char>)>,
    repo: Option<Seq<char>>,
    version: Version,
    now: Timestamp,
) -> Result<Seq<(Seq<char>, Seq<ChangeModel>)>, ChangelogError> {
    match parse_lines_spec(lines, release_prefix, subs, repo) {
        Err(e) => Err(e),
        Ok(ms) => bucket_spec(
            releases_of(ms).push(pending_model(release_prefix, version, now)),
            ordinary_of(ms),
        ),
    }
}

/// The version about to be stamped is always a key of the output: bucketing
/// the real releases together with the pending marker built from `prefix`
/// and `version` yields a mapping holding the rendered version as a key,
/// whatever the stamp time.  (A prefix ending in a digit would lengthen the
/// extracted match and is excluded, as in the round-trip law.)
pub proof fn lemma_pending_version_is_a_key(
    releases: Seq<ChangeModel>,
    changes: Seq<ChangeModel>,
    g: Seq<(Seq<char>, Seq<ChangeModel>)>,
    prefix: Seq<char>,
    version: Version,
    now: Timestamp,
)
    requires
        bucket_spec(releases.push(pending_model(prefix, version, now)), changes) == Ok::<
            Seq<(Seq<char>, Seq<ChangeModel>)>,
            ChangelogError,
        >(g),
        version.wf(),
        prefix.len() == 0 || !crate::timestamp::is_digit(prefix.last()),
    ensures
        exists|k: int| 0 <= k < g.len() && (#[trigger] g[k].0) == version_string(version),
{
    let rm2 = releases.push(pending_model(prefix, version, now));
    let last = rm2.len() - 1;
    lemma_bucket_completeness(rm2, changes, g);
    lemma_version_roundtrip(prefix, version);
    assert(rm2[last] == pending_model(prefix, version, now));
    assert(version_suffix(rm2[last].message) == Some(version_string(version)));
    let k = choose|k: int|
        0 <= k < g.len() && (#[trigger] g[k].0) == version_suffix(rm2[last].message).unwrap();
    assert(g[k].0 == version_string(version));
}

/// The engine's entry point: turns the raw history feed into the
/// version-keyed, newest-first mapping of change lists, or aborts with the
/// first fatal error.  The result is exactly `get_changes_spec` at the
/// wall-clock time the pending marker was stamped with; the parse errors and
/// `MissingVersionSuffix` do not depend on that stamp, and are pinned
/// unconditionally.
pub fn get_changes(
    config: &Config,
    version: &Version,
    lines: &Vec<String>,
    rules: &ClassifierRules,
) -> (r: Result<ChangeGroup, ChangelogError>)
    requires
        version.wf(),
    ensures
        exists|t: Timestamp|
            #[trigger] t.wf() && ({
                let sp = get_changes_spec(
                    lines_view(lines@),
                    rules.release_prefix@,
                    subs_view(rules.substitutions@),
                    opt_str_view(config.project_repo),
                    *version,
                    t,
                );
                match r {
                    Ok(g) => sp == Ok::<Seq<(Seq<char>, Seq<ChangeModel>)>, ChangelogError>(g@),
                    Err(e) => sp == Err::<Seq<(Seq<char>, Seq<ChangeModel>)>, ChangelogError>(e),
                }
            }),
        r matches Ok(g) ==> g.wf(),
        parse_lines_spec(
            lines_view(lines@),
            rules.release_prefix@,
            subs_view(rules.substitutions@),
            opt_str_view(config.project_repo),
        ) matches Err(e) ==> r == Err::<ChangeGroup, ChangelogError>(e),
        parse_lines_spec(
            lines_view(lines@),
            rules.release_prefix@,
            subs_view(rules.substitutions@),
            opt_str_view(config.project_repo),
        ) matches Ok(ms) ==> (r == Err::<ChangeGroup, ChangelogError>(
            ChangelogError::MissingVersionSuffix,
        ) <==> !versions_ok(releases_of(ms))),
{
    let ghost lv = lines_view(lines@);
    let ghost prefix = rules.release_prefix@;
    let ghost subs = subs_view(rules.substitutions@);
    let ghost rv = opt_str_view(config.project_repo);
    let parsed = match parse_log_lines(lines, rules, &config.project_repo) {
        Ok(p) => p,
        Err(e) => {
            proof {
                let w = Timestamp {
                    year: 2000,
                    month: 1,
                    day: 1,
                    hour: 0,
                    minute: 0,
                    second: 0,
                    offset_minutes: 0,
                };
                assert(w.wf() && get_changes_spec(lv, prefix, subs, rv, *version, w) == Err::<
                    Seq<(Seq<char>, Seq<ChangeModel>)>,
                    ChangelogError,
                >(e));
            }
            return Err(e);
        },
    };
    let ghost ms = models(parsed@);
    let (mut rels, ords) = partition_records(parsed);
    let now = now_timestamp();
    let pending = make_pending(rules, version, now);
    let ghost rels_before = models(rels@);
    rels.push(pending);
    proof {
        assert(models(rels@) =~= rels_before.push(pending@));
        assert(models(rels@) == releases_of(ms).push(pending_model(prefix, *version, now)));
    }
    let res = bucket_changes(rels, ords);
    proof {
        let pm = pending_model(prefix, *version, now);
        let rm2 = releases_of(ms).push(pm);
        let cm2 = ordinary_of(ms);
        assert(version_suffix(pm.message) is Some) by {
            crate::version::lemma_version_string_semver(*version);
            let vs = version_string(*version);
            let start = prefix.len() as int;
            assert(pm.message.skip(start) =~= vs);
            lemma_version_suffix_exists(pm.message, 0, start);
        }
        assert(versions_ok(rm2) <==> versions_ok(releases_of(ms))) by {
            if versions_ok(releases_of(ms)) {
                assert forall|k: int| 0 <= k < rm2.len() implies version_suffix(
                    (#[trigger] rm2[k]).message,
                ) is Some by {
                    if k < releases_of(ms).len() {
                        assert(rm2[k] == releases_of(ms)[k]);
                    } else {
                        assert(rm2[k] == pm);
                    }
                }
            }
            if versions_ok(rm2) {
                assert forall|k: int| 0 <= k < releases_of(ms).len() implies version_suffix(
                    (#[trigger] releases_of(ms)[k]).message,
                ) is Some by {
                    assert(rm2[k] == releases_of(ms)[k]);
                }
            }
        }
        if versions_ok(rm2) {
            lemma_assign_no_missing(seed_groups(ssort(rm2)), ssort(rm2), cm2);
        }
        let resg = res;
        match resg {
            Ok(g) => {
                assert(now.wf() && get_changes_spec(lv, prefix, subs, rv, *version, now) == Ok::<
                    Seq<(Seq<char>, Seq<ChangeModel>)>,
                    ChangelogError,
                >(g@));
            },
            Err(e) => {
                assert(now.wf() && get_changes_spec(lv, prefix, subs, rv, *version, now) == Err::<
                    Seq<(Seq<char>, Seq<ChangeModel>)>,
                    ChangelogError,
                >(e));
            },
        }
    }
    res
}

/// Resolves the commit link for `commit_id` under the configured base URL.
pub fn resolve_link(repo: &Option<String>, commit_id: &Vec<char>) -> (r: Option<String>)
    ensures
        opt_str_view(r) == resolve_link_spec(opt_str_view(*repo), commit_id@),
{
    match repo {
        None => None,
        Some(rs) => {
            let base0 = chars_of(rs.as_str());
            let base = strip_trailing_chars(&base0, '/');
            if contains_chars(&base, &github_needle()) {
                let mut out = copy_chars(&base);
                append_chars(&mut out, &commit_segment_chars());
                append_chars(&mut out, commit_id);
                Some(string_from_chars(&out))
            } else if contains_chars(&base, &stash_needle()) {
                let mut out = copy_chars(&base);
                append_chars(&mut out, &commits_segment_chars());
                append_chars(&mut out, commit_id);
                Some(string_from_chars(&out))
            } else {
                None
            }
        },
    }
}

} // verus!
