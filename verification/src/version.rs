//! Semantic versions: the `MAJOR.MINOR.PATCH` grammar, a verified parser and
//! renderer for it, and the version-bump operation.

use vstd::prelude::*;
use crate::config::Config;
use crate::timestamp::digit_val;
use crate::timestamp::digit_val_exec;
use crate::timestamp::is_digit;
use crate::timestamp::is_digit_exec;

verus! {

/// Which component of a version a bump raises.
#[derive(Clone, Copy, Debug)]
pub enum VersionDesignation {
    Major,
    Minor,
    Patch,
}

/// A semantic version, held as its three numeric components.
#[derive(Clone, Copy, Debug, PartialEq, Eq, Structural)]
pub struct Version {
    pub major: i32,
    pub minor: i32,
    pub patch: i32,
}

/// True when every character of `s` is a decimal digit.
pub open spec fn all_digits(s: Seq<char>) -> bool {
    forall|i: int| 0 <= i < s.len() ==> is_digit(s[i])
}

/// Numeric value of a digit string read left to right.
pub open spec fn dec_value(s: Seq<char>) -> int
    decreases s.len(),
{
    if s.len() == 0 {
        0
    } else {
        dec_value(s.drop_last()) * 10 + digit_val(s.last())
    }
}

/// Splits `s` at its first `.`, when it has one.
pub open spec fn split_on_dot(s: Seq<char>) -> Option<(Seq<char>, Seq<char>)>
    decreases s.len(),
{
    if s.len() == 0 {
        None
    } else if s[0] == '.' {
        Some((Seq::empty(), s.drop_first()))
    } else {
        match split_on_dot(s.drop_first()) {
            Some((a, b)) => Some((seq![s[0]] + a, b)),
            None => None,
        }
    }
}

/// The three numeric components of `s` when the whole of `s` matches
/// `MAJOR.MINOR.PATCH` (each a nonempty run of digits), and nothing otherwise.
pub open spec fn semver_triple(s: Seq<char>) -> Option<(int, int, int)> {
    match split_on_dot(s) {
        Some((a, rest)) => match split_on_dot(rest) {
            Some((b, c)) => if a.len() > 0 && b.len() > 0 && c.len() > 0 && all_digits(a)
                && all_digits(b) && all_digits(c) {
                Some((dec_value(a), dec_value(b), dec_value(c)))
            } else {
                None
            },
            None => None,
        },
        None => None,
    }
}

/// True when the whole of `s` matches the version grammar.
pub open spec fn semver_ok(s: Seq<char>) -> bool {
    semver_triple(s) is Some
}

/// True when `s` matches the version grammar and each component fits an `i32`.
pub open spec fn semver_fits(s: Seq<char>) -> bool {
    match semver_triple(s) {
        Some(t) => t.0 <= i32::MAX && t.1 <= i32::MAX && t.2 <= i32::MAX,
        None => false,
    }
}

proof fn lemma_split_at_dot(s: Seq<char>, k: int)
    requires
        0 <= k < s.len(),
        s[k] == '.',
        forall|t: int| 0 <= t < k ==> s[t] != '.',
    ensures
        split_on_dot(s) == Some((s.subrange(0, k), s.skip(k + 1))),
    decreases k,
{
    if k == 0 {
        assert(s.subrange(0, 0) =~= Seq::<char>::empty());
        assert(s.drop_first() =~= s.skip(1));
    } else {
        let s1 = s.drop_first();
        assert(s1[k - 1] == '.');
        assert(forall|t: int| 0 <= t < k - 1 ==> s1[t] == s[t + 1] && s[t + 1] != '.');
        lemma_split_at_dot(s1, k - 1);
        assert(seq![s[0]] + s1.subrange(0, k - 1) =~= s.subrange(0, k));
        assert(s1.skip(k) =~= s.skip(k + 1));
    }
}

proof fn lemma_split_no_dot(s: Seq<char>)
    requires
        forall|t: int| 0 <= t < s.len() ==> s[t] != '.',
    ensures
        split_on_dot(s) is None,
    decreases s.len(),
{
    if s.len() > 0 {
        let s1 = s.drop_first();
        assert(forall|t: int| 0 <= t < s1.len() ==> s1[t] == s[t + 1] && s[t + 1] != '.');
        lemma_split_no_dot(s1);
    }
}

proof fn lemma_dec_value_nonneg(s: Seq<char>)
    requires
        all_digits(s),
    ensures
        dec_value(s) >= 0,
    decreases s.len(),
{
    if s.len() > 0 {
        assert(all_digits(s.drop_last())) by {
            assert(forall|i: int| 0 <= i < s.len() - 1 ==> s.drop_last()[i] == s[i]);
        }
        lemma_dec_value_nonneg(s.drop_last());
    }
}

proof fn lemma_dec_value_prefix(s: Seq<char>, i: int)
    requires
        all_digits(s),
        0 <= i <= s.len(),
    ensures
        dec_value(s) >= dec_value(s.subrange(0, i)),
    decreases s.len() - i,
{
    if i == s.len() {
        assert(s.subrange(0, i) =~= s);
    } else {
        assert(s.subrange(0, i + 1).drop_last() =~= s.subrange(0, i));
        assert(s.subrange(0, i + 1).last() == s[i]);
        assert(all_digits(s.subrange(0, i))) by {
            assert(forall|t: int| 0 <= t < i ==> s.subrange(0, i)[t] == s[t]);
        }
        lemma_dec_value_nonneg(s.subrange(0, i));
        assert(dec_value(s.subrange(0, i + 1)) >= dec_value(s.subrange(0, i)));
        lemma_dec_value_prefix(s, i + 1);
    }
}

proof fn lemma_split_inverse(s: Seq<char>)
    requires
        split_on_dot(s) is Some,
    ensures
        ({
            let p = split_on_dot(s).unwrap();
            &&& s == p.0 + seq!['.'] + p.1
            &&& forall|k: int| 0 <= k < p.0.len() ==> p.0[k] != '.'
        }),
    decreases s.len(),
{
    if s[0] == '.' {
        assert(s =~= Seq::<char>::empty() + seq!['.'] + s.drop_first());
    } else {
        let s1 = s.drop_first();
        lemma_split_inverse(s1);
        let p1 = split_on_dot(s1).unwrap();
        assert(s1 =~= p1.0 + seq!['.'] + p1.1);
        assert(s =~= seq![s[0]] + s1);
        assert(s =~= (seq![s[0]] + p1.0) + seq!['.'] + p1.1);
        assert(forall|k: int|
            0 <= k < (seq![s[0]] + p1.0).len() ==> (seq![s[0]] + p1.0)[k] == (if k == 0 {
                s[0]
            } else {
                p1.0[k - 1]
            }));
    }
}

/// How many dots `s` holds.
pub open spec fn count_dots(s: Seq<char>) -> int
    decreases s.len(),
{
    if s.len() == 0 {
        0
    } else {
        count_dots(s.drop_first()) + (if s[0] == '.' {
            1int
        } else {
            0int
        })
    }
}

pub proof fn lemma_count_dots_nonneg(s: Seq<char>)
    ensures
        count_dots(s) >= 0,
    decreases s.len(),
{
    if s.len() > 0 {
        lemma_count_dots_nonneg(s.drop_first());
    }
}

pub proof fn lemma_count_dots_concat(a: Seq<char>, b: Seq<char>)
    ensures
        count_dots(a + b) == count_dots(a) + count_dots(b),
    decreases a.len(),
{
    if a.len() == 0 {
        assert(a + b =~= b);
    } else {
        assert((a + b)[0] == a[0]);
        assert((a + b).drop_first() =~= a.drop_first() + b);
        lemma_count_dots_concat(a.drop_first(), b);
    }
}

proof fn lemma_count_dots_all_digits(s: Seq<char>)
    requires
        all_digits(s),
    ensures
        count_dots(s) == 0,
    decreases s.len(),
{
    if s.len() > 0 {
        assert(forall|k: int| 0 <= k < s.drop_first().len() ==> s.drop_first()[k] == s[k + 1]);
        lemma_count_dots_all_digits(s.drop_first());
    }
}

/// A string matching the version grammar holds only digits and dots.
pub proof fn lemma_semver_chars(t: Seq<char>)
    requires
        semver_ok(t),
    ensures
        forall|k: int| 0 <= k < t.len() ==> is_digit(#[trigger] t[k]) || t[k] == '.',
{
    let p = split_on_dot(t).unwrap();
    let a = p.0;
    let rest = p.1;
    lemma_split_inverse(t);
    let q = split_on_dot(rest).unwrap();
    let b = q.0;
    let c = q.1;
    lemma_split_inverse(rest);
    assert forall|k: int| 0 <= k < t.len() implies is_digit(#[trigger] t[k]) || t[k] == '.' by {
        if k < a.len() {
            assert(t[k] == a[k]);
        } else if k == a.len() {
            assert(t[k] == '.');
        } else {
            let k2 = k - a.len() - 1;
            assert(t[k] == rest[k2]);
            if k2 < b.len() {
                assert(rest[k2] == b[k2]);
            } else if k2 == b.len() {
                assert(rest[k2] == '.');
            } else {
                assert(rest[k2] == c[k2 - b.len() - 1]);
            }
        }
    }
}

/// A string matching the version grammar holds exactly two dots.
pub proof fn lemma_semver_dots(t: Seq<char>)
    requires
        semver_ok(t),
    ensures
        count_dots(t) == 2,
{
    let p = split_on_dot(t).unwrap();
    let a = p.0;
    let rest = p.1;
    lemma_split_inverse(t);
    let q = split_on_dot(rest).unwrap();
    let b = q.0;
    let c = q.1;
    lemma_split_inverse(rest);
    lemma_count_dots_all_digits(a);
    lemma_count_dots_all_digits(b);
    lemma_count_dots_all_digits(c);
    assert(count_dots(seq!['.']) == 1) by {
        assert(seq!['.'][0] == '.');
        assert(seq!['.'].drop_first() =~= Seq::<char>::empty());
        assert(count_dots(Seq::<char>::empty()) == 0);
    }
    lemma_count_dots_concat(a + seq!['.'], rest);
    lemma_count_dots_concat(a, seq!['.']);
    lemma_count_dots_concat(b + seq!['.'], c);
    lemma_count_dots_concat(b, seq!['.']);
    assert(t =~= (a + seq!['.']) + rest);
    assert(rest =~= (b + seq!['.']) + c);
}

/// Finds the first occurrence of `c` in `v` at or after index `from`.
pub fn find_char(v: &Vec<char>, c: char, from: usize) -> (r: Option<usize>)
    ensures
        r matches Some(i) ==> from <= i < v@.len() && v@[i as int] == c && forall|k: int|
            from <= k < i ==> v@[k] != c,
        r is None ==> forall|k: int| from <= k < v@.len() ==> v@[k] != c,
{
    let mut i: usize = from;
    while i < v.len()
        invariant
            from <= i,
            forall|k: int| from <= k < i ==> v@[k] != c,
        decreases v.len() - i,
    {
        if v[i] == c {
            return Some(i);
        }
        i += 1;
    }
    None
}

/// Checks that `v` holds only digits between `from` and `to`.
pub fn check_all_digits(v: &Vec<char>, from: usize, to: usize) -> (r: bool)
    requires
        from <= to <= v@.len(),
    ensures
        r == all_digits(v@.subrange(from as int, to as int)),
{
    let mut i: usize = from;
    while i < to
        invariant
            from <= i <= to <= v@.len(),
            forall|k: int| from <= k < i ==> is_digit(v@[k]),
        decreases to - i,
    {
        if !is_digit_exec(v[i]) {
            proof {
                assert(v@.subrange(from as int, to as int)[i - from] == v@[i as int]);
            }
            return false;
        }
        i += 1;
    }
    proof {
        assert(forall|k: int| 0 <= k < to - from ==> v@.subrange(from as int, to as int)[k] == v@[
            from + k
        ]);
    }
    true
}

/// Locates the two dots of a `MAJOR.MINOR.PATCH` string and relates them to
/// what `semver_triple` denotes.
fn semver_shape(v: &Vec<char>) -> (r: Option<(usize, usize)>)
    ensures
        r matches Some(p) ==> {
            let i = p.0 as int;
            let j = p.1 as int;
            &&& 1 <= i && i + 2 <= j && j + 2 <= v@.len()
            &&& all_digits(v@.subrange(0, i))
            &&& all_digits(v@.subrange(i + 1, j))
            &&& all_digits(v@.subrange(j + 1, v@.len() as int))
            &&& semver_triple(v@) == Some(
                (
                    dec_value(v@.subrange(0, i)),
                    dec_value(v@.subrange(i + 1, j)),
                    dec_value(v@.subrange(j + 1, v@.len() as int)),
                ),
            )
        },
        r is None ==> semver_triple(v@) is None,
{
    let n = v.len();
    let i = match find_char(v, '.', 0) {
        Some(i) => i,
        None => {
            proof {
                lemma_split_no_dot(v@);
            }
            return None;
        },
    };
    proof {
        lemma_split_at_dot(v@, i as int);
    }
    let ghost rest = v@.skip(i as int + 1);
    let j = match find_char(v, '.', i + 1) {
        Some(j) => j,
        None => {
            proof {
                assert(forall|t: int| 0 <= t < rest.len() ==> rest[t] == v@[i + 1 + t]);
                lemma_split_no_dot(rest);
            }
            return None;
        },
    };
    proof {
        assert(rest[j - i - 1] == '.');
        assert(forall|t: int| 0 <= t < j - i - 1 ==> rest[t] == v@[i + 1 + t] && v@[i + 1 + t]
            != '.');
        lemma_split_at_dot(rest, j - i - 1);
        assert(rest.subrange(0, j - i - 1) =~= v@.subrange(i as int + 1, j as int));
        assert(rest.skip(j - i) =~= v@.skip(j as int + 1));
        assert(v@.skip(j as int + 1) =~= v@.subrange(j as int + 1, v@.len() as int));
    }
    let da = check_all_digits(v, 0, i);
    let db = check_all_digits(v, i + 1, j);
    let dc = check_all_digits(v, j + 1, n);
    if i >= 1 && j - i >= 2 && n - j >= 2 && da && db && dc {
        Some((i, j))
    } else {
        None
    }
}

/// Decides whether the whole of `v` matches the version grammar.
pub fn check_semver(v: &Vec<char>) -> (r: bool)
    ensures
        r == semver_ok(v@),
{
    match semver_shape(v) {
        Some(_) => true,
        None => false,
    }
}

/// Reads the numeric value of the digit run of `v` between `from` and `to`;
/// `None` exactly when that value does not fit an `i32`.
fn parse_dec(v: &Vec<char>, from: usize, to: usize) -> (r: Option<u32>)
    requires
        from <= to <= v@.len(),
        all_digits(v@.subrange(from as int, to as int)),
    ensures
        r matches Some(x) ==> x == dec_value(v@.subrange(from as int, to as int)) && x
            <= i32::MAX,
        r is None ==> dec_value(v@.subrange(from as int, to as int)) > i32::MAX,
{
    let ghost s = v@.subrange(from as int, to as int);
    let mut val: u64 = 0;
    let mut i: usize = from;
    proof {
        assert(s.subrange(0, 0) =~= Seq::<char>::empty());
    }
    while i < to
        invariant
            from <= i <= to <= v@.len(),
            s == v@.subrange(from as int, to as int),
            all_digits(s),
            val == dec_value(s.subrange(0, i - from)),
            val <= i32::MAX,
        decreases to - i,
    {
        proof {
            assert(s[i - from] == v@[i as int]);
            assert(s.subrange(0, i - from + 1).drop_last() =~= s.subrange(0, i - from));
            assert(s.subrange(0, i - from + 1).last() == s[i - from]);
        }
        let d = digit_val_exec(v[i]);
        let next: u64 = val * 10 + d as u64;
        proof {
            assert(next == dec_value(s.subrange(0, i - from + 1)));
        }
        if next > i32::MAX as u64 {
            proof {
                lemma_dec_value_prefix(s, i - from + 1);
            }
            return None;
        }
        val = next;
        i += 1;
    }
    proof {
        assert(s.subrange(0, to - from) =~= s);
    }
    Some(val as u32)
}

/// Parses the whole of `v` as a `MAJOR.MINOR.PATCH` version; `None` exactly
/// when `v` does not match the grammar or a component overflows an `i32`.
pub fn parse_version(v: &Vec<char>) -> (r: Option<Version>)
    ensures
        r is Some <==> semver_fits(v@),
        r matches Some(ver) ==> semver_triple(v@) == Some(
            (ver.major as int, ver.minor as int, ver.patch as int),
        ) && ver.wf(),
{
    let n = v.len();
    let (i, j) = match semver_shape(v) {
        Some(p) => p,
        None => {
            return None;
        },
    };
    let major = match parse_dec(v, 0, i) {
        Some(x) => x,
        None => {
            return None;
        },
    };
    let minor = match parse_dec(v, i + 1, j) {
        Some(x) => x,
        None => {
            return None;
        },
    };
    let patch = match parse_dec(v, j + 1, n) {
        Some(x) => x,
        None => {
            return None;
        },
    };
    proof {
        lemma_dec_value_nonneg(v@.subrange(0, i as int));
        lemma_dec_value_nonneg(v@.subrange(i as int + 1, j as int));
        lemma_dec_value_nonneg(v@.subrange(j as int + 1, v@.len() as int));
    }
    Some(Version { major: major as i32, minor: minor as i32, patch: patch as i32 })
}

impl Version {
    /// Versions hold non-negative components.
    pub open spec fn wf(self) -> bool {
        self.major >= 0 && self.minor >= 0 && self.patch >= 0
    }

    /// Creates a version from its `MAJOR.MINOR.PATCH` string form.
    pub fn new(version: String) -> (r: Self)
        requires
            semver_fits(version@),
        ensures
            semver_triple(version@) == Some(
                (r.major as int, r.minor as int, r.patch as int),
            ),
            r.wf(),
    {
        let cs = crate::strutil::chars_of(version.as_str());
        match parse_version(&cs) {
            Some(ver) => ver,
            None => {
                proof {
                    assert(false);
                }
                Version { major: 0, minor: 0, patch: 0 }
            },
        }
    }
}

/// The digit character of a value between 0 and 9.
pub open spec fn digit_char(d: int) -> char {
    if d == 0 {
        '0'
    } else if d == 1 {
        '1'
    } else if d == 2 {
        '2'
    } else if d == 3 {
        '3'
    } else if d == 4 {
        '4'
    } else if d == 5 {
        '5'
    } else if d == 6 {
        '6'
    } else if d == 7 {
        '7'
    } else if d == 8 {
        '8'
    } else {
        '9'
    }
}

/// The decimal digit string of a non-negative value.
pub open spec fn dec_digits(n: int) -> Seq<char>
    decreases n,
{
    if n <= 9 {
        seq![digit_char(n)]
    } else {
        dec_digits(n / 10).push(digit_char(n % 10))
    }
}

/// The `MAJOR.MINOR.PATCH` string form of a version.
pub open spec fn version_string(v: Version) -> Seq<char> {
    dec_digits(v.major as int) + seq!['.'] + dec_digits(v.minor as int) + seq!['.'] + dec_digits(
        v.patch as int,
    )
}

/// The digit character of a small value.
fn digit_char_exec(d: u32) -> (r: char)
    requires
        d <= 9,
    ensures
        r == digit_char(d as int),
{
    if d == 0 {
        '0'
    } else if d == 1 {
        '1'
    } else if d == 2 {
        '2'
    } else if d == 3 {
        '3'
    } else if d == 4 {
        '4'
    } else if d == 5 {
        '5'
    } else if d == 6 {
        '6'
    } else if d == 7 {
        '7'
    } else if d == 8 {
        '8'
    } else {
        '9'
    }
}

/// Appends the decimal digits of `n` to `out`.
pub fn push_dec(out: &mut Vec<char>, n: u32) -> (u: ())
    ensures
        final(out)@ == old(out)@ + dec_digits(n as int),
    decreases n,
{
    if n <= 9 {
        out.push(digit_char_exec(n));
        proof {
            assert(out@ =~= old(out)@ + dec_digits(n as int));
        }
    } else {
        push_dec(out, n / 10);
        out.push(digit_char_exec(n % 10));
        proof {
            assert(out@ =~= old(out)@ + dec_digits(n as int));
        }
    }
}

impl Version {
    /// Renders the version as `MAJOR.MINOR.PATCH`.
    pub fn to_version_string(&self) -> (r: String)
        requires
            self.wf(),
        ensures
            r@ == version_string(*self),
    {
        let mut out: Vec<char> = Vec::new();
        push_dec(&mut out, self.major as u32);
        out.push('.');
        push_dec(&mut out, self.minor as u32);
        out.push('.');
        push_dec(&mut out, self.patch as u32);
        proof {
            assert(out@ =~= version_string(*self));
        }
        crate::strutil::string_from_chars(&out)
    }
}

/// The version label a release branch is named after: components whose bump
/// commands do not create releases are masked with `X`.
pub open spec fn branch_version_string(v: Version, release_minor: bool, release_patch: bool) -> Seq<
    char,
> {
    dec_digits(v.major as int) + seq!['.'] + (if release_minor {
        dec_digits(v.minor as int)
    } else {
        seq!['X']
    }) + seq!['.'] + (if release_patch {
        dec_digits(v.patch as int)
    } else {
        seq!['X']
    })
}

/// Renders the version label a release branch is named after: the minor and
/// patch components are masked with `X` unless their bump commands create
/// releases.
pub fn release_branch_version(version: &Version, release_minor: bool, release_patch: bool) -> (r:
    String)
    requires
        version.wf(),
    ensures
        r@ == branch_version_string(*version, release_minor, release_patch),
{
    let mut out: Vec<char> = Vec::new();
    push_dec(&mut out, version.major as u32);
    out.push('.');
    if release_minor {
        push_dec(&mut out, version.minor as u32);
    } else {
        out.push('X');
    }
    out.push('.');
    if release_patch {
        push_dec(&mut out, version.patch as u32);
    } else {
        out.push('X');
    }
    proof {
        assert(out@ =~= branch_version_string(*version, release_minor, release_patch));
    }
    crate::strutil::string_from_chars(&out)
}

/// The components a bump by `d` gives to a version with components `t`.
pub open spec fn bumped(t: (int, int, int), d: VersionDesignation) -> (int, int, int) {
    match d {
        VersionDesignation::Major => (t.0 + 1, 0, 0),
        VersionDesignation::Minor => (t.0, t.1 + 1, 0),
        VersionDesignation::Patch => (t.0, t.1, t.2 + 1),
    }
}

/// Raises the configured version by the chosen designation: a major bump
/// resets minor and patch, a minor bump resets patch.
pub fn increment_version(config: &Config, version_designation: VersionDesignation) -> (r: Version)
    requires
        semver_fits(config.version@),
        bumped(semver_triple(config.version@).unwrap(), version_designation).0 <= i32::MAX,
        bumped(semver_triple(config.version@).unwrap(), version_designation).1 <= i32::MAX,
        bumped(semver_triple(config.version@).unwrap(), version_designation).2 <= i32::MAX,
    ensures
        (r.major as int, r.minor as int, r.patch as int) == bumped(
            semver_triple(config.version@).unwrap(),
            version_designation,
        ),
        r.wf(),
{
    let mut version = Version::new(config.version.clone());
    match version_designation {
        VersionDesignation::Major => {
            version.major = version.major + 1;
            version.minor = 0;
            version.patch = 0;
        },
        VersionDesignation::Minor => {
            version.minor = version.minor + 1;
            version.patch = 0;
        },
        VersionDesignation::Patch => {
            version.patch = version.patch + 1;
        },
    }
    version
}

proof fn lemma_dec_digits_shape(n: int)
    requires
        n >= 0,
    ensures
        dec_digits(n).len() >= 1,
        all_digits(dec_digits(n)),
    decreases n,
{
    if n <= 9 {
    } else {
        lemma_dec_digits_shape(n / 10);
        let init = dec_digits(n / 10);
        assert(forall|k: int|
            0 <= k < init.push(digit_char(n % 10)).len() ==> init.push(digit_char(n % 10))[k]
                == (if k < init.len() {
                init[k]
            } else {
                digit_char(n % 10)
            }));
    }
}

proof fn lemma_dec_roundtrip(n: int)
    requires
        n >= 0,
    ensures
        dec_value(dec_digits(n)) == n,
    decreases n,
{
    if n <= 9 {
        assert(seq![digit_char(n)].drop_last() =~= Seq::<char>::empty());
        assert(dec_value(Seq::<char>::empty()) == 0);
        assert(seq![digit_char(n)].last() == digit_char(n));
        assert(digit_val(digit_char(n)) == n);
    } else {
        lemma_dec_roundtrip(n / 10);
        let init = dec_digits(n / 10);
        let c = digit_char(n % 10);
        assert(init.push(c).drop_last() =~= init);
        assert(init.push(c).last() == c);
        assert(digit_val(c) == n % 10);
    }
}

/// The rendered form of a version matches the version grammar, and parsing
/// it back yields the same three components.
pub proof fn lemma_version_string_semver(v: Version)
    requires
        v.wf(),
    ensures
        semver_triple(version_string(v)) == Some(
            (v.major as int, v.minor as int, v.patch as int),
        ),
{
    let dmaj = dec_digits(v.major as int);
    let dmin = dec_digits(v.minor as int);
    let dpat = dec_digits(v.patch as int);
    let vs = version_string(v);
    lemma_dec_digits_shape(v.major as int);
    lemma_dec_digits_shape(v.minor as int);
    lemma_dec_digits_shape(v.patch as int);
    lemma_dec_roundtrip(v.major as int);
    lemma_dec_roundtrip(v.minor as int);
    lemma_dec_roundtrip(v.patch as int);
    let k = dmaj.len() as int;
    assert(vs[k] == '.');
    assert(forall|t: int| 0 <= t < k ==> vs[t] == dmaj[t]);
    lemma_split_at_dot(vs, k);
    assert(vs.subrange(0, k) =~= dmaj);
    let rest = vs.skip(k + 1);
    assert(rest =~= dmin + seq!['.'] + dpat);
    let k2 = dmin.len() as int;
    assert(rest[k2] == '.');
    assert(forall|t: int| 0 <= t < k2 ==> rest[t] == dmin[t]);
    lemma_split_at_dot(rest, k2);
    assert(rest.subrange(0, k2) =~= dmin);
    assert(rest.skip(k2 + 1) =~= dpat);
}

} // verus!
