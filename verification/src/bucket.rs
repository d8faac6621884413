//! The version-bucketing engine: orders release markers newest-first, seeds
//! one bucket per release version, and assigns every ordinary change to the
//! earliest release that still shipped after it.

use vstd::prelude::*;
use crate::change::Change;
use crate::change::ChangeModel;
use crate::change::models;
use crate::errors::ChangelogError;
use crate::group::ChangeGroup;
use crate::group::group_insert;
use crate::group::key_index;
use crate::group::lemma_key_index_props;
use crate::strutil::chars_of;
use crate::strutil::slice_chars;
use crate::strutil::string_from_chars;
use crate::version::check_semver;
use crate::version::semver_ok;

verus! {

/// The smallest index at or after `i` at which a version suffix of `s`
/// starts.
pub open spec fn version_suffix_start(s: Seq<char>, i: int) -> Option<int>
    decreases (if 0 <= i <= s.len() {
        s.len() - i
    } else {
        0
    }),
{
    if i < 0 || i >= s.len() {
        None
    } else if semver_ok(s.skip(i)) {
        Some(i)
    } else {
        version_suffix_start(s, i + 1)
    }
}

/// The version string a release-marker message carries: the longest suffix
/// of the message that matches `MAJOR.MINOR.PATCH`; `None` when no suffix
/// does, which aborts the run.
pub open spec fn version_suffix(s: Seq<char>) -> Option<Seq<char>> {
    match version_suffix_start(s, 0) {
        Some(i) => Some(s.skip(i)),
        None => None,
    }
}

/// Any matching suffix means the extraction succeeds.
pub proof fn lemma_version_suffix_exists(s: Seq<char>, i: int, w: int)
    requires
        0 <= i <= w < s.len(),
        semver_ok(s.skip(w)),
    ensures
        version_suffix_start(s, i) is Some,
    decreases w - i,
{
    if !semver_ok(s.skip(i)) {
        lemma_version_suffix_exists(s, i + 1, w);
    }
}

/// Extracts the trailing version string of a release-marker message.
pub fn extract_version(message: &Vec<char>) -> (r: Option<Vec<char>>)
    ensures
        r matches Some(k) ==> version_suffix(message@) == Some(k@),
        r is None ==> version_suffix(message@) is None,
{
    let n = message.len();
    let mut i: usize = 0;
    while i < n
        invariant
            i <= n,
            n == message@.len(),
            version_suffix_start(message@, 0) == version_suffix_start(message@, i as int),
        decreases n - i,
    {
        let slice = slice_chars(message, i, n);
        proof {
            assert(slice@ =~= message@.skip(i as int));
        }
        if check_semver(&slice) {
            return Some(slice);
        }
        i += 1;
    }
    None
}

proof fn lemma_vss_first(s: Seq<char>, i: int, w: int)
    requires
        0 <= i <= w < s.len(),
        semver_ok(s.skip(w)),
        forall|k: int| i <= k < w ==> !semver_ok(s.skip(k)),
    ensures
        version_suffix_start(s, i) == Some(w),
    decreases w - i,
{
    if i < w {
        lemma_vss_first(s, i + 1, w);
    }
}

/// Extraction inverts construction: appending a rendered version to a prefix
/// that does not end in a digit, as the pending-marker message is built,
/// yields a message whose extracted version is exactly the rendered one.  (A
/// prefix ending in a digit would lengthen the match and is excluded.)
pub proof fn lemma_version_roundtrip(prefix: Seq<char>, v: crate::version::Version)
    requires
        v.wf(),
        prefix.len() == 0 || !crate::timestamp::is_digit(prefix.last()),
    ensures
        version_suffix(prefix + crate::version::version_string(v)) == Some(
            crate::version::version_string(v),
        ),
{
    let vs = crate::version::version_string(v);
    let s = prefix + vs;
    let start = prefix.len() as int;
    crate::version::lemma_version_string_semver(v);
    assert(s.skip(start) =~= vs);
    assert(vs.len() >= 1) by {
        crate::version::lemma_semver_dots(vs);
        if vs.len() == 0 {
            assert(vs =~= Seq::<char>::empty());
            assert(crate::version::count_dots(Seq::<char>::empty()) == 0);
        }
    }
    assert forall|i: int| 0 <= i < start implies !semver_ok(s.skip(i)) by {
        if semver_ok(s.skip(i)) {
            let u = s.skip(i);
            let pos = start - 1 - i;
            assert(u[pos] == prefix.last());
            if prefix.last() == '.' {
                let mid = s.subrange(i, start);
                assert(u =~= mid + vs);
                crate::version::lemma_count_dots_concat(mid, vs);
                crate::version::lemma_semver_dots(vs);
                crate::version::lemma_semver_dots(u);
                assert(mid.last() == '.');
                assert(mid =~= mid.drop_last() + seq!['.']);
                crate::version::lemma_count_dots_concat(mid.drop_last(), seq!['.']);
                assert(crate::version::count_dots(seq!['.']) == 1) by {
                    assert(seq!['.'][0] == '.');
                    assert(seq!['.'].drop_first() =~= Seq::<char>::empty());
                    assert(crate::version::count_dots(Seq::<char>::empty()) == 0);
                }
                crate::version::lemma_count_dots_nonneg(mid.drop_last());
                assert(false);
            } else {
                crate::version::lemma_semver_chars(u);
                assert(crate::timestamp::is_digit(u[pos]) || u[pos] == '.');
                assert(false);
            }
        }
    }
    lemma_vss_first(s, 0, start);
}

/// True when every release marker carries a version suffix.
pub open spec fn versions_ok(rs: Seq<ChangeModel>) -> bool {
    forall|i: int| 0 <= i < rs.len() ==> version_suffix(#[trigger] rs[i].message) is Some
}

/// True when `s` is ordered newest-first by instant.
pub open spec fn sorted_desc(s: Seq<ChangeModel>) -> bool {
    forall|i: int, j: int| 0 <= i < j < s.len() ==> s[i].date.instant() >= s[j].date.instant()
}

/// `x` placed into `sorted` after every element at least as new as it: the
/// insertion step of a stable newest-first sort.
pub open spec fn insert_desc(sorted: Seq<ChangeModel>, x: ChangeModel) -> Seq<ChangeModel>
    decreases sorted.len(),
{
    if sorted.len() == 0 {
        seq![x]
    } else if sorted[0].date.instant() >= x.date.instant() {
        seq![sorted[0]] + insert_desc(sorted.drop_first(), x)
    } else {
        seq![x] + sorted
    }
}

/// The stable newest-first ordering of `rs`: later input elements never
/// overtake earlier ones of the same instant.
pub open spec fn ssort(rs: Seq<ChangeModel>) -> Seq<ChangeModel>
    decreases rs.len(),
{
    if rs.len() == 0 {
        Seq::empty()
    } else {
        insert_desc(ssort(rs.drop_last()), rs.last())
    }
}

proof fn lemma_insert_desc_at(sorted: Seq<ChangeModel>, x: ChangeModel, j: int)
    requires
        0 <= j <= sorted.len(),
        forall|k: int| 0 <= k < j ==> sorted[k].date.instant() >= x.date.instant(),
        j < sorted.len() ==> sorted[j].date.instant() < x.date.instant(),
    ensures
        insert_desc(sorted, x) == sorted.insert(j, x),
    decreases j,
{
    if j == 0 {
        if sorted.len() == 0 {
            assert(seq![x] =~= sorted.insert(0, x));
        } else {
            assert(seq![x] + sorted =~= sorted.insert(0, x));
        }
    } else {
        let rest = sorted.drop_first();
        assert(forall|k: int| 0 <= k < j - 1 ==> rest[k] == sorted[k + 1]);
        lemma_insert_desc_at(rest, x, j - 1);
        assert(seq![sorted[0]] + rest.insert(j - 1, x) =~= sorted.insert(j, x));
    }
}

pub proof fn lemma_insert_desc_multiset(sorted: Seq<ChangeModel>, x: ChangeModel)
    ensures
        insert_desc(sorted, x).to_multiset() == sorted.to_multiset().insert(x),
    decreases sorted.len(),
{
    broadcast use vstd::seq_lib::group_to_multiset_ensures;
    broadcast use vstd::multiset::group_multiset_axioms;

    if sorted.len() == 0 {
        assert(seq![x] =~= sorted.push(x));
        assert(insert_desc(sorted, x).to_multiset() =~= sorted.to_multiset().insert(x));
    } else if sorted[0].date.instant() >= x.date.instant() {
        let rest = sorted.drop_first();
        lemma_insert_desc_multiset(rest, x);
        let inner = insert_desc(rest, x);
        assert(seq![sorted[0]] + inner =~= inner.insert(0, sorted[0]));
        vstd::seq_lib::to_multiset_insert(inner, 0, sorted[0]);
        assert(seq![sorted[0]] + rest =~= rest.insert(0, sorted[0]));
        vstd::seq_lib::to_multiset_insert(rest, 0, sorted[0]);
        assert(sorted =~= seq![sorted[0]] + rest);
        assert(insert_desc(sorted, x).to_multiset() =~= sorted.to_multiset().insert(x));
    } else {
        assert(seq![x] + sorted =~= sorted.insert(0, x));
        vstd::seq_lib::to_multiset_insert(sorted, 0, x);
    }
}

pub proof fn lemma_ssort_multiset(rs: Seq<ChangeModel>)
    ensures
        ssort(rs).to_multiset() == rs.to_multiset(),
    decreases rs.len(),
{
    broadcast use vstd::seq_lib::group_to_multiset_ensures;
    broadcast use vstd::multiset::group_multiset_axioms;

    if rs.len() > 0 {
        let init = rs.drop_last();
        lemma_ssort_multiset(init);
        lemma_insert_desc_multiset(ssort(init), rs.last());
        assert(rs =~= init.push(rs.last()));
        assert(ssort(rs).to_multiset() =~= rs.to_multiset());
    }
}

/// Every element of the sorted sequence is an element of the input, and the
/// other way round.
pub proof fn lemma_ssort_contains(rs: Seq<ChangeModel>, m: ChangeModel)
    ensures
        ssort(rs).contains(m) <==> rs.contains(m),
{
    broadcast use vstd::seq_lib::group_to_multiset_ensures;

    lemma_ssort_multiset(rs);
    assert(ssort(rs).to_multiset().count(m) == rs.to_multiset().count(m));
    assert(ssort(rs).contains(m) <==> ssort(rs).to_multiset().count(m) > 0);
    assert(rs.contains(m) <==> rs.to_multiset().count(m) > 0);
}

pub proof fn lemma_insert_desc_sorted(sorted: Seq<ChangeModel>, x: ChangeModel)
    requires
        sorted_desc(sorted),
    ensures
        sorted_desc(insert_desc(sorted, x)),
    decreases sorted.len(),
{
    broadcast use vstd::seq_lib::group_to_multiset_ensures;
    broadcast use vstd::multiset::group_multiset_axioms;

    if sorted.len() == 0 {
    } else if sorted[0].date.instant() >= x.date.instant() {
        let rest = sorted.drop_first();
        assert(forall|k1: int, k2: int| 0 <= k1 < k2 < rest.len() ==> rest[k1].date.instant()
            >= rest[k2].date.instant());
        lemma_insert_desc_sorted(rest, x);
        let inner = insert_desc(rest, x);
        lemma_insert_desc_multiset(rest, x);
        let out = seq![sorted[0]] + inner;
        assert forall|k: int| 0 <= k < inner.len() implies sorted[0].date.instant()
            >= inner[k].date.instant() by {
            assert(inner.contains(inner[k]));
            assert(inner.to_multiset().count(inner[k]) > 0);
            if inner[k] == x {
            } else {
                assert(rest.to_multiset().count(inner[k]) > 0);
                assert(rest.contains(inner[k]));
                let w = choose|w: int| 0 <= w < rest.len() && rest[w] == inner[k];
                assert(sorted[w + 1] == rest[w]);
            }
        }
        assert(forall|k1: int, k2: int|
            0 <= k1 < k2 < out.len() ==> out[k1].date.instant() >= out[k2].date.instant());
    } else {
        let out = seq![x] + sorted;
        assert(forall|k: int| 0 <= k < sorted.len() ==> x.date.instant()
            > sorted[k].date.instant());
        assert(forall|k1: int, k2: int|
            0 <= k1 < k2 < out.len() ==> out[k1].date.instant() >= out[k2].date.instant());
    }
}

/// The sorted releases are ordered newest-first.
pub proof fn lemma_ssort_sorted(rs: Seq<ChangeModel>)
    ensures
        sorted_desc(ssort(rs)),
    decreases rs.len(),
{
    if rs.len() > 0 {
        lemma_ssort_sorted(rs.drop_last());
        lemma_insert_desc_sorted(ssort(rs.drop_last()), rs.last());
    }
}

/// Where `x` belongs in the newest-first order: the first index whose
/// element is strictly older.
fn find_insert_pos(out: &Vec<Change>, xi: i64) -> (j: usize)
    requires
        forall|k: int| 0 <= k < out@.len() ==> (#[trigger] out@[k]).wf(),
    ensures
        j <= out@.len(),
        forall|k: int| 0 <= k < j ==> models(out@)[k].date.instant() >= xi,
        j < out@.len() ==> models(out@)[j as int].date.instant() < xi,
{
    let n = out.len();
    let mut j: usize = 0;
    while j < n
        invariant
            j <= n,
            n == out@.len(),
            forall|k: int| 0 <= k < out@.len() ==> (#[trigger] out@[k]).wf(),
            forall|k: int| 0 <= k < j ==> models(out@)[k].date.instant() >= xi,
        decreases n - j,
    {
        let d = out[j].date;
        if d.instant_val() < xi {
            return j;
        }
        j += 1;
    }
    j
}

/// Orders the release markers newest-first; markers of equal instant keep
/// their input order.
pub fn sort_releases(rs: Vec<Change>) -> (r: Vec<Change>)
    requires
        forall|k: int| 0 <= k < rs@.len() ==> (#[trigger] rs@[k]).wf(),
    ensures
        models(r@) == ssort(models(rs@)),
        forall|k: int| 0 <= k < r@.len() ==> (#[trigger] r@[k]).wf(),
{
    let ghost m = models(rs@);
    let mut rest = rs;
    let mut out: Vec<Change> = Vec::new();
    let ghost idx: int = 0;
    proof {
        assert(models(out@) =~= ssort(m.take(0)));
    }
    while rest.len() > 0
        invariant
            0 <= idx <= m.len(),
            m == models(rs@),
            rest@ == rs@.skip(idx),
            models(out@) == ssort(m.take(idx)),
            forall|k: int| 0 <= k < rs@.len() ==> (#[trigger] rs@[k]).wf(),
            forall|k: int| 0 <= k < out@.len() ==> (#[trigger] out@[k]).wf(),
        decreases rest@.len(),
    {
        let x = rest.remove(0);
        proof {
            assert(x == rs@[idx]);
            assert(rest@ =~= rs@.skip(idx + 1));
        }
        let xd = x.date;
        let xi = xd.instant_val();
        let j = find_insert_pos(&out, xi);
        let ghost old_out = out@;
        out.insert(j, x);
        proof {
            lemma_insert_desc_at(models(old_out), x@, j as int);
            assert(models(out@) =~= models(old_out).insert(j as int, x@));
            assert(m.take(idx + 1).drop_last() =~= m.take(idx));
            assert(m.take(idx + 1).last() == m[idx]);
            assert(m[idx] == x@);
            assert(models(out@) == ssort(m.take(idx + 1)));
        }
        proof {
            idx = idx + 1;
        }
    }
    proof {
        assert(m.take(idx) =~= m);
    }
    out
}

/// One step of the scan for the release a change belongs to: among the
/// candidates (releases not older than `t`), keep the oldest, and on equal
/// instants the earliest-seen.
pub open spec fn pick_from(s: Seq<ChangeModel>, t: int, i: int, best: Option<int>) -> Option<int>
    decreases (if 0 <= i <= s.len() {
        s.len() - i
    } else {
        0
    }),
{
    if i < 0 || i >= s.len() {
        best
    } else {
        let better = if s[i].date.instant() >= t && (match best {
            None => true,
            Some(b) => s[i].date.instant() < s[b].date.instant(),
        }) {
            Some(i)
        } else {
            best
        };
        pick_from(s, t, i + 1, better)
    }
}

/// The index of the release a change at instant `t` belongs to: the earliest
/// release that still shipped at or after `t`.
pub open spec fn pick_spec(s: Seq<ChangeModel>, t: int) -> Option<int> {
    pick_from(s, t, 0, None)
}

proof fn lemma_pick_from_props(s: Seq<ChangeModel>, t: int, i: int, best: Option<int>)
    requires
        0 <= i <= s.len(),
        match best {
            Some(b) => 0 <= b < i && s[b].date.instant() >= t && (forall|k: int|
                0 <= k < i && #[trigger] s[k].date.instant() >= t ==> s[b].date.instant()
                    <= s[k].date.instant()) && (forall|k: int|
                0 <= k < b ==> #[trigger] s[k].date.instant() >= t ==> s[k].date.instant()
                    > s[b].date.instant()),
            None => forall|k: int| 0 <= k < i ==> #[trigger] s[k].date.instant() < t,
        },
    ensures
        match pick_from(s, t, i, best) {
            Some(j) => 0 <= j < s.len() && s[j].date.instant() >= t && (forall|k: int|
                0 <= k < s.len() && #[trigger] s[k].date.instant() >= t ==> s[j].date.instant()
                    <= s[k].date.instant()) && (forall|k: int|
                0 <= k < j ==> #[trigger] s[k].date.instant() >= t ==> s[k].date.instant()
                    > s[j].date.instant()),
            None => forall|k: int| 0 <= k < s.len() ==> #[trigger] s[k].date.instant() < t,
        },
    decreases s.len() - i,
{
    if i < s.len() {
        let better = if s[i].date.instant() >= t && (match best {
            None => true,
            Some(b) => s[i].date.instant() < s[b].date.instant(),
        }) {
            Some(i)
        } else {
            best
        };
        lemma_pick_from_props(s, t, i + 1, better);
    }
}

/// The chosen release is a candidate, is the oldest candidate, and on equal
/// instants the earliest-seen candidate; no choice means no candidate.
pub proof fn lemma_pick_props(s: Seq<ChangeModel>, t: int)
    ensures
        match pick_spec(s, t) {
            Some(j) => 0 <= j < s.len() && s[j].date.instant() >= t && (forall|k: int|
                0 <= k < s.len() && #[trigger] s[k].date.instant() >= t ==> s[j].date.instant()
                    <= s[k].date.instant()) && (forall|k: int|
                0 <= k < j ==> #[trigger] s[k].date.instant() >= t ==> s[k].date.instant()
                    > s[j].date.instant()),
            None => forall|k: int| 0 <= k < s.len() ==> #[trigger] s[k].date.instant() < t,
        },
{
    lemma_pick_from_props(s, t, 0, None);
}

/// Scans the sorted releases for the one a change at instant `t` belongs to.
fn pick_release(sorted: &Vec<Change>, t: i64) -> (r: Option<usize>)
    requires
        forall|k: int| 0 <= k < sorted@.len() ==> (#[trigger] sorted@[k]).wf(),
    ensures
        r matches Some(j) ==> pick_spec(models(sorted@), t as int) == Some(j as int) && (j as int)
            < sorted@.len(),
        r is None ==> pick_spec(models(sorted@), t as int) is None,
{
    let ghost sm = models(sorted@);
    let n = sorted.len();
    let mut best: Option<usize> = None;
    let mut i: usize = 0;
    while i < n
        invariant
            i <= n,
            n == sm.len(),
            sm == models(sorted@),
            forall|k: int| 0 <= k < sorted@.len() ==> (#[trigger] sorted@[k]).wf(),
            match best {
                None => pick_spec(sm, t as int) == pick_from(sm, t as int, i as int, None::<int>),
                Some(b) => b < i && pick_spec(sm, t as int) == pick_from(
                    sm,
                    t as int,
                    i as int,
                    Some(b as int),
                ),
            },
        decreases n - i,
    {
        let d = sorted[i].date;
        let di = d.instant_val();
        let take: bool = if di >= t {
            match best {
                None => true,
                Some(b) => {
                    let bd = sorted[b].date;
                    di < bd.instant_val()
                },
            }
        } else {
            false
        };
        if take {
            best = Some(i);
        }
        i += 1;
    }
    best
}

/// One bucket per release version, seeded empty, in sorted order; a version
/// seen again keeps its first position.
pub open spec fn seed_groups(sorted: Seq<ChangeModel>) -> Seq<(Seq<char>, Seq<ChangeModel>)>
    decreases sorted.len(),
{
    if sorted.len() == 0 {
        Seq::empty()
    } else {
        group_insert(
            seed_groups(sorted.drop_last()),
            version_suffix(sorted.last().message).unwrap(),
        )
    }
}

/// Assigns each change, in input order, to the bucket of the release that
/// `pick_spec` chooses for it; a change no release covers, or a resolved
/// version missing from the seeded mapping, aborts the run.
pub open spec fn assign(
    groups: Seq<(Seq<char>, Seq<ChangeModel>)>,
    sorted: Seq<ChangeModel>,
    changes: Seq<ChangeModel>,
) -> Result<Seq<(Seq<char>, Seq<ChangeModel>)>, ChangelogError>
    decreases changes.len(),
{
    if changes.len() == 0 {
        Ok(groups)
    } else {
        let c = changes[0];
        match pick_spec(sorted, c.date.instant()) {
            None => Err(ChangelogError::InconsistentVersionState),
            Some(j) => {
                let key = version_suffix(sorted[j].message).unwrap();
                match key_index(groups, key) {
                    None => Err(ChangelogError::InconsistentVersionState),
                    Some(gi) => assign(
                        groups.update(gi, (groups[gi].0, groups[gi].1.push(c))),
                        sorted,
                        changes.drop_first(),
                    ),
                }
            },
        }
    }
}

/// What bucketing denotes: every release must carry a version suffix; the
/// releases are ordered newest-first (stably); one bucket per version is
/// seeded in that order; every change goes to the bucket `pick_spec` chooses.
pub open spec fn bucket_spec(releases: Seq<ChangeModel>, changes: Seq<ChangeModel>) -> Result<
    Seq<(Seq<char>, Seq<ChangeModel>)>,
    ChangelogError,
> {
    if !versions_ok(releases) {
        Err(ChangelogError::MissingVersionSuffix)
    } else {
        assign(seed_groups(ssort(releases)), ssort(releases), changes)
    }
}

proof fn lemma_seed_empty(sorted: Seq<ChangeModel>, k: int)
    requires
        0 <= k < seed_groups(sorted).len(),
    ensures
        seed_groups(sorted)[k].1.len() == 0,
    decreases sorted.len(),
{
    if sorted.len() > 0 {
        let init = seed_groups(sorted.drop_last());
        let key = version_suffix(sorted.last().message).unwrap();
        if key_index(init, key) is Some {
            lemma_seed_empty(sorted.drop_last(), k);
        } else {
            if k < init.len() {
                lemma_seed_empty(sorted.drop_last(), k);
            } else {
                assert(seed_groups(sorted)[k].1 =~= Seq::<ChangeModel>::empty());
            }
        }
    }
}

proof fn lemma_assign_keys(
    groups: Seq<(Seq<char>, Seq<ChangeModel>)>,
    sorted: Seq<ChangeModel>,
    changes: Seq<ChangeModel>,
    g: Seq<(Seq<char>, Seq<ChangeModel>)>,
)
    requires
        assign(groups, sorted, changes) == Ok::<Seq<(Seq<char>, Seq<ChangeModel>)>,
            ChangelogError,
        >(g),
    ensures
        g.len() == groups.len(),
        forall|i: int| 0 <= i < g.len() ==> g[i].0 == groups[i].0,
    decreases changes.len(),
{
    if changes.len() == 0 {
    } else {
        let c = changes[0];
        match pick_spec(sorted, c.date.instant()) {
            None => {},
            Some(j) => {
                let key = version_suffix(sorted[j].message).unwrap();
                match key_index(groups, key) {
                    None => {},
                    Some(gi) => {
                        lemma_key_index_props(groups, key);
                        let groups2 = groups.update(gi, (groups[gi].0, groups[gi].1.push(c)));
                        lemma_assign_keys(groups2, sorted, changes.drop_first(), g);
                        assert(forall|i: int| 0 <= i < groups.len() ==> groups2[i].0 == groups[
                            i].0);
                    },
                }
            },
        }
    }
}

proof fn lemma_assign_members(
    groups: Seq<(Seq<char>, Seq<ChangeModel>)>,
    sorted: Seq<ChangeModel>,
    changes: Seq<ChangeModel>,
    g: Seq<(Seq<char>, Seq<ChangeModel>)>,
    k: int,
    x: int,
)
    requires
        assign(groups, sorted, changes) == Ok::<Seq<(Seq<char>, Seq<ChangeModel>)>,
            ChangelogError,
        >(g),
        0 <= k < g.len(),
        0 <= x < g[k].1.len(),
    ensures
        (k < groups.len() && x < groups[k].1.len() && groups[k].1[x] == g[k].1[x])
            || changes.contains(g[k].1[x]),
    decreases changes.len(),
{
    if changes.len() == 0 {
    } else {
        let c = changes[0];
        match pick_spec(sorted, c.date.instant()) {
            None => {},
            Some(j) => {
                let key = version_suffix(sorted[j].message).unwrap();
                match key_index(groups, key) {
                    None => {},
                    Some(gi) => {
                        lemma_key_index_props(groups, key);
                        let groups2 = groups.update(gi, (groups[gi].0, groups[gi].1.push(c)));
                        lemma_assign_members(groups2, sorted, changes.drop_first(), g, k, x);
                        if k < groups2.len() && x < groups2[k].1.len() && groups2[k].1[x] == g[
                            k].1[x] {
                            if k == gi {
                                if x < groups[k].1.len() {
                                    assert(groups2[k].1[x] == groups[k].1[x]);
                                } else {
                                    assert(groups2[k].1[x] == c);
                                    assert(changes.contains(g[k].1[x]));
                                }
                            } else {
                                assert(groups2[k] == groups[k]);
                            }
                        } else {
                            let y = g[k].1[x];
                            assert(changes.drop_first().contains(y));
                            let w = choose|w: int|
                                0 <= w < changes.drop_first().len() && changes.drop_first()[w]
                                    == y;
                            assert(changes[w + 1] == y);
                        }
                    },
                }
            },
        }
    }
}

/// The assignment step can only abort for a change no release covers.
pub proof fn lemma_assign_no_missing(
    groups: Seq<(Seq<char>, Seq<ChangeModel>)>,
    sorted: Seq<ChangeModel>,
    changes: Seq<ChangeModel>,
)
    ensures
        assign(groups, sorted, changes) matches Err(e) ==> e is InconsistentVersionState,
    decreases changes.len(),
{
    if changes.len() > 0 {
        let c = changes[0];
        match pick_spec(sorted, c.date.instant()) {
            None => {},
            Some(j) => {
                let key = version_suffix(sorted[j].message).unwrap();
                match key_index(groups, key) {
                    None => {},
                    Some(gi) => {
                        lemma_assign_no_missing(
                            groups.update(gi, (groups[gi].0, groups[gi].1.push(c))),
                            sorted,
                            changes.drop_first(),
                        );
                    },
                }
            },
        }
    }
}

/// No unclassified record appears in any output bucket: every bucketed
/// record is one of the input changes, and when no input change is
/// unclassified, no bucketed record is.
pub proof fn lemma_unclassified_excluded(
    releases: Seq<ChangeModel>,
    changes: Seq<ChangeModel>,
    g: Seq<(Seq<char>, Seq<ChangeModel>)>,
    k: int,
    x: int,
)
    requires
        bucket_spec(releases, changes) == Ok::<Seq<(Seq<char>, Seq<ChangeModel>)>,
            ChangelogError,
        >(g),
        0 <= k < g.len(),
        0 <= x < g[k].1.len(),
    ensures
        changes.contains(g[k].1[x]),
        (forall|i: int|
            0 <= i < changes.len() ==> !((#[trigger] changes[i]).change_type is Unknown)) ==> !(g[
            k].1[x].change_type is Unknown),
{
    let sorted = ssort(releases);
    let groups0 = seed_groups(sorted);
    lemma_assign_keys(groups0, sorted, changes, g);
    lemma_assign_members(groups0, sorted, changes, g, k, x);
    if k < groups0.len() && x < groups0[k].1.len() {
        lemma_seed_empty(sorted, k);
        assert(false);
    }
    assert(changes.contains(g[k].1[x]));
    let w = choose|w: int| 0 <= w < changes.len() && changes[w] == g[k].1[x];
    assert(0 <= w < changes.len() && changes[w] == g[k].1[x]);
}

proof fn lemma_seed_keys_distinct(sorted: Seq<ChangeModel>)
    ensures
        forall|i: int, j: int|
            0 <= i < j < seed_groups(sorted).len() ==> seed_groups(sorted)[i].0 != seed_groups(
                sorted,
            )[j].0,
    decreases sorted.len(),
{
    if sorted.len() > 0 {
        let init = seed_groups(sorted.drop_last());
        let key = version_suffix(sorted.last().message).unwrap();
        lemma_seed_keys_distinct(sorted.drop_last());
        match key_index(init, key) {
            Some(_) => {},
            None => {
                lemma_key_index_props(init, key);
                let out = init.push((key, Seq::<ChangeModel>::empty()));
                assert(forall|i: int| 0 <= i < init.len() ==> out[i] == init[i]);
                assert(out[init.len() as int].0 == key);
            },
        }
    }
}

proof fn lemma_seed_keys_complete(sorted: Seq<ChangeModel>, r: int)
    requires
        0 <= r < sorted.len(),
    ensures
        exists|k: int|
            0 <= k < seed_groups(sorted).len() && (#[trigger] seed_groups(sorted)[k].0)
                == version_suffix(sorted[r].message).unwrap(),
    decreases sorted.len(),
{
    let init = seed_groups(sorted.drop_last());
    let key = version_suffix(sorted.last().message).unwrap();
    let out = seed_groups(sorted);
    if r < sorted.len() - 1 {
        lemma_seed_keys_complete(sorted.drop_last(), r);
        assert(sorted.drop_last()[r] == sorted[r]);
        let k = choose|k: int|
            0 <= k < init.len() && (#[trigger] init[k].0) == version_suffix(
                sorted[r].message,
            ).unwrap();
        match key_index(init, key) {
            Some(_) => {
                assert(out[k].0 == version_suffix(sorted[r].message).unwrap());
            },
            None => {
                assert(out[k] == init[k]);
            },
        }
    } else {
        match key_index(init, key) {
            Some(ki) => {
                lemma_key_index_props(init, key);
                assert(out[ki].0 == version_suffix(sorted[r].message).unwrap());
            },
            None => {
                assert(out[init.len() as int].0 == version_suffix(sorted[r].message).unwrap());
            },
        }
    }
}

proof fn lemma_seed_keys_sound(sorted: Seq<ChangeModel>, k: int)
    requires
        0 <= k < seed_groups(sorted).len(),
    ensures
        exists|r: int|
            0 <= r < sorted.len() && version_suffix((#[trigger] sorted[r]).message).unwrap()
                == seed_groups(sorted)[k].0,
    decreases sorted.len(),
{
    let init = seed_groups(sorted.drop_last());
    let key = version_suffix(sorted.last().message).unwrap();
    let out = seed_groups(sorted);
    match key_index(init, key) {
        Some(_) => {
            lemma_seed_keys_sound(sorted.drop_last(), k);
            let r = choose|r: int|
                0 <= r < sorted.drop_last().len() && version_suffix(
                    (#[trigger] sorted.drop_last()[r]).message,
                ).unwrap() == init[k].0;
            assert(sorted[r] == sorted.drop_last()[r]);
        },
        None => {
            if k < init.len() {
                lemma_seed_keys_sound(sorted.drop_last(), k);
                let r = choose|r: int|
                    0 <= r < sorted.drop_last().len() && version_suffix(
                        (#[trigger] sorted.drop_last()[r]).message,
                    ).unwrap() == init[k].0;
                assert(sorted[r] == sorted.drop_last()[r]);
                assert(out[k] == init[k]);
            } else {
                assert(out[k].0 == key);
                assert(version_suffix(sorted[sorted.len() - 1].message).unwrap() == out[k].0);
            }
        },
    }
}

/// Bucket completeness: the output holds exactly one key per release version
/// present in the input — no duplicates, none missing, also for releases
/// with no changes assigned to them.
pub proof fn lemma_bucket_completeness(
    releases: Seq<ChangeModel>,
    changes: Seq<ChangeModel>,
    g: Seq<(Seq<char>, Seq<ChangeModel>)>,
)
    requires
        bucket_spec(releases, changes) == Ok::<Seq<(Seq<char>, Seq<ChangeModel>)>,
            ChangelogError,
        >(g),
    ensures
        forall|i: int, j: int| 0 <= i < j < g.len() ==> g[i].0 != g[j].0,
        forall|r: int|
            0 <= r < releases.len() ==> exists|k: int|
                0 <= k < g.len() && (#[trigger] g[k].0) == version_suffix(
                    (#[trigger] releases[r]).message,
                ).unwrap(),
        forall|k: int|
            0 <= k < g.len() ==> exists|r: int|
                0 <= r < releases.len() && version_suffix(
                    (#[trigger] releases[r]).message,
                ).unwrap() == (#[trigger] g[k].0),
{
    let sorted = ssort(releases);
    let groups0 = seed_groups(sorted);
    lemma_assign_keys(groups0, sorted, changes, g);
    lemma_seed_keys_distinct(sorted);
    assert forall|r: int| 0 <= r < releases.len() implies exists|k: int|
        0 <= k < g.len() && (#[trigger] g[k].0) == version_suffix(
            (#[trigger] releases[r]).message,
        ).unwrap() by {
        lemma_ssort_contains(releases, releases[r]);
        assert(releases.contains(releases[r]));
        let w = choose|w: int| 0 <= w < sorted.len() && sorted[w] == releases[r];
        lemma_seed_keys_complete(sorted, w);
        let k = choose|k: int|
            0 <= k < groups0.len() && (#[trigger] groups0[k].0) == version_suffix(
                sorted[w].message,
            ).unwrap();
        assert(g[k].0 == version_suffix(releases[r].message).unwrap());
    }
    assert forall|k: int| 0 <= k < g.len() implies exists|r: int|
        0 <= r < releases.len() && version_suffix((#[trigger] releases[r]).message).unwrap() == (
        #[trigger] g[k].0) by {
        lemma_seed_keys_sound(sorted, k);
        let w = choose|w: int|
            0 <= w < sorted.len() && version_suffix((#[trigger] sorted[w]).message).unwrap()
                == groups0[k].0;
        lemma_ssort_contains(releases, sorted[w]);
        assert(sorted.contains(sorted[w]));
        let r = choose|r: int| 0 <= r < releases.len() && releases[r] == sorted[w];
        assert(version_suffix(releases[r].message).unwrap() == g[k].0);
    }
}

proof fn lemma_assign_nearest(
    groups: Seq<(Seq<char>, Seq<ChangeModel>)>,
    sorted: Seq<ChangeModel>,
    changes: Seq<ChangeModel>,
    g: Seq<(Seq<char>, Seq<ChangeModel>)>,
    k: int,
    x: int,
)
    requires
        assign(groups, sorted, changes) == Ok::<Seq<(Seq<char>, Seq<ChangeModel>)>,
            ChangelogError,
        >(g),
        0 <= k < g.len(),
        0 <= x < g[k].1.len(),
    ensures
        (k < groups.len() && x < groups[k].1.len() && groups[k].1[x] == g[k].1[x]) || (exists|
            j: int,
        |
            pick_spec(sorted, g[k].1[x].date.instant()) == Some(j) && 0 <= j < sorted.len()
                && version_suffix((#[trigger] sorted[j]).message).unwrap() == g[k].0),
    decreases changes.len(),
{
    if changes.len() == 0 {
    } else {
        let c = changes[0];
        match pick_spec(sorted, c.date.instant()) {
            None => {},
            Some(j) => {
                let key = version_suffix(sorted[j].message).unwrap();
                match key_index(groups, key) {
                    None => {},
                    Some(gi) => {
                        lemma_key_index_props(groups, key);
                        lemma_pick_props(sorted, c.date.instant());
                        let groups2 = groups.update(gi, (groups[gi].0, groups[gi].1.push(c)));
                        lemma_assign_keys(groups2, sorted, changes.drop_first(), g);
                        lemma_assign_nearest(groups2, sorted, changes.drop_first(), g, k, x);
                        if k < groups2.len() && x < groups2[k].1.len() && groups2[k].1[x] == g[
                            k].1[x] {
                            if k == gi && x == groups[k].1.len() {
                                assert(g[k].1[x] == c);
                                assert(g[k].0 == groups2[k].0);
                                assert(groups[gi].0 == key);
                                assert(pick_spec(sorted, g[k].1[x].date.instant()) == Some(j)
                                    && 0 <= j < sorted.len() && version_suffix(
                                    sorted[j].message,
                                ).unwrap() == g[k].0);
                            } else if k == gi {
                                assert(groups2[k].1[x] == groups[k].1[x]);
                            } else {
                                assert(groups2[k] == groups[k]);
                            }
                        }
                    },
                }
            },
        }
    }
}

/// Nearest-future assignment: every bucketed change sits under the version
/// of a release that shipped at or after it and whose instant is minimal
/// among all such releases — never under a strictly later candidate.
pub proof fn lemma_nearest_future(
    releases: Seq<ChangeModel>,
    changes: Seq<ChangeModel>,
    g: Seq<(Seq<char>, Seq<ChangeModel>)>,
    k: int,
    x: int,
)
    requires
        bucket_spec(releases, changes) == Ok::<Seq<(Seq<char>, Seq<ChangeModel>)>,
            ChangelogError,
        >(g),
        0 <= k < g.len(),
        0 <= x < g[k].1.len(),
    ensures
        exists|j: int|
            0 <= j < releases.len() && version_suffix((#[trigger] releases[j]).message).unwrap()
                == g[k].0 && releases[j].date.instant() >= g[k].1[x].date.instant() && (forall|
                q: int,
            |
                0 <= q < releases.len() && (#[trigger] releases[q]).date.instant() >= g[
                    k].1[x].date.instant() ==> releases[j].date.instant()
                    <= releases[q].date.instant()),
{
    let sorted = ssort(releases);
    let groups0 = seed_groups(sorted);
    let t = g[k].1[x].date.instant();
    lemma_assign_nearest(groups0, sorted, changes, g, k, x);
    if k < groups0.len() && x < groups0[k].1.len() {
        lemma_seed_empty(sorted, k);
        assert(false);
    }
    let js = choose|js: int|
        pick_spec(sorted, t) == Some(js) && 0 <= js < sorted.len() && version_suffix(
            (#[trigger] sorted[js]).message,
        ).unwrap() == g[k].0;
    lemma_pick_props(sorted, t);
    lemma_ssort_contains(releases, sorted[js]);
    assert(sorted.contains(sorted[js]));
    let j = choose|j: int| 0 <= j < releases.len() && releases[j] == sorted[js];
    assert forall|q: int|
        0 <= q < releases.len() && (#[trigger] releases[q]).date.instant() >= t implies releases[
        j].date.instant() <= releases[q].date.instant() by {
        lemma_ssort_contains(releases, releases[q]);
        assert(releases.contains(releases[q]));
        let wq = choose|wq: int| 0 <= wq < sorted.len() && sorted[wq] == releases[q];
        assert(sorted[wq].date.instant() >= t);
        assert(sorted[js].date.instant() <= sorted[wq].date.instant());
    }
    assert(0 <= j < releases.len() && version_suffix(releases[j].message).unwrap() == g[k].0
        && releases[j].date.instant() >= t);
}

/// For two releases that both shipped at or after a change, the change never
/// lands under the strictly later one: the version it lands under belongs to
/// a release no newer than the earlier of the two.
pub proof fn lemma_nearest_future_pair(
    releases: Seq<ChangeModel>,
    changes: Seq<ChangeModel>,
    g: Seq<(Seq<char>, Seq<ChangeModel>)>,
    k: int,
    x: int,
    r1: int,
    r2: int,
)
    requires
        bucket_spec(releases, changes) == Ok::<Seq<(Seq<char>, Seq<ChangeModel>)>,
            ChangelogError,
        >(g),
        0 <= k < g.len(),
        0 <= x < g[k].1.len(),
        0 <= r1 < releases.len(),
        0 <= r2 < releases.len(),
        releases[r1].date.instant() < releases[r2].date.instant(),
        releases[r1].date.instant() >= g[k].1[x].date.instant(),
    ensures
        exists|j: int|
            0 <= j < releases.len() && version_suffix((#[trigger] releases[j]).message).unwrap()
                == g[k].0 && releases[j].date.instant() <= releases[r1].date.instant() && releases[
                j].date.instant() < releases[r2].date.instant(),
{
    lemma_nearest_future(releases, changes, g, k, x);
    let j = choose|j: int|
        0 <= j < releases.len() && version_suffix((#[trigger] releases[j]).message).unwrap() == g[
            k].0 && releases[j].date.instant() >= g[k].1[x].date.instant() && (forall|q: int|
            0 <= q < releases.len() && (#[trigger] releases[q]).date.instant() >= g[
                k].1[x].date.instant() ==> releases[j].date.instant()
                <= releases[q].date.instant());
    assert(releases[j].date.instant() <= releases[r1].date.instant());
}

/// The subsequence of `s` whose elements sit at instant `t`, in order.
pub open spec fn same_instant_subseq(s: Seq<ChangeModel>, t: int) -> Seq<ChangeModel>
    decreases s.len(),
{
    if s.len() == 0 {
        Seq::empty()
    } else {
        let tail = same_instant_subseq(s.drop_first(), t);
        if s[0].date.instant() == t {
            seq![s[0]] + tail
        } else {
            tail
        }
    }
}

proof fn lemma_same_instant_none(s: Seq<ChangeModel>, t: int)
    requires
        forall|k: int| 0 <= k < s.len() ==> (#[trigger] s[k]).date.instant() != t,
    ensures
        same_instant_subseq(s, t) == Seq::<ChangeModel>::empty(),
    decreases s.len(),
{
    if s.len() > 0 {
        assert(forall|k: int| 0 <= k < s.drop_first().len() ==> s.drop_first()[k] == s[k + 1]);
        lemma_same_instant_none(s.drop_first(), t);
    }
}

proof fn lemma_same_instant_push(s: Seq<ChangeModel>, m: ChangeModel, t: int)
    ensures
        same_instant_subseq(s.push(m), t) == (if m.date.instant() == t {
            same_instant_subseq(s, t).push(m)
        } else {
            same_instant_subseq(s, t)
        }),
    decreases s.len(),
{
    if s.len() == 0 {
        assert(s.push(m)[0] == m);
        assert(s.push(m).drop_first() =~= Seq::<ChangeModel>::empty());
        assert(same_instant_subseq(Seq::<ChangeModel>::empty(), t)
            == Seq::<ChangeModel>::empty());
        assert(s =~= Seq::<ChangeModel>::empty());
        if m.date.instant() == t {
            assert(seq![m] + Seq::<ChangeModel>::empty() =~= same_instant_subseq(
                s,
                t,
            ).push(m));
        }
    } else {
        assert(s.push(m).drop_first() =~= s.drop_first().push(m));
        assert(s.push(m)[0] == s[0]);
        lemma_same_instant_push(s.drop_first(), m, t);
        if s[0].date.instant() == t {
            if m.date.instant() == t {
                assert(seq![s[0]] + same_instant_subseq(s.drop_first(), t).push(m) =~= (seq![s[0]]
                    + same_instant_subseq(s.drop_first(), t)).push(m));
            }
        }
    }
}

proof fn lemma_insert_desc_same_instant(s: Seq<ChangeModel>, x: ChangeModel, t: int)
    requires
        sorted_desc(s),
    ensures
        same_instant_subseq(insert_desc(s, x), t) == (if x.date.instant() == t {
            same_instant_subseq(s, t) + seq![x]
        } else {
            same_instant_subseq(s, t)
        }),
    decreases s.len(),
{
    if s.len() == 0 {
        assert(seq![x].drop_first() =~= Seq::<ChangeModel>::empty());
        assert(same_instant_subseq(Seq::<ChangeModel>::empty(), t)
            == Seq::<ChangeModel>::empty());
        assert(s =~= Seq::<ChangeModel>::empty());
        assert(insert_desc(s, x) == seq![x]);
        if x.date.instant() == t {
            assert(seq![x] + Seq::<ChangeModel>::empty() =~= Seq::<ChangeModel>::empty()
                + seq![x]);
        }
    } else if s[0].date.instant() >= x.date.instant() {
        let rest = s.drop_first();
        let inner = insert_desc(rest, x);
        assert(forall|k1: int, k2: int| 0 <= k1 < k2 < rest.len() ==> rest[k1].date.instant()
            >= rest[k2].date.instant());
        lemma_insert_desc_same_instant(rest, x, t);
        let out = seq![s[0]] + inner;
        assert(out[0] == s[0]);
        assert(out.drop_first() =~= inner);
        if s[0].date.instant() == t {
            if x.date.instant() == t {
                assert(seq![s[0]] + (same_instant_subseq(rest, t) + seq![x]) =~= (seq![s[0]]
                    + same_instant_subseq(rest, t)) + seq![x]);
            }
        }
    } else {
        let out = seq![x] + s;
        assert(out[0] == x);
        assert(out.drop_first() =~= s);
        if x.date.instant() == t {
            assert(forall|k: int| 0 <= k < s.len() ==> (#[trigger] s[k]).date.instant()
                <= s[0].date.instant());
            assert(forall|k: int| 0 <= k < s.len() ==> (#[trigger] s[k]).date.instant() != t);
            lemma_same_instant_none(s, t);
            assert(seq![x] + same_instant_subseq(s, t) =~= same_instant_subseq(s, t) + seq![x]);
        }
    }
}

/// Stability of the newest-first ordering: releases of equal instant keep
/// their original relative order — the equal-instant subsequence of the
/// sorted releases is exactly that of the input.
pub proof fn lemma_ssort_stable(releases: Seq<ChangeModel>, t: int)
    ensures
        same_instant_subseq(ssort(releases), t) == same_instant_subseq(releases, t),
    decreases releases.len(),
{
    if releases.len() > 0 {
        let init = releases.drop_last();
        lemma_ssort_stable(init, t);
        lemma_ssort_sorted(init);
        lemma_insert_desc_same_instant(ssort(init), releases.last(), t);
        assert(init.push(releases.last()) =~= releases);
        lemma_same_instant_push(init, releases.last(), t);
        if releases.last().date.instant() == t {
            assert(same_instant_subseq(init, t) + seq![releases.last()] =~= same_instant_subseq(
                init,
                t,
            ).push(releases.last()));
        }
    }
}

/// The first index of `sorted` whose release carries version `key`.
pub open spec fn key_first_idx(sorted: Seq<ChangeModel>, key: Seq<char>) -> Option<int>
    decreases sorted.len(),
{
    if sorted.len() == 0 {
        None
    } else if version_suffix(sorted[0].message) == Some(key) {
        Some(0)
    } else {
        match key_first_idx(sorted.drop_first(), key) {
            Some(i) => Some(i + 1),
            None => None,
        }
    }
}

proof fn lemma_key_first_props(sorted: Seq<ChangeModel>, key: Seq<char>)
    ensures
        match key_first_idx(sorted, key) {
            Some(i) => 0 <= i < sorted.len() && version_suffix(sorted[i].message) == Some(key)
                && forall|k: int|
                0 <= k < i ==> version_suffix((#[trigger] sorted[k]).message) != Some(key),
            None => forall|k: int|
                0 <= k < sorted.len() ==> version_suffix((#[trigger] sorted[k]).message) != Some(
                    key,
                ),
        },
    decreases sorted.len(),
{
    if sorted.len() > 0 && version_suffix(sorted[0].message) != Some(key) {
        let rest = sorted.drop_first();
        lemma_key_first_props(rest, key);
        assert(forall|k: int| 1 <= k < sorted.len() ==> sorted[k] == rest[k - 1]);
    }
}

proof fn lemma_key_first_push(sorted: Seq<ChangeModel>, m: ChangeModel, key: Seq<char>)
    ensures
        key_first_idx(sorted.push(m), key) == (match key_first_idx(sorted, key) {
            Some(i) => Some(i),
            None => if version_suffix(m.message) == Some(key) {
                Some(sorted.len() as int)
            } else {
                None::<int>
            },
        }),
    decreases sorted.len(),
{
    if sorted.len() == 0 {
        assert(sorted.push(m)[0] == m);
        assert(sorted.push(m).drop_first() =~= Seq::<ChangeModel>::empty());
        assert(key_first_idx(Seq::<ChangeModel>::empty(), key) is None);
        assert(sorted =~= Seq::<ChangeModel>::empty());
    } else {
        assert(sorted.push(m)[0] == sorted[0]);
        assert(sorted.push(m).drop_first() =~= sorted.drop_first().push(m));
        lemma_key_first_push(sorted.drop_first(), m, key);
    }
}

proof fn lemma_seed_key_order(sorted: Seq<ChangeModel>)
    requires
        versions_ok(sorted),
    ensures
        forall|i: int|
            0 <= i < seed_groups(sorted).len() ==> key_first_idx(
                sorted,
                (#[trigger] seed_groups(sorted)[i]).0,
            ) is Some,
        forall|i: int, j: int|
            0 <= i < j < seed_groups(sorted).len() ==> key_first_idx(
                sorted,
                (#[trigger] seed_groups(sorted)[i]).0,
            ).unwrap() < key_first_idx(sorted, (#[trigger] seed_groups(sorted)[j]).0).unwrap(),
    decreases sorted.len(),
{
    if sorted.len() > 0 {
        let init_s = sorted.drop_last();
        let last = sorted.last();
        let key = version_suffix(last.message).unwrap();
        let init = seed_groups(init_s);
        let out = seed_groups(sorted);
        assert(versions_ok(init_s)) by {
            assert(forall|k: int| 0 <= k < init_s.len() ==> init_s[k] == sorted[k]);
        }
        lemma_seed_key_order(init_s);
        assert(init_s.push(last) =~= sorted);
        assert forall|i: int| 0 <= i < init.len() implies key_first_idx(
            sorted,
            (#[trigger] init[i]).0,
        ) == key_first_idx(init_s, init[i].0) && key_first_idx(init_s, init[i].0) is Some by {
            lemma_key_first_push(init_s, last, init[i].0);
        }
        assert forall|i: int| 0 <= i < init.len() implies key_first_idx(init_s, init[i].0).unwrap()
            < init_s.len() by {
            lemma_key_first_props(init_s, init[i].0);
        }
        match key_index(init, key) {
            Some(_) => {
                assert(out == init);
            },
            None => {
                assert(out =~= init.push((key, Seq::<ChangeModel>::empty())));
                assert(forall|i: int| 0 <= i < init.len() ==> out[i] == init[i]);
                assert(out[init.len() as int].0 == key);
                lemma_key_index_props(init, key);
                assert(key_first_idx(init_s, key) is None) by {
                    lemma_key_first_props(init_s, key);
                    match key_first_idx(init_s, key) {
                        Some(w) => {
                            lemma_seed_keys_complete(init_s, w);
                            let k2 = choose|k2: int|
                                0 <= k2 < init.len() && (#[trigger] init[k2].0)
                                    == version_suffix(init_s[w].message).unwrap();
                            assert(init[k2].0 == key);
                            assert(false);
                        },
                        None => {},
                    }
                }
                lemma_key_first_push(init_s, last, key);
                assert(key_first_idx(sorted, key) == Some(init_s.len() as int));
            },
        }
    }
}

/// Order invariant: the output keys follow the newest-first order of the
/// sorted releases — for any two keys, the release that first realizes the
/// earlier key is no older than the one that first realizes the later key.
pub proof fn lemma_order_invariant(
    releases: Seq<ChangeModel>,
    changes: Seq<ChangeModel>,
    g: Seq<(Seq<char>, Seq<ChangeModel>)>,
)
    requires
        bucket_spec(releases, changes) == Ok::<Seq<(Seq<char>, Seq<ChangeModel>)>,
            ChangelogError,
        >(g),
    ensures
        sorted_desc(ssort(releases)),
        forall|i: int|
            0 <= i < g.len() ==> key_first_idx(ssort(releases), (#[trigger] g[i]).0) is Some,
        forall|i: int, j: int|
            0 <= i < j < g.len() ==> key_first_idx(
                ssort(releases),
                (#[trigger] g[i]).0,
            ).unwrap() < key_first_idx(ssort(releases), (#[trigger] g[j]).0).unwrap(),
        forall|i: int, j: int|
            0 <= i < j < g.len() ==> ssort(releases)[key_first_idx(
                ssort(releases),
                (#[trigger] g[i]).0,
            ).unwrap()].date.instant() >= ssort(releases)[key_first_idx(
                ssort(releases),
                (#[trigger] g[j]).0,
            ).unwrap()].date.instant(),
{
    let sorted = ssort(releases);
    let groups0 = seed_groups(sorted);
    lemma_assign_keys(groups0, sorted, changes, g);
    assert(versions_ok(sorted)) by {
        assert forall|k: int| 0 <= k < sorted.len() implies version_suffix(
            (#[trigger] sorted[k]).message,
        ) is Some by {
            lemma_ssort_contains(releases, sorted[k]);
            assert(sorted.contains(sorted[k]));
            let w = choose|w: int| 0 <= w < releases.len() && releases[w] == sorted[k];
        }
    }
    lemma_seed_key_order(sorted);
    lemma_ssort_sorted(releases);
    assert forall|i: int, j: int| 0 <= i < j < g.len() implies sorted[key_first_idx(
        sorted,
        (#[trigger] g[i]).0,
    ).unwrap()].date.instant() >= sorted[key_first_idx(
        sorted,
        (#[trigger] g[j]).0,
    ).unwrap()].date.instant() by {
        lemma_key_first_props(sorted, g[i].0);
        lemma_key_first_props(sorted, g[j].0);
    }
}

/// Buckets every change under the release that first shipped it, exactly as
/// `bucket_spec` denotes.
pub fn bucket_changes(releases: Vec<Change>, changes: Vec<Change>) -> (r: Result<
    ChangeGroup,
    ChangelogError,
>)
    requires
        forall|k: int| 0 <= k < releases@.len() ==> (#[trigger] releases@[k]).wf(),
        forall|k: int| 0 <= k < changes@.len() ==> (#[trigger] changes@[k]).wf(),
    ensures
        ({
            let sp = bucket_spec(models(releases@), models(changes@));
            match r {
                Ok(g) => sp == Ok::<Seq<(Seq<char>, Seq<ChangeModel>)>, ChangelogError>(g@)
                    && g.wf(),
                Err(e) => sp == Err::<Seq<(Seq<char>, Seq<ChangeModel>)>, ChangelogError>(e),
            }
        }),
{
    let ghost rm = models(releases@);
    let ghost cm = models(changes@);
    let nrel = releases.len();
    let mut i: usize = 0;
    while i < nrel
        invariant
            i <= nrel,
            nrel == rm.len(),
            rm == models(releases@),
            forall|k: int| 0 <= k < i ==> version_suffix(#[trigger] rm[k].message) is Some,
        decreases nrel - i,
    {
        let msg = chars_of(releases[i].message.as_str());
        match extract_version(&msg) {
            Some(_) => {},
            None => {
                proof {
                    assert(version_suffix(rm[i as int].message) is None);
                    assert(!versions_ok(rm));
                }
                return Err(ChangelogError::MissingVersionSuffix);
            },
        }
        i += 1;
    }
    proof {
        assert(versions_ok(rm));
    }
    let sorted = sort_releases(releases);
    let ghost sm = models(sorted@);
    proof {
        assert forall|k: int| 0 <= k < sm.len() implies version_suffix(
            #[trigger] sm[k].message,
        ) is Some by {
            assert(sm.contains(sm[k]));
            lemma_ssort_contains(rm, sm[k]);
            let w = choose|w: int| 0 <= w < rm.len() && rm[w] == sm[k];
            assert(version_suffix(rm[w].message) is Some);
        }
    }
    let mut group = ChangeGroup::new();
    let nsort = sorted.len();
    let mut i: usize = 0;
    proof {
        assert(sm.take(0) =~= Seq::<ChangeModel>::empty());
    }
    while i < nsort
        invariant
            i <= nsort,
            nsort == sm.len(),
            sm == models(sorted@),
            versions_ok(sm),
            group@ == seed_groups(sm.take(i as int)),
            group.wf(),
        decreases nsort - i,
    {
        let msg = chars_of(sorted[i].message.as_str());
        let key = match extract_version(&msg) {
            Some(k) => k,
            None => {
                proof {
                    assert(false);
                }
                return Err(ChangelogError::MissingVersionSuffix);
            },
        };
        group.insert_key(string_from_chars(&key));
        proof {
            assert(sm.take(i + 1).drop_last() =~= sm.take(i as int));
            assert(sm.take(i + 1).last() == sm[i as int]);
            assert(group@ == seed_groups(sm.take(i + 1)));
        }
        i += 1;
    }
    proof {
        assert(sm.take(nsort as int) =~= sm);
        assert(group@ == seed_groups(sm));
    }
    let ghost goal = assign(seed_groups(sm), sm, cm);
    let mut rest = changes;
    while rest.len() > 0
        invariant
            rm == models(releases@),
            cm == models(changes@),
            versions_ok(rm),
            sm == ssort(rm),
            goal == assign(seed_groups(sm), sm, cm),
            sm == models(sorted@),
            versions_ok(sm),
            forall|k: int| 0 <= k < sorted@.len() ==> (#[trigger] sorted@[k]).wf(),
            forall|k: int| 0 <= k < rest@.len() ==> (#[trigger] rest@[k]).wf(),
            group.wf(),
            goal == assign(group@, sm, models(rest@)),
        decreases rest@.len(),
    {
        let ghost orm = models(rest@);
        let c = rest.remove(0);
        proof {
            assert(c@ == orm[0]);
            assert(models(rest@) =~= orm.drop_first());
        }
        let cd = c.date;
        let ct = cd.instant_val();
        let pick = pick_release(&sorted, ct);
        match pick {
            None => {
                proof {
                    assert(goal == assign(group@, sm, orm));
                }
                return Err(ChangelogError::InconsistentVersionState);
            },
            Some(j) => {
                let msg = chars_of(sorted[j].message.as_str());
                let key = match extract_version(&msg) {
                    Some(k) => k,
                    None => {
                        proof {
                            assert(false);
                        }
                        return Err(ChangelogError::MissingVersionSuffix);
                    },
                };
                match group.index_of_key(&key) {
                    None => {
                        proof {
                            assert(goal == assign(group@, sm, orm));
                        }
                        return Err(ChangelogError::InconsistentVersionState);
                    },
                    Some(gi) => {
                        proof {
                            lemma_key_index_props(group@, key@);
                        }
                        group.push_change(gi, c);
                        proof {
                            assert(goal == assign(group@, sm, models(rest@)));
                        }
                    },
                }
            },
        }
    }
    proof {
        assert(models(rest@) =~= Seq::<ChangeModel>::empty());
        assert(goal == Ok::<Seq<(Seq<char>, Seq<ChangeModel>)>, ChangelogError>(group@));
    }
    Ok(group)
}

} // verus!
