//! The engine's output structure: an insertion-ordered mapping from version
//! string to the list of records shipped in that version, modeled as a
//! sequence of key-value pairs with unique keys.

use vstd::prelude::*;
use crate::change::Change;
use crate::change::ChangeModel;
use crate::change::models;
use crate::strutil::chars_of;
use crate::strutil::chars_eq;

verus! {

/// The index of the first entry of `groups` whose key is `key`.
pub open spec fn key_index(
    groups: Seq<(Seq<char>, Seq<ChangeModel>)>,
    key: Seq<char>,
) -> Option<int>
    decreases groups.len(),
{
    if groups.len() == 0 {
        None
    } else if groups[0].0 == key {
        Some(0)
    } else {
        match key_index(groups.drop_first(), key) {
            Some(i) => Some(i + 1),
            None => None,
        }
    }
}

pub proof fn lemma_key_index_props(groups: Seq<(Seq<char>, Seq<ChangeModel>)>, key: Seq<char>)
    ensures
        match key_index(groups, key) {
            Some(i) => 0 <= i < groups.len() && groups[i].0 == key && forall|k: int|
                0 <= k < i ==> groups[k].0 != key,
            None => forall|k: int| 0 <= k < groups.len() ==> groups[k].0 != key,
        },
    decreases groups.len(),
{
    if groups.len() > 0 && groups[0].0 != key {
        let rest = groups.drop_first();
        lemma_key_index_props(rest, key);
        assert(forall|k: int| 1 <= k < groups.len() ==> groups[k] == rest[k - 1]);
        match key_index(rest, key) {
            Some(i) => {
                assert(groups[i + 1].0 == key);
                assert(forall|k: int| 0 <= k < i + 1 ==> groups[k].0 != key) by {
                    assert(forall|k: int| 1 <= k < i + 1 ==> groups[k] == rest[k - 1] && rest[k
                        - 1].0 != key);
                }
            },
            None => {
                assert(forall|k: int| 0 <= k < groups.len() ==> groups[k].0 != key) by {
                    assert(forall|k: int| 1 <= k < groups.len() ==> groups[k] == rest[k - 1]
                        && rest[k - 1].0 != key);
                }
            },
        }
    }
}

/// `groups` with `key` present: untouched when it already has the key,
/// otherwise extended by an empty entry for it.
pub open spec fn group_insert(
    groups: Seq<(Seq<char>, Seq<ChangeModel>)>,
    key: Seq<char>,
) -> Seq<(Seq<char>, Seq<ChangeModel>)> {
    if key_index(groups, key) is Some {
        groups
    } else {
        groups.push((key, Seq::empty()))
    }
}

/// The version-keyed, insertion-ordered collection of change lists.
#[derive(Debug)]
pub struct ChangeGroup {
    pub entries: Vec<(String, Vec<Change>)>,
}

impl View for ChangeGroup {
    type V = Seq<(Seq<char>, Seq<ChangeModel>)>;

    open spec fn view(&self) -> Seq<(Seq<char>, Seq<ChangeModel>)> {
        self.entries@.map_values(|e: (String, Vec<Change>)| (e.0@, models(e.1@)))
    }
}

impl ChangeGroup {
    /// Keys are unique: each release appears exactly once.
    pub open spec fn wf(self) -> bool {
        forall|i: int, j: int| 0 <= i < j < self@.len() ==> self@[i].0 != self@[j].0
    }

    /// An empty mapping.
    pub fn new() -> (r: Self)
        ensures
            r@ == Seq::<(Seq<char>, Seq<ChangeModel>)>::empty(),
            r.wf(),
    {
        let r = ChangeGroup { entries: Vec::new() };
        proof {
            assert(r@ =~= Seq::<(Seq<char>, Seq<ChangeModel>)>::empty());
        }
        r
    }

    /// How many releases the mapping holds.
    pub fn len(&self) -> (r: usize)
        ensures
            r == self@.len(),
    {
        self.entries.len()
    }

    /// The version string of the entry at `i`.
    pub fn key_at(&self, i: usize) -> (r: &String)
        requires
            i < self@.len(),
        ensures
            r@ == self@[i as int].0,
    {
        &self.entries[i].0
    }

    /// The records of the entry at `i`, in insertion order.
    pub fn changes_at(&self, i: usize) -> (r: &Vec<Change>)
        requires
            i < self@.len(),
        ensures
            models(r@) == self@[i as int].1,
    {
        &self.entries[i].1
    }

    /// Finds the first entry whose key is `key`.
    pub fn index_of_key(&self, key: &Vec<char>) -> (r: Option<usize>)
        ensures
            r matches Some(i) ==> key_index(self@, key@) == Some(i as int),
            r is None ==> key_index(self@, key@) is None,
    {
        let n = self.entries.len();
        let mut i: usize = 0;
        while i < n
            invariant
                i <= n,
                n == self@.len(),
                forall|k: int| 0 <= k < i ==> self@[k].0 != key@,
            decreases n - i,
        {
            let ki = chars_of(self.entries[i].0.as_str());
            if chars_eq(&ki, key) {
                proof {
                    lemma_key_index_props(self@, key@);
                    match key_index(self@, key@) {
                        Some(i2) => {
                            if i2 < i as int {
                                assert(self@[i2].0 != key@);
                                assert(false);
                            }
                            if i2 > i as int {
                                assert(self@[i as int].0 != key@);
                                assert(false);
                            }
                        },
                        None => {
                            assert(self@[i as int].0 != key@);
                            assert(false);
                        },
                    }
                }
                return Some(i);
            }
            i += 1;
        }
        proof {
            lemma_key_index_props(self@, key@);
            match key_index(self@, key@) {
                Some(i2) => {
                    assert(self@[i2].0 != key@);
                    assert(false);
                },
                None => {},
            }
        }
        None
    }

    /// Makes sure `key` has an entry: a fresh empty one when it is new, the
    /// existing one (kept in place, contents kept) when it is not.
    pub fn insert_key(&mut self, key: String) -> (u: ())
        ensures
            final(self)@ == group_insert(old(self)@, key@),
            old(self).wf() ==> final(self).wf(),
    {
        let kc = chars_of(key.as_str());
        match self.index_of_key(&kc) {
            Some(_) => {},
            None => {
                proof {
                    lemma_key_index_props(self@, key@);
                }
                self.entries.push((key, Vec::new()));
                proof {
                    assert(models(Seq::<Change>::empty()) =~= Seq::<ChangeModel>::empty());
                    assert(self@ =~= group_insert(old(self)@, kc@));
                }
            },
        }
    }

    /// Appends `c` to the entry at `i`, leaving every key and every other
    /// entry as it was.
    pub fn push_change(&mut self, i: usize, c: Change) -> (u: ())
        requires
            i < old(self)@.len(),
        ensures
            final(self)@ == old(self)@.update(
                i as int,
                (old(self)@[i as int].0, old(self)@[i as int].1.push(c@)),
            ),
            old(self).wf() ==> final(self).wf(),
    {
        let mut e = self.entries.remove(i);
        e.1.push(c);
        self.entries.insert(i, e);
        proof {
            let oe = old(self).entries@;
            let mid = oe.remove(i as int);
            assert(forall|k: int| 0 <= k < i ==> mid[k] == oe[k]);
            assert(forall|k: int| i <= k < mid.len() ==> mid[k] == oe[k + 1]);
            assert(forall|k: int| 0 <= k < i ==> self.entries@[k] == mid[k]);
            assert(forall|k: int| i < k < self.entries@.len() ==> self.entries@[k] == mid[k - 1]);
            assert(self@ =~~= old(self)@.update(
                i as int,
                (old(self)@[i as int].0, old(self)@[i as int].1.push(c@)),
            ));
        }
    }
}

} // verus!
