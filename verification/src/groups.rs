//! Relation ids grouped under keys, held in ascending key order.

use crate::keys::{ascending, is_walk, lemma_walk_is, walk, SortKey};
use crate::schema::RelId;
use std::collections::HashSet;
use vstd::prelude::*;

verus! {

/// One key with the relation ids grouped under it.
#[derive(Debug, PartialEq, Eq)]
pub struct Group<K> {
    pub key: K,
    pub rel_ids: HashSet<RelId>,
}

/// A map from keys to sets of relation ids that is walked in ascending key
/// order, so that whatever is built from it is built in the same order on
/// every run.
#[derive(Debug, PartialEq, Eq)]
pub struct Groups<K: SortKey> {
    entries: Vec<Group<K>>,
}

/// The map that a sequence of keys and a sequence of sets stand for: each key
/// is mapped to the set at its position.
pub open spec fn grouped<A>(keys: Seq<A>, sets: Seq<Set<RelId>>) -> Map<A, Set<RelId>> {
    Map::new(|k: A| keys.contains(k), |k: A| sets[keys.index_of(k)])
}

/// Whether `rel` is grouped under `key`.
pub open spec fn holds<A>(groups: Map<A, Set<RelId>>, key: A, rel: RelId) -> bool {
    groups.contains_key(key) && groups[key].contains(rel)
}

/// Whether every key has at least one relation id grouped under it.
pub open spec fn no_empty_group<A>(groups: Map<A, Set<RelId>>) -> bool {
    forall|key: A| #[trigger]
        groups.contains_key(key) ==> exists|rel: RelId| holds(groups, key, rel)
}

/// A map without empty groups is determined by what is grouped under what.
pub proof fn lemma_groups_determined<A>(a: Map<A, Set<RelId>>, b: Map<A, Set<RelId>>)
    requires
        no_empty_group(a),
        no_empty_group(b),
        forall|key: A, rel: RelId|
            #![trigger holds(a, key, rel)]
            #![trigger holds(b, key, rel)]
            holds(a, key, rel) <==> holds(b, key, rel),
    ensures
        a == b,
{
    assert forall|key: A| a.contains_key(key) <==> b.contains_key(key) by {
        if a.contains_key(key) {
            let rel = choose|rel: RelId| holds(a, key, rel);
            assert(holds(b, key, rel));
        }
        if b.contains_key(key) {
            let rel = choose|rel: RelId| holds(b, key, rel);
            assert(holds(a, key, rel));
        }
    }
    assert forall|key: A| a.contains_key(key) implies a[key] =~= b[key] by {
        assert forall|rel: RelId| a[key].contains(rel) <==> b[key].contains(rel) by {
            assert(holds(a, key, rel) <==> holds(b, key, rel));
        }
    }
    assert(a =~= b);
}

/// In an ascending sequence no key occurs twice, so the map it stands for
/// holds at each key the set at the key's position.
pub proof fn lemma_grouped_at<K: SortKey>(keys: Seq<K::V>, sets: Seq<Set<RelId>>, i: int)
    requires
        ascending::<K>(keys),
        0 <= i < keys.len(),
    ensures
        grouped(keys, sets).contains_key(keys[i]),
        grouped(keys, sets)[keys[i]] == sets[i],
        keys.index_of(keys[i]) == i,
{
    let j = keys.index_of(keys[i]);
    assert(keys.contains(keys[i]));
    if j != i {
        K::lemma_irreflexive(keys[i]);
    }
}

impl<K: SortKey> View for Groups<K> {
    type V = Map<K::V, Set<RelId>>;

    open spec fn view(&self) -> Map<K::V, Set<RelId>> {
        grouped(self.keys(), self.sets())
    }
}

impl<K: SortKey> Groups<K> {
    /// The keys, in the order in which the groups are walked.
    pub closed spec fn keys(&self) -> Seq<K::V> {
        Seq::new(self.entries@.len(), |i: int| self.entries@[i].key@)
    }

    /// The set of each group, in the order in which the groups are walked.
    pub closed spec fn sets(&self) -> Seq<Set<RelId>> {
        Seq::new(self.entries@.len(), |i: int| self.entries@[i].rel_ids@)
    }

    /// Well-formedness: one set per key, and the keys strictly ascending.
    pub open spec fn wf(&self) -> bool {
        &&& self.keys().len() == self.sets().len()
        &&& ascending::<K>(self.keys())
    }

    /// No groups.
    pub fn new() -> (groups: Self)
        ensures
            groups.wf(),
            groups.keys() == Seq::<K::V>::empty(),
            groups.sets() == Seq::<Set<RelId>>::empty(),
            groups@ == Map::<K::V, Set<RelId>>::empty(),
    {
        let groups = Groups { entries: Vec::new() };
        assert(groups.keys() =~= Seq::<K::V>::empty());
        assert(groups.sets() =~= Seq::<Set<RelId>>::empty());
        assert(groups@ =~= Map::<K::V, Set<RelId>>::empty());
        groups
    }

    /// The number of groups.
    pub fn len(&self) -> (n: usize)
        ensures
            n == self.keys().len(),
            n == self.sets().len(),
    {
        self.entries.len()
    }

    /// Whether there is no group.
    pub fn is_empty(&self) -> (b: bool)
        ensures
            b == (self.keys().len() == 0),
    {
        self.entries.len() == 0
    }

    /// The key of the group at position `i`.
    pub fn key(&self, i: usize) -> (key: &K)
        requires
            i < self.keys().len(),
        ensures
            key@ == self.keys()[i as int],
    {
        &self.entries[i].key
    }

    /// The relation ids of the group at position `i`.
    pub fn rel_ids(&self, i: usize) -> (rel_ids: &HashSet<RelId>)
        requires
            i < self.sets().len(),
        ensures
            rel_ids@ == self.sets()[i as int],
    {
        &self.entries[i].rel_ids
    }

    /// The groups themselves, in the order in which they are walked.
    pub fn into_groups(self) -> (groups: Vec<Group<K>>)
        ensures
            groups@.len() == self.keys().len(),
            groups@.len() == self.sets().len(),
            forall|i: int|
                #![trigger groups@[i]]
                0 <= i < groups@.len() ==> groups@[i].key@ == self.keys()[i] && groups@[i].rel_ids@
                    == self.sets()[i],
    {
        self.entries
    }

    /// The keys of well-formed groups are the walk of the keys of the map
    /// that the groups stand for, and each set is what the map holds at the
    /// key of its position.
    pub proof fn lemma_walk(&self)
        requires
            self.wf(),
        ensures
            self.keys() == walk::<K>(self@.dom()),
            forall|i: int|
                #![trigger self.sets()[i]]
                0 <= i < self.keys().len() ==> self.sets()[i] == self@[self.keys()[i]],
    {
        let keys = self.keys();
        assert(is_walk::<K>(keys, self@.dom()));
        lemma_walk_is::<K>(keys, self@.dom());
        assert forall|i: int| #![trigger self.sets()[i]] 0 <= i < keys.len() implies self.sets()[i]
            == self@[keys[i]] by {
            lemma_grouped_at::<K>(keys, self.sets(), i);
        }
    }

    /// The position of the first group whose key does not stand before `key`,
    /// or the number of groups if every key stands before it.
    fn position(&self, key: &K) -> (i: usize)
        requires
            self.wf(),
        ensures
            i <= self.keys().len(),
            forall|j: int| 0 <= j < i ==> K::precedes(self.keys()[j], key@),
            i < self.keys().len() ==> !K::precedes(self.keys()[i as int], key@),
    {
        let mut i: usize = 0;
        while i < self.entries.len()
            invariant
                i <= self.entries@.len(),
                self.entries@.len() == self.keys().len(),
                forall|j: int| 0 <= j < i ==> K::precedes(self.keys()[j], key@),
            decreases self.entries@.len() - i,
        {
            if !self.entries[i].key.is_before(key) {
                return i;
            }
            i += 1;
        }
        i
    }

    /// The relation ids grouped under `key`, if there are any.
    pub fn get(&self, key: &K) -> (found: Option<&HashSet<RelId>>)
        requires
            self.wf(),
        ensures
            match found {
                Some(rel_ids) => self@.contains_key(key@) && rel_ids@ == self@[key@],
                None => !self@.contains_key(key@),
            },
    {
        let i = self.position(key);
        if i < self.entries.len() && self.entries[i].key.is_same(key) {
            proof {
                lemma_grouped_at::<K>(self.keys(), self.sets(), i as int);
            }
            Some(&self.entries[i].rel_ids)
        } else {
            proof {
                self.lemma_absent(key@, i as int);
            }
            None
        }
    }

    /// Whether any relation id is grouped under `key`.
    pub fn contains_key(&self, key: &K) -> (b: bool)
        requires
            self.wf(),
        ensures
            b == self@.contains_key(key@),
    {
        self.get(key).is_some()
    }

    /// A key that stands between its neighbours at position `i` without
    /// being the key at `i` is not among the keys.
    proof fn lemma_absent(&self, key: K::V, i: int)
        requires
            self.wf(),
            0 <= i <= self.keys().len(),
            forall|j: int| 0 <= j < i ==> K::precedes(self.keys()[j], key),
            i < self.keys().len() ==> !K::precedes(self.keys()[i], key) && self.keys()[i] != key,
        ensures
            !self.keys().contains(key),
            !self@.contains_key(key),
            forall|j: int| i <= j < self.keys().len() ==> K::precedes(key, self.keys()[j]),
    {
        let keys = self.keys();
        assert forall|j: int| i <= j < keys.len() implies K::precedes(key, keys[j]) by {
            K::lemma_connected(keys[i], key);
            if i < j {
                K::lemma_transitive(key, keys[i], keys[j]);
            }
        }
        if keys.contains(key) {
            let j = keys.index_of(key);
            K::lemma_irreflexive(key);
        }
    }

    /// What adding one relation id under one key changes.
    proof fn lemma_inserted(
        before: Map<K::V, Set<RelId>>,
        after: Map<K::V, Set<RelId>>,
        key: K::V,
        rel: RelId,
    )
        requires
            after == before.insert(
                key,
                (if before.contains_key(key) {
                    before[key]
                } else {
                    Set::<RelId>::empty()
                }).insert(rel),
            ),
        ensures
            forall|k: K::V, r: RelId|
                #![trigger holds(after, k, r)]
                holds(after, k, r) <==> holds(before, k, r) || (k == key && r == rel),
            no_empty_group(before) ==> no_empty_group(after),
    {
        assert forall|k: K::V, r: RelId|
            holds(after, k, r) <==> holds(before, k, r) || (k == key && r == rel) by {
            if k == key {
                assert(after[k].contains(r) <==> r == rel || (before.contains_key(key)
                    && before[key].contains(r)));
            }
        }
        if no_empty_group(before) {
            assert forall|k: K::V| after.contains_key(k) implies exists|r: RelId|
                holds(after, k, r) by {
                if k == key {
                    assert(holds(after, k, rel));
                } else {
                    let r = choose|r: RelId| holds(before, k, r);
                    assert(holds(after, k, r));
                }
            }
        }
    }

    /// Adds `rel` to the relation ids grouped under `key`, starting a new
    /// group if there is none under that key yet.
    pub fn insert(&mut self, key: &K, rel: RelId)
        requires
            old(self).wf(),
        ensures
            final(self).wf(),
            final(self)@ == old(self)@.insert(
                key@,
                (if old(self)@.contains_key(key@) {
                    old(self)@[key@]
                } else {
                    Set::<RelId>::empty()
                }).insert(rel),
            ),
            forall|k: K::V, r: RelId|
                #![trigger holds(final(self)@, k, r)]
                holds(final(self)@, k, r) <==> holds(old(self)@, k, r) || (k == key@ && r == rel),
            no_empty_group(old(self)@) ==> no_empty_group(final(self)@),
    {
        let i = self.position(key);
        let ghost old_keys = self.keys();
        let ghost old_sets = self.sets();
        if i < self.entries.len() && self.entries[i].key.is_same(key) {
            let mut group = self.entries.remove(i);
            group.rel_ids.insert(rel);
            self.entries.insert(i, group);
            proof {
                assert(self.keys() =~= old_keys);
                assert(self.sets() =~= old_sets.update(i as int, old_sets[i as int].insert(rel)));
                lemma_grouped_at::<K>(old_keys, old_sets, i as int);
                assert forall|k: K::V| old_keys.contains(k) implies grouped(
                    self.keys(),
                    self.sets(),
                )[k] == grouped(old_keys, old_sets).insert(key@, old_sets[i as int].insert(rel))[k] by {
                    let j = old_keys.index_of(k);
                    lemma_grouped_at::<K>(old_keys, old_sets, j);
                }
                assert(self@ =~= grouped(old_keys, old_sets).insert(
                    key@,
                    old_sets[i as int].insert(rel),
                ));
                Self::lemma_inserted(old(self)@, self@, key@, rel);
            }
        } else {
            let mut rel_ids = HashSet::new();
            rel_ids.insert(rel);
            proof {
                old(self).lemma_absent(key@, i as int);
            }
            self.entries.insert(i, Group { key: key.duplicate(), rel_ids });
            proof {
                let new_keys = self.keys();
                let new_sets = self.sets();
                assert(new_keys =~= old_keys.insert(i as int, key@));
                assert(new_sets =~= old_sets.insert(i as int, Set::<RelId>::empty().insert(rel)));
                assert(ascending::<K>(new_keys)) by {
                    assert forall|a: int, b: int| 0 <= a < b < new_keys.len() implies K::precedes(
                        new_keys[a],
                        new_keys[b],
                    ) by {
                        if a < i && b > i {
                            assert(new_keys[a] == old_keys[a]);
                            assert(new_keys[b] == old_keys[b - 1]);
                            if a < b - 1 {
                            } else {
                                K::lemma_transitive(old_keys[a], key@, old_keys[b - 1]);
                            }
                        }
                    }
                }
                assert forall|k: K::V| new_keys.contains(k) implies grouped(new_keys, new_sets)[k]
                    == grouped(old_keys, old_sets).insert(
                    key@,
                    Set::<RelId>::empty().insert(rel),
                )[k] by {
                    let j = new_keys.index_of(k);
                    lemma_grouped_at::<K>(new_keys, new_sets, j);
                    if j < i {
                        lemma_grouped_at::<K>(old_keys, old_sets, j);
                    } else if j > i {
                        lemma_grouped_at::<K>(old_keys, old_sets, j - 1);
                    }
                }
                assert forall|k: K::V| old_keys.contains(k) implies new_keys.contains(k) by {
                    let j = old_keys.index_of(k);
                    if j < i {
                        assert(new_keys[j] == k);
                    } else {
                        assert(new_keys[j + 1] == k);
                    }
                }
                assert(new_keys[i as int] == key@);
                assert(self@ =~= grouped(old_keys, old_sets).insert(
                    key@,
                    Set::<RelId>::empty().insert(rel),
                ));
                Self::lemma_inserted(old(self)@, self@, key@, rel);
            }
        }
    }
}

} // verus!
