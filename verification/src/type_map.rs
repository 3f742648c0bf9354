use std::any::TypeId;
use vstd::prelude::*;

use crate::any::{RcAny, TypeInfo};

verus! {

/// A map keyed by type: at most one value per type identifier.
///
/// Its view maps each type identifier to its value; `key_infos` maps it to the type
/// information under which it was first inserted.
pub struct TypeMap<V> {
    entries: Vec<(TypeInfo, V)>,
}

/// The identifiers of a sequence of entries, in order.
pub open spec fn entry_ids<V>(s: Seq<(TypeInfo, V)>) -> Seq<TypeId> {
    s.map_values(|e: (TypeInfo, V)| e.0.id)
}

impl<V> TypeMap<V> {
    /// No two entries share a type identifier.
    #[verifier::type_invariant]
    pub closed spec fn wf(&self) -> bool {
        entry_ids(self.entries@).no_duplicates()
    }

    /// The stored entries in storage order.
    pub closed spec fn entry_seq(&self) -> Seq<(TypeInfo, V)> {
        self.entries@
    }

    /// Position of the entry for `id` (meaningful when the map contains `id`).
    pub closed spec fn position(&self, id: TypeId) -> int {
        choose|i: int| 0 <= i < self.entries@.len() && self.entries@[i].0.id == id
    }

    /// The values, by type identifier.
    pub closed spec fn view(&self) -> Map<TypeId, V> {
        Map::new(
            |id: TypeId| exists|i: int| 0 <= i < self.entries@.len() && self.entries@[i].0.id == id,
            |id: TypeId| self.entries@[self.position(id)].1,
        )
    }

    /// The type information stored as key, by type identifier.
    pub closed spec fn key_infos(&self) -> Map<TypeId, TypeInfo> {
        Map::new(
            |id: TypeId| exists|i: int| 0 <= i < self.entries@.len() && self.entries@[i].0.id == id,
            |id: TypeId| self.entries@[self.position(id)].0,
        )
    }

    /// The entry sequence and the views agree: every entry is in the views, every key of
    /// the views comes from exactly one entry, and the domain has one element per entry.
    pub proof fn lemma_entries(&self)
        requires
            self.wf(),
        ensures
            self@.dom().finite(),
            self@.dom() == self.key_infos().dom(),
            self@.dom().len() == self.entry_seq().len(),
            forall|i: int|
                #![trigger self.entry_seq()[i]]
                0 <= i < self.entry_seq().len() ==> {
                    &&& self@.contains_key(self.entry_seq()[i].0.id)
                    &&& self@[self.entry_seq()[i].0.id] == self.entry_seq()[i].1
                    &&& self.key_infos()[self.entry_seq()[i].0.id] == self.entry_seq()[i].0
                },
            forall|i: int, j: int|
                0 <= i < self.entry_seq().len() && 0 <= j < self.entry_seq().len() && i != j
                    ==> self.entry_seq()[i].0.id != self.entry_seq()[j].0.id,
            forall|id: TypeId|
                #[trigger] self@.contains_key(id) ==> {
                    &&& 0 <= self.position(id) < self.entry_seq().len()
                    &&& self.entry_seq()[self.position(id)].0.id == id
                    &&& self.key_infos()[id].id == id
                },
    {
        let s = self.entries@;
        let ids = entry_ids(s);
        assert forall|i: int, j: int|
            0 <= i < s.len() && 0 <= j < s.len() && i != j implies s[i].0.id != s[j].0.id by {
            assert(ids[i] == s[i].0.id);
            assert(ids[j] == s[j].0.id);
        }
        assert forall|i: int| #![trigger s[i]] 0 <= i < s.len() implies {
            &&& self@.contains_key(s[i].0.id)
            &&& self@[s[i].0.id] == s[i].1
            &&& self.key_infos()[s[i].0.id] == s[i].0
        } by {
            let id = s[i].0.id;
            assert(self@.contains_key(id));
            let p = self.position(id);
            assert(0 <= p < s.len() && s[p].0.id == id);
            assert(p == i);
        }
        assert(self@.dom() =~= ids.to_set()) by {
            assert forall|id: TypeId| self@.dom().contains(id) implies ids.to_set().contains(id) by {
                let i = choose|i: int| 0 <= i < s.len() && s[i].0.id == id;
                assert(ids[i] == id);
            }
            assert forall|id: TypeId| ids.to_set().contains(id) implies self@.dom().contains(id) by {
                let i = choose|i: int| 0 <= i < ids.len() && ids[i] == id;
                assert(s[i].0.id == id);
            }
        }
        assert(self@.dom() =~= self.key_infos().dom());
        ids.unique_seq_to_set();
    }

    /// An empty map.
    pub fn new() -> (r: Self)
        ensures
            r@ == Map::<TypeId, V>::empty(),
            r.key_infos() == Map::<TypeId, TypeInfo>::empty(),
            r.entry_seq() == Seq::<(TypeInfo, V)>::empty(),
    {
        let r = TypeMap { entries: Vec::new() };
        assert(r@ =~= Map::<TypeId, V>::empty());
        assert(r.key_infos() =~= Map::<TypeId, TypeInfo>::empty());
        r
    }

    /// The number of entries.
    pub fn len(&self) -> (r: usize)
        ensures
            r == self@.len(),
            r == self.entry_seq().len(),
    {
        proof {
            use_type_invariant(self);
            self.lemma_entries();
        }
        self.entries.len()
    }

    /// Where the entry for `key`'s type is stored, if there is one.
    fn find(&self, key: &TypeInfo) -> (r: Option<usize>)
        ensures
            r matches Some(i) ==> i < self.entry_seq().len() && self.entry_seq()[i as int].0.id
                == key.id,
            r is None ==> !self@.contains_key(key.id),
            r is Some <==> self@.contains_key(key.id),
    {
        proof {
            use_type_invariant(self);
            self.lemma_entries();
        }
        let mut i: usize = 0;
        while i < self.entries.len()
            invariant
                i <= self.entries@.len(),
                forall|j: int| 0 <= j < i ==> self.entries@[j].0.id != key.id,
            decreases self.entries@.len() - i,
        {
            if self.entries[i].0.same_type(key) {
                return Some(i);
            }
            i = i + 1;
        }
        None
    }

    /// Whether a value is stored for `key`'s type.
    pub fn contains_key(&self, key: &TypeInfo) -> (r: bool)
        ensures
            r == self@.contains_key(key.id),
    {
        self.find(key).is_some()
    }

    /// The value stored for `key`'s type.
    pub fn get(&self, key: &TypeInfo) -> (r: Option<&V>)
        ensures
            r is Some <==> self@.contains_key(key.id),
            r matches Some(v) ==> *v == self@[key.id],
    {
        proof {
            use_type_invariant(self);
            self.lemma_entries();
        }
        match self.find(key) {
            Some(i) => Some(&self.entries[i].1),
            None => None,
        }
    }

    /// The entry at a storage position.
    pub fn entry(&self, i: usize) -> (r: &(TypeInfo, V))
        requires
            i < self.entry_seq().len(),
        ensures
            *r == self.entry_seq()[i as int],
    {
        &self.entries[i]
    }

    /// Stores `value` for `key`'s type and returns the value it replaces.
    ///
    /// A replaced entry keeps the type information it was first stored under.
    pub fn insert(&mut self, key: TypeInfo, value: V) -> (r: Option<V>)
        ensures
            final(self)@ == old(self)@.insert(key.id, value),
            final(self).key_infos() == (if old(self)@.contains_key(key.id) {
                old(self).key_infos()
            } else {
                old(self).key_infos().insert(key.id, key)
            }),
            old(self)@.contains_key(key.id) ==> r == Some(old(self)@[key.id]),
            !old(self)@.contains_key(key.id) ==> r is None,
    {
        proof {
            use_type_invariant(&*self);
            self.lemma_entries();
        }
        let ghost pre = *self;
        let ghost old_view = self@;
        let ghost old_keys = self.key_infos();
        let mut entries: Vec<(TypeInfo, V)> = Vec::new();
        std::mem::swap(&mut entries, &mut self.entries);
        let ghost s = entries@;
        assert(entry_ids(s).no_duplicates());
        let found = find_in(&entries, &key);
        match found {
            Some(i) => {
                let (k, previous) = entries.remove(i);
                entries.push((k, value));
                let ghost t = entries@;
                proof {
                    lemma_remove_push_ids(s, i as int, (k, value));
                }
                self.entries = entries;
                proof {
                    use_type_invariant(&*self);
                    self.lemma_entries();
                    let n = t.len() - 1;
                    // Where an old position lands after the removal and push.
                    assert forall|j: int| 0 <= j < s.len() implies #[trigger] s[j] == (if j == i {
                        s[j]
                    } else if j < i {
                        t[j]
                    } else {
                        t[j - 1]
                    }) by {
                        if j != i {
                            lemma_remove_index(s, i as int, j);
                        }
                    }
                    assert(t[n] == (k, value));
                    assert forall|id: TypeId| #[trigger] self@.contains_key(id) == old_view.contains_key(id) by {
                        if self@.contains_key(id) {
                            let j = self.position(id);
                            if j < n {
                                let jj = if j < i { j } else { j + 1 };
                                lemma_remove_index(s, i as int, jj);
                                assert(s[jj].0.id == id);
                            } else {
                                assert(s[i as int].0.id == id);
                            }
                        }
                        if old_view.contains_key(id) {
                            let j = pre.position(id);
                            if j == i {
                                assert(t[n].0.id == id);
                            } else if j < i {
                                assert(t[j].0.id == id);
                            } else {
                                assert(t[j - 1].0.id == id);
                            }
                        }
                    }
                    assert(self@ =~= old_view.insert(key.id, value)) by {
                        assert forall|id: TypeId| #[trigger] self@.contains_key(id) implies self@[id] == old_view.insert(key.id, value)[id] by {
                            if id == key.id {
                                assert(t[n].0.id == id);
                            } else {
                                let j = pre.position(id);
                                if j < i {
                                    assert(t[j].0.id == id);
                                } else {
                                    assert(t[j - 1].0.id == id);
                                }
                            }
                        }
                    }
                    assert(self.key_infos() =~= old_keys) by {
                        assert forall|id: TypeId| #[trigger] self.key_infos().contains_key(id) implies self.key_infos()[id] == old_keys[id] by {
                            let j = pre.position(id);
                            if j == i {
                                assert(t[n].0.id == id);
                            } else if j < i {
                                assert(t[j].0.id == id);
                            } else {
                                assert(t[j - 1].0.id == id);
                            }
                        }
                    }
                }
                Some(previous)
            },
            None => {
                entries.push((key, value));
                let ghost t = entries@;
                proof {
                    lemma_push_ids(s, (key, value));
                }
                self.entries = entries;
                proof {
                    use_type_invariant(&*self);
                    self.lemma_entries();
                    assert(self@ =~= old_view.insert(key.id, value)) by {
                        assert forall|id: TypeId| #[trigger] self@.contains_key(id) <==> old_view.insert(key.id, value).contains_key(id) by {
                            if self@.contains_key(id) {
                                let j = self.position(id);
                                if j < s.len() {
                                    assert(t[j] == s[j]);
                                }
                            }
                            if old_view.contains_key(id) {
                                let j = pre.position(id);
                                assert(t[j] == s[j]);
                            }
                            if id == key.id {
                                assert(t[s.len() as int].0.id == id);
                            }
                        }
                        assert forall|id: TypeId| #[trigger] self@.contains_key(id) implies self@[id] == old_view.insert(key.id, value)[id] by {
                            if id == key.id {
                                assert(t[s.len() as int].0.id == id);
                            } else {
                                let j = pre.position(id);
                                assert(t[j] == s[j]);
                            }
                        }
                    }
                    assert(self.key_infos() =~= old_keys.insert(key.id, key)) by {
                        assert forall|id: TypeId| #[trigger] self.key_infos().contains_key(id) <==> old_keys.insert(key.id, key).contains_key(id) by {
                            if self@.contains_key(id) {
                                let j = self.position(id);
                                if j < s.len() {
                                    assert(t[j] == s[j]);
                                }
                            }
                            if old_view.contains_key(id) {
                                let j = pre.position(id);
                                assert(t[j] == s[j]);
                            }
                            if id == key.id {
                                assert(t[s.len() as int].0.id == id);
                            }
                        }
                        assert forall|id: TypeId| #[trigger] self.key_infos().contains_key(id) implies self.key_infos()[id] == old_keys.insert(key.id, key)[id] by {
                            if id == key.id {
                                assert(t[s.len() as int].0.id == id);
                            } else {
                                let j = pre.position(id);
                                assert(t[j] == s[j]);
                            }
                        }
                    }
                }
                None
            },
        }
    }
}

/// Searches a sequence of entries for `key`'s type.
fn find_in<V>(entries: &Vec<(TypeInfo, V)>, key: &TypeInfo) -> (r: Option<usize>)
    ensures
        r matches Some(i) ==> i < entries@.len() && entries@[i as int].0.id == key.id,
        r is None ==> forall|j: int| 0 <= j < entries@.len() ==> entries@[j].0.id != key.id,
{
    let mut i: usize = 0;
    while i < entries.len()
        invariant
            i <= entries@.len(),
            forall|j: int| 0 <= j < i ==> entries@[j].0.id != key.id,
        decreases entries@.len() - i,
    {
        if entries[i].0.same_type(key) {
            return Some(i);
        }
        i = i + 1;
    }
    None
}

/// An element other than the removed one keeps its value after `remove`.
proof fn lemma_remove_index<A>(s: Seq<A>, i: int, j: int)
    requires
        0 <= i < s.len(),
        0 <= j < s.len(),
        j != i,
    ensures
        j < i ==> s.remove(i)[j] == s[j],
        j > i ==> s.remove(i)[j - 1] == s[j],
{
}

/// Removing an entry and pushing one with the same identifier keeps identifiers distinct.
proof fn lemma_remove_push_ids<V>(s: Seq<(TypeInfo, V)>, i: int, e: (TypeInfo, V))
    requires
        entry_ids(s).no_duplicates(),
        0 <= i < s.len(),
        e.0.id == s[i].0.id,
    ensures
        entry_ids(s.remove(i).push(e)).no_duplicates(),
{
    let t = s.remove(i).push(e);
    let ids = entry_ids(t);
    assert forall|a: int, b: int| 0 <= a < ids.len() && 0 <= b < ids.len() && a != b implies ids[a]
        != ids[b] by {
        let ia = if a == t.len() - 1 { i } else if a < i { a } else { a + 1 };
        let ib = if b == t.len() - 1 { i } else if b < i { b } else { b + 1 };
        assert(t[a].0.id == s[ia].0.id);
        assert(t[b].0.id == s[ib].0.id);
        assert(entry_ids(s)[ia] == s[ia].0.id);
        assert(entry_ids(s)[ib] == s[ib].0.id);
    }
}

/// Pushing an entry with a new identifier keeps identifiers distinct.
proof fn lemma_push_ids<V>(s: Seq<(TypeInfo, V)>, e: (TypeInfo, V))
    requires
        entry_ids(s).no_duplicates(),
        forall|j: int| 0 <= j < s.len() ==> s[j].0.id != e.0.id,
    ensures
        entry_ids(s.push(e)).no_duplicates(),
{
    let t = s.push(e);
    let ids = entry_ids(t);
    assert forall|a: int, b: int| 0 <= a < ids.len() && 0 <= b < ids.len() && a != b implies ids[a]
        != ids[b] by {
        if a < s.len() {
            assert(entry_ids(s)[a] == s[a].0.id);
        }
        if b < s.len() {
            assert(entry_ids(s)[b] == s[b].0.id);
        }
    }
}

impl TypeMap<RcAny> {
    /// Stores every entry of `other`, each replacing the value this map held for its type.
    pub fn extend_shared(&mut self, other: &TypeMap<RcAny>)
        ensures
            final(self)@ == old(self)@.union_prefer_right(other@),
    {
        proof {
            use_type_invariant(other);
            other.lemma_entries();
        }
        let n = other.len();
        let mut i: usize = 0;
        while i < n
            invariant
                n == other.entry_seq().len(),
                i <= n,
                other.wf(),
                forall|id: TypeId| #[trigger] self@.contains_key(id) <==> (old(self)@.contains_key(id) || exists|j: int|
                    0 <= j < i && other.entry_seq()[j].0.id == id),
                forall|id: TypeId| #[trigger] self@.contains_key(id) ==> self@[id] == (if exists|j: int|
                    0 <= j < i && other.entry_seq()[j].0.id == id {
                    other@[id]
                } else {
                    old(self)@[id]
                }),
            decreases n - i,
        {
            proof {
                other.lemma_entries();
            }
            let e = other.entry(i);
            let v = e.1.share();
            let ghost before = self@;
            self.insert(e.0, v);
            proof {
                assert(other.entry_seq()[i as int] == *e);
                assert forall|id: TypeId| #[trigger] self@.contains_key(id) implies self@[id] == (if exists|j: int|
                    0 <= j < i + 1 && other.entry_seq()[j].0.id == id {
                    other@[id]
                } else {
                    old(self)@[id]
                }) by {
                    if id == e.0.id {
                        assert(other.entry_seq()[i as int].0.id == id);
                    } else {
                        if exists|j: int| 0 <= j < i + 1 && other.entry_seq()[j].0.id == id {
                            let j = choose|j: int| 0 <= j < i + 1 && other.entry_seq()[j].0.id == id;
                            assert(j < i);
                        }
                    }
                }
                assert forall|id: TypeId| #[trigger] self@.contains_key(id) <==> (old(self)@.contains_key(id) || exists|j: int|
                    0 <= j < i + 1 && other.entry_seq()[j].0.id == id) by {
                    if id == e.0.id {
                        assert(other.entry_seq()[i as int].0.id == id);
                    } else if exists|j: int| 0 <= j < i + 1 && other.entry_seq()[j].0.id == id {
                        let j = choose|j: int| 0 <= j < i + 1 && other.entry_seq()[j].0.id == id;
                        assert(j < i);
                    }
                }
            }
            i = i + 1;
        }
        proof {
            other.lemma_entries();
            assert forall|id: TypeId| other@.contains_key(id) implies exists|j: int|
                0 <= j < n && other.entry_seq()[j].0.id == id by {
                assert(other.entry_seq()[other.position(id)].0.id == id);
            }
            assert forall|id: TypeId| (exists|j: int| 0 <= j < n && other.entry_seq()[j].0.id == id)
                implies other@.contains_key(id) by {
                let j = choose|j: int| 0 <= j < n && other.entry_seq()[j].0.id == id;
                assert(other.entry_seq()[j] == other.entry_seq()[j]);
            }
            assert(self@ =~= old(self)@.union_prefer_right(other@));
        }
    }

    /// A map holding the same values, shared.
    pub fn duplicate(&self) -> (r: TypeMap<RcAny>)
        ensures
            r@ == self@,
    {
        let mut r = TypeMap::new();
        r.extend_shared(self);
        assert(r@ =~= self@);
        r
    }
}

impl<V> TypeMap<V> {
    /// The entries, in storage order.
    pub fn into_vec(self) -> (r: Vec<(TypeInfo, V)>)
        ensures
            r@ == self.entry_seq(),
    {
        let TypeMap { entries } = self;
        entries
    }

    /// Removes the value stored for `key`'s type and returns it.
    pub fn remove(&mut self, key: &TypeInfo) -> (r: Option<V>)
        ensures
            final(self)@ == old(self)@.remove(key.id),
            old(self)@.contains_key(key.id) ==> r == Some(old(self)@[key.id]),
            !old(self)@.contains_key(key.id) ==> r is None,
    {
        proof {
            use_type_invariant(&*self);
            self.lemma_entries();
        }
        let ghost pre = *self;
        let mut entries: Vec<(TypeInfo, V)> = Vec::new();
        std::mem::swap(&mut entries, &mut self.entries);
        let ghost s = entries@;
        match find_in(&entries, key) {
            Some(i) => {
                let (_k, v) = entries.remove(i);
                proof {
                    let t = entries@;
                    assert(t == s.remove(i as int));
                    assert forall|a: int, b: int| 0 <= a < b < entry_ids(t).len() implies entry_ids(t)[a] != entry_ids(t)[b] by {
                        let ia = if a < i { a } else { a + 1 };
                        let ib = if b < i { b } else { b + 1 };
                        assert(t[a] == s[ia]);
                        assert(t[b] == s[ib]);
                        assert(entry_ids(s)[ia] == s[ia].0.id);
                        assert(entry_ids(s)[ib] == s[ib].0.id);
                    }
                }
                self.entries = entries;
                proof {
                    use_type_invariant(&*self);
                    self.lemma_entries();
                    let t = self.entries@;
                    assert forall|id: TypeId| #[trigger] self@.contains_key(id) == pre@.remove(key.id).contains_key(id) by {
                        if self@.contains_key(id) {
                            let j = self.position(id);
                            let jj = if j < i { j } else { j + 1 };
                            lemma_remove_index(s, i as int, jj);
                            assert(s[jj].0.id == id);
                            assert(jj != i);
                        }
                        if pre@.contains_key(id) && id != key.id {
                            let j = pre.position(id);
                            lemma_remove_index(s, i as int, j);
                            if j < i {
                                assert(t[j].0.id == id);
                            } else {
                                assert(t[j - 1].0.id == id);
                            }
                        }
                    }
                    assert forall|id: TypeId| #[trigger] self@.contains_key(id) implies self@[id] == pre@.remove(key.id)[id] by {
                        let j = pre.position(id);
                        lemma_remove_index(s, i as int, j);
                        if j < i {
                            assert(t[j].0.id == id);
                        } else {
                            assert(t[j - 1].0.id == id);
                        }
                    }
                    assert(self@ =~= pre@.remove(key.id));
                }
                Some(v)
            },
            None => {
                self.entries = entries;
                proof {
                    assert(self@ =~= pre@.remove(key.id));
                }
                None
            },
        }
    }
}

/// Reading a type right after a value was stored for it gives that value, and every other
/// type reads as before: what `get` gives back of an `insert`.
pub proof fn law_get_after_insert<V>(before: TypeMap<V>, after: TypeMap<V>, key: TypeInfo, value: V, other: TypeId)
    requires
        after@ == before@.insert(key.id, value),
    ensures
        after@.contains_key(key.id),
        after@[key.id] == value,
        other != key.id ==> (after@.contains_key(other) == before@.contains_key(other) && (after@.contains_key(other)
            ==> after@[other] == before@[other])),
{
}

/// Storing a value for a type already present keeps the number of entries; storing one for
/// a new type adds one.
pub proof fn law_len_after_insert<V>(before: TypeMap<V>, after: TypeMap<V>, key: TypeInfo, value: V)
    requires
        before.wf(),
        after@ == before@.insert(key.id, value),
    ensures
        before@.contains_key(key.id) ==> after@.len() == before@.len(),
        !before@.contains_key(key.id) ==> after@.len() == before@.len() + 1,
{
    before.lemma_entries();
}

} // verus!
