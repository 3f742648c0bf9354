use std::any::TypeId;
use vstd::pervasive::VecAdditionalExecFns;
use vstd::prelude::*;

use crate::any::TypeInfo;
use crate::config::Config;
use crate::scope::{copy_scopes, default_scopes_data, sort_by_priority, sorted_by_priority, DefaultScope, ScopeData};
use crate::type_map::TypeMap;

verus! {

/// An instantiator that runs synchronously or asynchronously.
pub enum BoxedInstantiator<SI, AI> {
    Sync(SI),
    Async(AI),
}

/// An instantiator as provided to a builder: with its configuration and its scope.
pub struct ScopedInstantiator<SI, AI> {
    pub instantiator: BoxedInstantiator<SI, AI>,
    pub config: Config,
    pub scope: ScopeData,
}

/// An instantiator of a built per-scope registry, with the finalizer of its type.
pub struct InstantiatorInnerData<I, F> {
    pub instantiator: I,
    pub finalizer: Option<F>,
    pub config: Config,
}

/// The scope of a built per-scope registry.
#[derive(Clone, Copy, Debug)]
pub struct ScopeInnerData {
    pub priority: u8,
    pub is_skipped_by_default: bool,
}

/// The instantiators of one scope, by provided type.
pub struct ScopeRegistry<I, F> {
    pub scope: ScopeInnerData,
    pub instantiators: TypeMap<InstantiatorInnerData<I, F>>,
}

/// Collects instantiators and finalizers, to be built into registries per scope.
pub struct RegistriesBuilder<SI, AI, SF, AF> {
    instantiators: TypeMap<ScopedInstantiator<SI, AI>>,
    finalizers: TypeMap<AF>,
    sync_finalizers: TypeMap<SF>,
    scopes: Vec<ScopeData>,
}

/// The value for `id` in `m`, if any.
pub open spec fn map_get<K, V>(m: Map<K, V>, id: K) -> Option<V> {
    if m.contains_key(id) {
        Some(m[id])
    } else {
        None
    }
}

/// Whether the instantiator runs asynchronously.
pub open spec fn is_async<SI, AI>(i: BoxedInstantiator<SI, AI>) -> bool {
    i is Async
}

/// Whether `a` and `b` are the same scope: the same name, priority and skip flag.
pub open spec fn same_scope(a: ScopeData, b: ScopeData) -> bool {
    a.name@ == b.name@ && a.priority == b.priority && a.is_skipped_by_default == b.is_skipped_by_default
}

/// The asynchronous instantiators provided in scope `s` among `entries`, each with its
/// type's finalizer from `fins`.
pub open spec fn async_group<SI, AI, AF>(
    entries: Map<TypeId, ScopedInstantiator<SI, AI>>,
    fins: Map<TypeId, AF>,
    s: ScopeData,
) -> Map<TypeId, InstantiatorInnerData<AI, AF>> {
    Map::new(
        |id: TypeId| entries.contains_key(id) && entries[id].instantiator is Async && same_scope(entries[id].scope, s),
        |id: TypeId|
            InstantiatorInnerData {
                instantiator: entries[id].instantiator->Async_0,
                finalizer: map_get(fins, id),
                config: entries[id].config,
            },
    )
}

/// The synchronous instantiators provided in scope `s` among `entries`, each with its
/// type's finalizer from `fins`.
pub open spec fn sync_group<SI, AI, SF>(
    entries: Map<TypeId, ScopedInstantiator<SI, AI>>,
    fins: Map<TypeId, SF>,
    s: ScopeData,
) -> Map<TypeId, InstantiatorInnerData<SI, SF>> {
    Map::new(
        |id: TypeId| entries.contains_key(id) && entries[id].instantiator is Sync && same_scope(entries[id].scope, s),
        |id: TypeId|
            InstantiatorInnerData {
                instantiator: entries[id].instantiator->Sync_0,
                finalizer: map_get(fins, id),
                config: entries[id].config,
            },
    )
}

/// Whether a registry of the given kind is built for scope `s`: it is a scope of the
/// builder, or the scope of some instantiator of that kind.
pub open spec fn has_group<SI, AI>(
    scopes: Seq<ScopeData>,
    entries: Map<TypeId, ScopedInstantiator<SI, AI>>,
    s: ScopeData,
    asynchronous: bool,
) -> bool {
    ||| exists|k: int| 0 <= k < scopes.len() && same_scope(#[trigger] scopes[k], s)
    ||| exists|id: TypeId|
        #[trigger] entries.contains_key(id) && is_async(entries[id].instantiator) == asynchronous && same_scope(
            entries[id].scope,
            s,
        )
}

/// Whether `s` is a scope of the builder, or the scope of an instantiator of the given kind.
pub open spec fn is_group_scope<SI, AI>(
    scopes: Seq<ScopeData>,
    entries: Map<TypeId, ScopedInstantiator<SI, AI>>,
    s: ScopeData,
    asynchronous: bool,
) -> bool {
    ||| scopes.contains(s)
    ||| exists|id: TypeId|
        #[trigger] entries.contains_key(id) && is_async(entries[id].instantiator) == asynchronous
            && entries[id].scope == s
}

/// The registry scope of a scope.
pub open spec fn inner_of(s: ScopeData) -> ScopeInnerData {
    ScopeInnerData { priority: s.priority, is_skipped_by_default: s.is_skipped_by_default }
}

/// Whether one of `groups` is the scope `s`.
pub open spec fn has_scope(groups: Seq<ScopeData>, s: ScopeData) -> bool {
    exists|g: int| 0 <= g < groups.len() && same_scope(#[trigger] groups[g], s)
}

/// No scope stands twice among `groups`.
pub open spec fn distinct_scopes(groups: Seq<ScopeData>) -> bool {
    forall|a: int, b: int| 0 <= a < b < groups.len() ==> !same_scope(groups[a], groups[b])
}

/// The scopes of the registries of one kind that `build` makes: each scope of the builder
/// or of an instantiator of that kind once, ordered by priority.
pub open spec fn groups_of<SI, AI>(
    gs: Seq<ScopeData>,
    scopes: Seq<ScopeData>,
    entries: Map<TypeId, ScopedInstantiator<SI, AI>>,
    asynchronous: bool,
) -> bool {
    &&& sorted_by_priority(gs)
    &&& distinct_scopes(gs)
    &&& forall|s: ScopeData| #[trigger] has_scope(gs, s) <==> has_group(scopes, entries, s, asynchronous)
    &&& forall|g: int| 0 <= g < gs.len() ==> is_group_scope(scopes, entries, #[trigger] gs[g], asynchronous)
}

/// The asynchronous registries `regs`, one for each of the scopes `gs` in turn: with its
/// scope, and the asynchronous instantiators provided in it.
pub open spec fn async_built<SI, AI, AF>(
    regs: Seq<ScopeRegistry<AI, AF>>,
    gs: Seq<ScopeData>,
    entries: Map<TypeId, ScopedInstantiator<SI, AI>>,
    fins: Map<TypeId, AF>,
) -> bool {
    &&& regs.len() == gs.len()
    &&& forall|g: int|
        #![trigger regs[g]]
        0 <= g < regs.len() ==> regs[g].scope == inner_of(gs[g]) && regs[g].instantiators@ == async_group(entries, fins, gs[g])
}

/// The synchronous registries `regs`, one for each of the scopes `gs` in turn: with its
/// scope, and the synchronous instantiators provided in it.
pub open spec fn sync_built<SI, AI, SF>(
    regs: Seq<ScopeRegistry<SI, SF>>,
    gs: Seq<ScopeData>,
    entries: Map<TypeId, ScopedInstantiator<SI, AI>>,
    fins: Map<TypeId, SF>,
) -> bool {
    &&& regs.len() == gs.len()
    &&& forall|g: int|
        #![trigger regs[g]]
        0 <= g < regs.len() ==> regs[g].scope == inner_of(gs[g]) && regs[g].instantiators@ == sync_group(entries, fins, gs[g])
}

/// Among the entries `seq[n..]`, one is for `id`.
pub open spec fn taken<V>(seq: Seq<(TypeInfo, V)>, n: int, id: TypeId) -> bool {
    exists|j: int| n <= j < seq.len() && #[trigger] seq[j].0.id == id
}

/// `async_group` over the types of the entries `seq[n..]`.
pub open spec fn async_group_from<SI, AI, AF>(
    entries: Map<TypeId, ScopedInstantiator<SI, AI>>,
    fins: Map<TypeId, AF>,
    s: ScopeData,
    seq: Seq<(TypeInfo, ScopedInstantiator<SI, AI>)>,
    n: int,
) -> Map<TypeId, InstantiatorInnerData<AI, AF>> {
    Map::new(
        |id: TypeId|
            taken(seq, n, id) && entries.contains_key(id) && entries[id].instantiator is Async && same_scope(
                entries[id].scope,
                s,
            ),
        |id: TypeId|
            InstantiatorInnerData {
                instantiator: entries[id].instantiator->Async_0,
                finalizer: map_get(fins, id),
                config: entries[id].config,
            },
    )
}

/// `sync_group` over the types of the entries `seq[n..]`.
pub open spec fn sync_group_from<SI, AI, SF>(
    entries: Map<TypeId, ScopedInstantiator<SI, AI>>,
    fins: Map<TypeId, SF>,
    s: ScopeData,
    seq: Seq<(TypeInfo, ScopedInstantiator<SI, AI>)>,
    n: int,
) -> Map<TypeId, InstantiatorInnerData<SI, SF>> {
    Map::new(
        |id: TypeId|
            taken(seq, n, id) && entries.contains_key(id) && entries[id].instantiator is Sync && same_scope(
                entries[id].scope,
                s,
            ),
        |id: TypeId|
            InstantiatorInnerData {
                instantiator: entries[id].instantiator->Sync_0,
                finalizer: map_get(fins, id),
                config: entries[id].config,
            },
    )
}

/// Whether two names are the same text.
fn same_name(a: &str, b: &str) -> (r: bool)
    ensures
        r == (a@ == b@),
{
    let n = a.unicode_len();
    if n != b.unicode_len() {
        return false;
    }
    let mut i: usize = 0;
    while i < n
        invariant
            n == a@.len(),
            n == b@.len(),
            i <= n,
            forall|j: int| 0 <= j < i ==> a@[j] == b@[j],
        decreases n - i,
    {
        if a.get_char(i) != b.get_char(i) {
            return false;
        }
        i = i + 1;
    }
    assert(a@ =~= b@);
    true
}

/// Whether `a` and `b` are the same scope.
fn same_scope_exec(a: &ScopeData, b: &ScopeData) -> (r: bool)
    ensures
        r == same_scope(*a, *b),
{
    a.priority == b.priority && a.is_skipped_by_default == b.is_skipped_by_default && same_name(a.name, b.name)
}

/// The position of the group that is the scope `s`.
fn find_group(groups: &Vec<ScopeData>, s: &ScopeData) -> (r: usize)
    requires
        has_scope(groups@, *s),
    ensures
        r < groups@.len(),
        same_scope(groups@[r as int], *s),
{
    let mut g: usize = 0;
    while g < groups.len()
        invariant
            g <= groups@.len(),
            forall|h: int| 0 <= h < g ==> !same_scope(#[trigger] groups@[h], *s),
            has_scope(groups@, *s),
        decreases groups@.len() - g,
    {
        if same_scope_exec(&groups[g], s) {
            return g;
        }
        g = g + 1;
    }
    vstd::pervasive::unreached()
}

/// Whether the group `s` is among `groups`.
fn contains_group(groups: &Vec<ScopeData>, s: &ScopeData) -> (r: bool)
    ensures
        r == has_scope(groups@, *s),
{
    let mut g: usize = 0;
    while g < groups.len()
        invariant
            g <= groups@.len(),
            forall|h: int| 0 <= h < g ==> !same_scope(#[trigger] groups@[h], *s),
        decreases groups@.len() - g,
    {
        if same_scope_exec(&groups[g], s) {
            return true;
        }
        g = g + 1;
    }
    false
}

/// Adds the scope `s` to `groups` unless it is there, after the groups of its priority or
/// a wider one.
fn insert_group(groups: &mut Vec<ScopeData>, s: ScopeData)
    requires
        sorted_by_priority(old(groups)@),
        distinct_scopes(old(groups)@),
    ensures
        sorted_by_priority(final(groups)@),
        distinct_scopes(final(groups)@),
        forall|x: ScopeData| #[trigger] has_scope(final(groups)@, x) <==> (has_scope(old(groups)@, x) || same_scope(s, x)),
        forall|x: ScopeData| final(groups)@.contains(x) ==> (old(groups)@.contains(x) || x == s),
{
    if contains_group(groups, &s) {
        proof {
            assert forall|x: ScopeData| #[trigger] has_scope(groups@, x) <==> (has_scope(groups@, x) || same_scope(s, x)) by {
                if same_scope(s, x) {
                    let g = choose|g: int| 0 <= g < groups@.len() && same_scope(#[trigger] groups@[g], s);
                    assert(same_scope(groups@[g], x));
                }
            }
        }
        return;
    }
    let mut p: usize = 0;
    while p < groups.len() && groups[p].priority <= s.priority
        invariant
            p <= groups@.len(),
            forall|j: int| 0 <= j < p ==> #[trigger] groups@[j].priority <= s.priority,
        decreases groups@.len() - p,
    {
        p = p + 1;
    }
    let ghost before = groups@;
    groups.insert(p, s);
    proof {
        let after = groups@;
        assert(after == before.insert(p as int, s));
        assert forall|a: int, b: int| 0 <= a < b < after.len() implies after[a].priority <= after[b].priority by {
            if p < before.len() {
                assert(before[p as int].priority > s.priority);
            }
            if b < p {
            } else if b == p {
            } else if a < p {
                assert(after[b] == before[b - 1]);
            } else if a == p {
                assert(after[b] == before[b - 1]);
            } else {
                assert(after[a] == before[a - 1]);
                assert(after[b] == before[b - 1]);
            }
        }
        assert forall|a: int, b: int| 0 <= a < b < after.len() implies !same_scope(after[a], after[b]) by {
            if a < p && b < p {
            } else if a < p && b == p {
                assert(!same_scope(before[a], s));
            } else if a < p {
                assert(after[b] == before[b - 1]);
            } else if a == p {
                assert(after[b] == before[b - 1]);
                assert(!same_scope(before[b - 1], s));
            } else {
                assert(after[a] == before[a - 1]);
                assert(after[b] == before[b - 1]);
            }
        }
        assert forall|x: ScopeData| #[trigger] has_scope(after, x) <==> (has_scope(before, x) || same_scope(s, x)) by {
            if has_scope(after, x) {
                let g = choose|g: int| 0 <= g < after.len() && same_scope(#[trigger] after[g], x);
                if g < p {
                    assert(after[g] == before[g]);
                } else if g > p {
                    assert(after[g] == before[g - 1]);
                }
            }
            if has_scope(before, x) {
                let g = choose|g: int| 0 <= g < before.len() && same_scope(#[trigger] before[g], x);
                if g < p {
                    assert(after[g] == before[g]);
                } else {
                    assert(after[g + 1] == before[g]);
                }
            }
            if same_scope(s, x) {
                assert(after[p as int] == s);
            }
        }
        assert forall|x: ScopeData| after.contains(x) implies (before.contains(x) || x == s) by {
            let g = choose|g: int| 0 <= g < after.len() && after[g] == x;
            if g < p {
                assert(before[g] == x);
            } else if g > p {
                assert(before[g - 1] == x);
            }
        }
    }
}

/// Whether the instantiator runs asynchronously.
fn runs_async<SI, AI>(i: &BoxedInstantiator<SI, AI>) -> (r: bool)
    ensures
        r == is_async(*i),
{
    match i {
        BoxedInstantiator::Async(_) => true,
        BoxedInstantiator::Sync(_) => false,
    }
}

/// The scopes that registries of the given kind are built for: each scope of the builder
/// or of an instantiator of that kind once, ordered by priority.
fn group_scopes<SI, AI>(
    scopes: &Vec<ScopeData>,
    instantiators: &TypeMap<ScopedInstantiator<SI, AI>>,
    asynchronous: bool,
) -> (r: Vec<ScopeData>)
    ensures
        groups_of(r@, scopes@, instantiators@, asynchronous),
{
    proof {
        use_type_invariant(instantiators);
        instantiators.lemma_entries();
    }
    let ghost seq = instantiators.entry_seq();
    let ghost entries = instantiators@;
    let mut groups: Vec<ScopeData> = Vec::new();
    let mut k: usize = 0;
    while k < scopes.len()
        invariant
            k <= scopes@.len(),
            sorted_by_priority(groups@),
            distinct_scopes(groups@),
            forall|x: ScopeData|
                #[trigger] has_scope(groups@, x) <==> exists|j: int| 0 <= j < k && same_scope(#[trigger] scopes@[j], x),
            forall|x: ScopeData| groups@.contains(x) ==> scopes@.contains(x),
        decreases scopes@.len() - k,
    {
        let s = scopes[k];
        insert_group(&mut groups, s);
        proof {
            assert forall|x: ScopeData|
                #[trigger] has_scope(groups@, x) <==> exists|j: int| 0 <= j < k + 1 && same_scope(#[trigger] scopes@[j], x) by {
                if same_scope(s, x) {
                    assert(same_scope(scopes@[k as int], x));
                }
                if exists|j: int| 0 <= j < k + 1 && same_scope(#[trigger] scopes@[j], x) {
                    let j = choose|j: int| 0 <= j < k + 1 && same_scope(#[trigger] scopes@[j], x);
                    if j < k {
                        assert(exists|j2: int| 0 <= j2 < k && same_scope(#[trigger] scopes@[j2], x));
                    }
                }
            }
        }
        k = k + 1;
    }
    let n = instantiators.len();
    let mut i: usize = 0;
    while i < n
        invariant
            n == seq.len(),
            i <= n,
            seq == instantiators.entry_seq(),
            entries == instantiators@,
            forall|j: int|
                #![trigger seq[j]]
                0 <= j < seq.len() ==> entries.contains_key(seq[j].0.id) && entries[seq[j].0.id] == seq[j].1,
            sorted_by_priority(groups@),
            distinct_scopes(groups@),
            forall|x: ScopeData|
                #[trigger] has_scope(groups@, x) <==> (has_scope(scopes@, x) || exists|j: int|
                    0 <= j < i && is_async(seq[j].1.instantiator) == asynchronous && same_scope(#[trigger] seq[j].1.scope, x)),
            forall|x: ScopeData|
                groups@.contains(x) ==> (scopes@.contains(x) || exists|j: int|
                    0 <= j < i && is_async(seq[j].1.instantiator) == asynchronous && #[trigger] seq[j].1.scope == x),
        decreases n - i,
    {
        let e = instantiators.entry(i);
        if runs_async(&e.1.instantiator) == asynchronous {
            let s = e.1.scope;
            insert_group(&mut groups, s);
            proof {
                assert forall|x: ScopeData|
                    #[trigger] has_scope(groups@, x) <==> (has_scope(scopes@, x) || exists|j: int|
                        0 <= j < i + 1 && is_async(seq[j].1.instantiator) == asynchronous && same_scope(#[trigger] seq[j].1.scope, x)) by {
                    if same_scope(s, x) {
                        assert(same_scope(seq[i as int].1.scope, x));
                    }
                    if exists|j: int|
                        0 <= j < i + 1 && is_async(seq[j].1.instantiator) == asynchronous && same_scope(#[trigger] seq[j].1.scope, x) {
                        let j = choose|j: int|
                            0 <= j < i + 1 && is_async(seq[j].1.instantiator) == asynchronous && same_scope(#[trigger] seq[j].1.scope, x);
                        if j < i {
                            assert(exists|j2: int|
                                0 <= j2 < i && is_async(seq[j2].1.instantiator) == asynchronous && same_scope(#[trigger] seq[j2].1.scope, x));
                        }
                    }
                }
                assert forall|x: ScopeData|
                    groups@.contains(x) implies (scopes@.contains(x) || exists|j: int|
                        0 <= j < i + 1 && is_async(seq[j].1.instantiator) == asynchronous && #[trigger] seq[j].1.scope == x) by {
                    if x == s {
                        assert(seq[i as int].1.scope == x);
                    }
                }
            }
        } else {
            proof {
                assert forall|x: ScopeData|
                    #[trigger] has_scope(groups@, x) <==> (has_scope(scopes@, x) || exists|j: int|
                        0 <= j < i + 1 && is_async(seq[j].1.instantiator) == asynchronous && same_scope(#[trigger] seq[j].1.scope, x)) by {
                    if exists|j: int|
                        0 <= j < i + 1 && is_async(seq[j].1.instantiator) == asynchronous && same_scope(#[trigger] seq[j].1.scope, x) {
                        let j = choose|j: int|
                            0 <= j < i + 1 && is_async(seq[j].1.instantiator) == asynchronous && same_scope(#[trigger] seq[j].1.scope, x);
                        assert(j < i);
                        assert(exists|j2: int|
                            0 <= j2 < i && is_async(seq[j2].1.instantiator) == asynchronous && same_scope(#[trigger] seq[j2].1.scope, x));
                    }
                }
            }
        }
        i = i + 1;
    }
    proof {
        assert forall|x: ScopeData| #[trigger] has_scope(groups@, x) <==> has_group(scopes@, entries, x, asynchronous) by {
            if exists|j: int|
                0 <= j < n && is_async(seq[j].1.instantiator) == asynchronous && same_scope(#[trigger] seq[j].1.scope, x) {
                let j = choose|j: int|
                    0 <= j < n && is_async(seq[j].1.instantiator) == asynchronous && same_scope(#[trigger] seq[j].1.scope, x);
                assert(entries.contains_key(seq[j].0.id));
            }
            if exists|id: TypeId|
                #[trigger] entries.contains_key(id) && is_async(entries[id].instantiator) == asynchronous && same_scope(
                    entries[id].scope,
                    x,
                ) {
                let id = choose|id: TypeId|
                    #[trigger] entries.contains_key(id) && is_async(entries[id].instantiator) == asynchronous && same_scope(
                        entries[id].scope,
                        x,
                    );
                let j = instantiators.position(id);
                assert(seq[j].0.id == id);
                assert(same_scope(seq[j].1.scope, x));
            }
        }
        assert forall|g: int| 0 <= g < groups@.len() implies is_group_scope(scopes@, entries, #[trigger] groups@[g], asynchronous) by {
            let x = groups@[g];
            assert(groups@.contains(x));
            if !scopes@.contains(x) {
                let j = choose|j: int| 0 <= j < n && is_async(seq[j].1.instantiator) == asynchronous && #[trigger] seq[j].1.scope == x;
                assert(entries.contains_key(seq[j].0.id));
            }
        }
    }
    groups
}

/// One empty registry per group, with the group's scope.
fn empty_registries<I, F>(groups: &Vec<ScopeData>) -> (r: Vec<ScopeRegistry<I, F>>)
    ensures
        r@.len() == groups@.len(),
        forall|g: int|
            0 <= g < r@.len() ==> #[trigger] r@[g].scope == inner_of(groups@[g]) && r@[g].instantiators@
                == Map::<TypeId, InstantiatorInnerData<I, F>>::empty(),
{
    let mut r: Vec<ScopeRegistry<I, F>> = Vec::new();
    let mut g: usize = 0;
    while g < groups.len()
        invariant
            g <= groups@.len(),
            r@.len() == g,
            forall|h: int|
                0 <= h < g ==> #[trigger] r@[h].scope == inner_of(groups@[h]) && r@[h].instantiators@
                    == Map::<TypeId, InstantiatorInnerData<I, F>>::empty(),
        decreases groups@.len() - g,
    {
        let s = groups[g];
        r.push(
            ScopeRegistry {
                scope: ScopeInnerData { priority: s.priority, is_skipped_by_default: s.is_skipped_by_default },
                instantiators: TypeMap::new(),
            },
        );
        g = g + 1;
    }
    r
}

/// Stores `data` for `key`'s type in the registry at position `g`.
fn insert_into<I, F>(regs: &mut Vec<ScopeRegistry<I, F>>, g: usize, key: TypeInfo, data: InstantiatorInnerData<I, F>)
    requires
        g < old(regs)@.len(),
    ensures
        final(regs)@.len() == old(regs)@.len(),
        final(regs)@[g as int].scope == old(regs)@[g as int].scope,
        final(regs)@[g as int].instantiators@ == old(regs)@[g as int].instantiators@.insert(key.id, data),
        forall|h: int| 0 <= h < final(regs)@.len() && h != g ==> #[trigger] final(regs)@[h] == old(regs)@[h],
{
    let s = regs[g].scope;
    let mut reg = ScopeRegistry { scope: s, instantiators: TypeMap::new() };
    regs.set_and_swap(g, &mut reg);
    reg.instantiators.insert(key, data);
    regs.set_and_swap(g, &mut reg);
}

impl<SI, AI, SF, AF> RegistriesBuilder<SI, AI, SF, AF> {
    /// The instantiators, by provided type.
    pub closed spec fn instantiators_view(&self) -> Map<TypeId, ScopedInstantiator<SI, AI>> {
        self.instantiators@
    }

    /// The asynchronous finalizers, by type.
    pub closed spec fn finalizers_view(&self) -> Map<TypeId, AF> {
        self.finalizers@
    }

    /// The synchronous finalizers, by type.
    pub closed spec fn sync_finalizers_view(&self) -> Map<TypeId, SF> {
        self.sync_finalizers@
    }

    /// The scopes registries are built for.
    pub closed spec fn scopes_view(&self) -> Seq<ScopeData> {
        self.scopes@
    }

    /// A builder over the given scopes, with nothing provided.
    pub fn new_with_scopes(scopes: Vec<ScopeData>) -> (r: Self)
        ensures
            r.instantiators_view() == Map::<TypeId, ScopedInstantiator<SI, AI>>::empty(),
            r.finalizers_view() == Map::<TypeId, AF>::empty(),
            r.sync_finalizers_view() == Map::<TypeId, SF>::empty(),
            r.scopes_view() == scopes@,
    {
        RegistriesBuilder {
            instantiators: TypeMap::new(),
            finalizers: TypeMap::new(),
            sync_finalizers: TypeMap::new(),
            scopes,
        }
    }

    /// A builder over the default scopes, with nothing provided.
    pub fn new() -> (r: Self)
        ensures
            r.instantiators_view() == Map::<TypeId, ScopedInstantiator<SI, AI>>::empty(),
            r.finalizers_view() == Map::<TypeId, AF>::empty(),
            r.sync_finalizers_view() == Map::<TypeId, SF>::empty(),
            r.scopes_view() == default_scopes_data(),
            r.scopes_view().len() == 6,
            forall|i: int| 0 <= i < 6 ==> #[trigger] r.scopes_view()[i].priority == i,
    {
        RegistriesBuilder::new_with_scopes(DefaultScope::all_data())
    }

    /// Adds the instantiator of `type_info`'s type with the given configuration, replacing
    /// the one provided before for that type, and returns it.
    pub fn add_instantiator_with_config(
        &mut self,
        type_info: TypeInfo,
        instantiator: BoxedInstantiator<SI, AI>,
        config: Config,
        scope: ScopeData,
    ) -> (r: Option<ScopedInstantiator<SI, AI>>)
        ensures
            final(self).instantiators_view() == old(self).instantiators_view().insert(
                type_info.id,
                ScopedInstantiator { instantiator, config, scope },
            ),
            final(self).finalizers_view() == old(self).finalizers_view(),
            final(self).sync_finalizers_view() == old(self).sync_finalizers_view(),
            final(self).scopes_view() == old(self).scopes_view(),
            r == map_get(old(self).instantiators_view(), type_info.id),
    {
        self.instantiators.insert(type_info, ScopedInstantiator { instantiator, config, scope })
    }

    /// Adds the instantiator of `type_info`'s type with the default configuration.
    pub fn add_instantiator(&mut self, type_info: TypeInfo, instantiator: BoxedInstantiator<SI, AI>, scope: ScopeData) -> (r: Option<
        ScopedInstantiator<SI, AI>,
    >)
        ensures
            final(self).instantiators_view() == old(self).instantiators_view().insert(
                type_info.id,
                ScopedInstantiator { instantiator, config: Config { cache_provides: true }, scope },
            ),
            final(self).finalizers_view() == old(self).finalizers_view(),
            final(self).sync_finalizers_view() == old(self).sync_finalizers_view(),
            final(self).scopes_view() == old(self).scopes_view(),
            r == map_get(old(self).instantiators_view(), type_info.id),
    {
        self.add_instantiator_with_config(type_info, instantiator, Config::default(), scope)
    }

    /// Provides `type_info`'s type by a synchronous instantiator in `scope`.
    pub fn provide(self, type_info: TypeInfo, instantiator: SI, scope: ScopeData) -> (r: Self)
        ensures
            r.instantiators_view() == self.instantiators_view().insert(
                type_info.id,
                ScopedInstantiator { instantiator: BoxedInstantiator::Sync(instantiator), config: Config { cache_provides: true }, scope },
            ),
            r.finalizers_view() == self.finalizers_view(),
            r.sync_finalizers_view() == self.sync_finalizers_view(),
            r.scopes_view() == self.scopes_view(),
    {
        let mut b = self;
        b.add_instantiator(type_info, BoxedInstantiator::Sync(instantiator), scope);
        b
    }

    /// Provides `type_info`'s type by a synchronous instantiator with a configuration.
    pub fn provide_with_config(self, type_info: TypeInfo, instantiator: SI, config: Config, scope: ScopeData) -> (r: Self)
        ensures
            r.instantiators_view() == self.instantiators_view().insert(
                type_info.id,
                ScopedInstantiator { instantiator: BoxedInstantiator::Sync(instantiator), config, scope },
            ),
            r.finalizers_view() == self.finalizers_view(),
            r.sync_finalizers_view() == self.sync_finalizers_view(),
            r.scopes_view() == self.scopes_view(),
    {
        let mut b = self;
        b.add_instantiator_with_config(type_info, BoxedInstantiator::Sync(instantiator), config, scope);
        b
    }

    /// Provides `type_info`'s type by an asynchronous instantiator in `scope`.
    pub fn provide_async(self, type_info: TypeInfo, instantiator: AI, scope: ScopeData) -> (r: Self)
        ensures
            r.instantiators_view() == self.instantiators_view().insert(
                type_info.id,
                ScopedInstantiator { instantiator: BoxedInstantiator::Async(instantiator), config: Config { cache_provides: true }, scope },
            ),
            r.finalizers_view() == self.finalizers_view(),
            r.sync_finalizers_view() == self.sync_finalizers_view(),
            r.scopes_view() == self.scopes_view(),
    {
        let mut b = self;
        b.add_instantiator(type_info, BoxedInstantiator::Async(instantiator), scope);
        b
    }

    /// Provides `type_info`'s type by an asynchronous instantiator with a configuration.
    pub fn provide_async_with_config(self, type_info: TypeInfo, instantiator: AI, config: Config, scope: ScopeData) -> (r: Self)
        ensures
            r.instantiators_view() == self.instantiators_view().insert(
                type_info.id,
                ScopedInstantiator { instantiator: BoxedInstantiator::Async(instantiator), config, scope },
            ),
            r.finalizers_view() == self.finalizers_view(),
            r.sync_finalizers_view() == self.sync_finalizers_view(),
            r.scopes_view() == self.scopes_view(),
    {
        let mut b = self;
        b.add_instantiator_with_config(type_info, BoxedInstantiator::Async(instantiator), config, scope);
        b
    }

    /// Sets the synchronous finalizer of `type_info`'s type.
    pub fn add_finalizer(self, type_info: TypeInfo, finalizer: SF) -> (r: Self)
        ensures
            r.instantiators_view() == self.instantiators_view(),
            r.finalizers_view() == self.finalizers_view(),
            r.sync_finalizers_view() == self.sync_finalizers_view().insert(type_info.id, finalizer),
            r.scopes_view() == self.scopes_view(),
    {
        let mut b = self;
        b.sync_finalizers.insert(type_info, finalizer);
        b
    }

    /// Sets the asynchronous finalizer of `type_info`'s type.
    pub fn add_async_finalizer(self, type_info: TypeInfo, finalizer: AF) -> (r: Self)
        ensures
            r.instantiators_view() == self.instantiators_view(),
            r.finalizers_view() == self.finalizers_view().insert(type_info.id, finalizer),
            r.sync_finalizers_view() == self.sync_finalizers_view(),
            r.scopes_view() == self.scopes_view(),
    {
        let mut b = self;
        b.finalizers.insert(type_info, finalizer);
        b
    }

    /// Builds one registry per scope and kind: the asynchronous registries, then the
    /// synchronous ones. A kind has a registry for each scope of the builder and each scope
    /// its instantiators of that kind were provided in, ordered by priority (the builder
    /// has no other order of scopes, so scopes of equal priority come in no stated order);
    /// each holds the instantiators of that kind provided in its scope, each with its type's
    /// finalizer of the same kind.
    pub fn build(self) -> (r: (Vec<ScopeRegistry<AI, AF>>, Vec<ScopeRegistry<SI, SF>>))
        ensures
            exists|gs: Seq<ScopeData>|
                #[trigger] groups_of(gs, self.scopes_view(), self.instantiators_view(), true) && async_built(
                    r.0@,
                    gs,
                    self.instantiators_view(),
                    self.finalizers_view(),
                ),
            exists|gs: Seq<ScopeData>|
                #[trigger] groups_of(gs, self.scopes_view(), self.instantiators_view(), false) && sync_built(
                    r.1@,
                    gs,
                    self.instantiators_view(),
                    self.sync_finalizers_view(),
                ),
    {
        let ghost old_self = self;
        let RegistriesBuilder { instantiators, finalizers, sync_finalizers, scopes } = self;
        let agroups = group_scopes(&scopes, &instantiators, true);
        let sgroups = group_scopes(&scopes, &instantiators, false);
        let mut aregs: Vec<ScopeRegistry<AI, AF>> = empty_registries(&agroups);
        let mut sregs: Vec<ScopeRegistry<SI, SF>> = empty_registries(&sgroups);
        proof {
            use_type_invariant(&instantiators);
            instantiators.lemma_entries();
        }
        let ghost seq = instantiators.entry_seq();
        let ghost entries = instantiators@;
        let ghost afins = finalizers@;
        let ghost sfins = sync_finalizers@;
        let mut finalizers = finalizers;
        let mut sync_finalizers = sync_finalizers;
        let mut items = instantiators.into_vec();
        proof {
            assert forall|g: int| 0 <= g < aregs@.len() implies #[trigger] aregs@[g].instantiators@
                == async_group_from(entries, afins, agroups@[g], seq, seq.len() as int) by {
                assert(aregs@[g].scope == inner_of(agroups@[g]));
                assert(aregs@[g].instantiators@ =~= async_group_from(entries, afins, agroups@[g], seq, seq.len() as int));
            }
            assert forall|g: int| 0 <= g < sregs@.len() implies #[trigger] sregs@[g].instantiators@
                == sync_group_from(entries, sfins, sgroups@[g], seq, seq.len() as int) by {
                assert(sregs@[g].scope == inner_of(sgroups@[g]));
                assert(sregs@[g].instantiators@ =~= sync_group_from(entries, sfins, sgroups@[g], seq, seq.len() as int));
            }
        }
        while items.len() > 0
            invariant
                items@ == seq.subrange(0, items@.len() as int),
                items@.len() <= seq.len(),
                forall|j: int|
                    #![trigger seq[j]]
                    0 <= j < seq.len() ==> entries.contains_key(seq[j].0.id) && entries[seq[j].0.id] == seq[j].1,
                forall|i: int, j: int| 0 <= i < seq.len() && 0 <= j < seq.len() && i != j ==> seq[i].0.id != seq[j].0.id,
                groups_of(agroups@, old_self.scopes_view(), entries, true),
                groups_of(sgroups@, old_self.scopes_view(), entries, false),
                aregs@.len() == agroups@.len(),
                sregs@.len() == sgroups@.len(),
                forall|g: int| 0 <= g < aregs@.len() ==> #[trigger] aregs@[g].scope == inner_of(agroups@[g]),
                forall|g: int| 0 <= g < sregs@.len() ==> #[trigger] sregs@[g].scope == inner_of(sgroups@[g]),
                forall|g: int|
                    0 <= g < aregs@.len() ==> #[trigger] aregs@[g].instantiators@ == async_group_from(
                        entries,
                        afins,
                        agroups@[g],
                        seq,
                        items@.len() as int,
                    ),
                forall|g: int|
                    0 <= g < sregs@.len() ==> #[trigger] sregs@[g].instantiators@ == sync_group_from(
                        entries,
                        sfins,
                        sgroups@[g],
                        seq,
                        items@.len() as int,
                    ),
                forall|id: TypeId|
                    !taken(seq, items@.len() as int, id) ==> #[trigger] map_get(finalizers@, id) == map_get(afins, id),
                forall|id: TypeId|
                    !taken(seq, items@.len() as int, id) ==> #[trigger] map_get(sync_finalizers@, id) == map_get(sfins, id),
            decreases items@.len(),
        {
            let ghost n = items@.len() - 1;
            let (key, scoped) = items.pop().unwrap();
            let ghost id = key.id;
            proof {
                assert(seq[n] == (key, scoped));
                assert(entries.contains_key(id) && entries[id] == scoped);
                assert(!taken(seq, n + 1, id)) by {
                    if taken(seq, n + 1, id) {
                        let j = choose|j: int| n + 1 <= j < seq.len() && #[trigger] seq[j].0.id == id;
                        assert(seq[j].0.id != seq[n].0.id);
                    }
                }
                assert forall|x: TypeId| #[trigger] taken(seq, n, x) <==> (taken(seq, n + 1, x) || x == id) by {
                    if taken(seq, n, x) {
                        let j = choose|j: int| n <= j < seq.len() && #[trigger] seq[j].0.id == x;
                        if j != n {
                            assert(taken(seq, n + 1, x));
                        }
                    }
                    if taken(seq, n + 1, x) {
                        let j = choose|j: int| n + 1 <= j < seq.len() && #[trigger] seq[j].0.id == x;
                        assert(seq[j].0.id == x);
                    }
                    if x == id {
                        assert(seq[n].0.id == x);
                    }
                }
            }
            let ScopedInstantiator { instantiator, config, scope } = scoped;
            match instantiator {
                BoxedInstantiator::Async(inst) => {
                    proof {
                        assert(same_scope(entries[id].scope, scope));
                        assert(has_group(old_self.scopes_view(), entries, scope, true));
                        assert(has_scope(agroups@, scope));
                    }
                    let g = find_group(&agroups, &scope);
                    let ghost fins_before = finalizers@;
                    proof {
                        assert(map_get(fins_before, id) == map_get(afins, id));
                    }
                    let finalizer = finalizers.remove(&key);
                    let ghost before = aregs@;
                    insert_into(&mut aregs, g, key, InstantiatorInnerData { instantiator: inst, finalizer, config });
                    proof {
                        assert(finalizer == map_get(afins, id));
                        assert forall|h: int| 0 <= h < aregs@.len() implies #[trigger] aregs@[h].instantiators@
                            == async_group_from(entries, afins, agroups@[h], seq, n) by {
                            if h == g {
                                assert(aregs@[h].instantiators@ =~= async_group_from(entries, afins, agroups@[h], seq, n));
                            } else {
                                assert(!same_scope(agroups@[h], scope)) by {
                                    if h < g {
                                        assert(!same_scope(agroups@[h], agroups@[g as int]));
                                    } else {
                                        assert(!same_scope(agroups@[g as int], agroups@[h]));
                                    }
                                }
                                assert(before[h].instantiators@ == aregs@[h].instantiators@);
                                assert(aregs@[h].instantiators@ =~= async_group_from(entries, afins, agroups@[h], seq, n));
                            }
                        }
                        assert forall|h: int| 0 <= h < sregs@.len() implies #[trigger] sregs@[h].instantiators@
                            == sync_group_from(entries, sfins, sgroups@[h], seq, n) by {
                            assert(sregs@[h].instantiators@ =~= sync_group_from(entries, sfins, sgroups@[h], seq, n));
                        }
                        assert forall|x: TypeId| !taken(seq, n, x) implies #[trigger] map_get(finalizers@, x) == map_get(afins, x) by {
                            assert(x != id);
                            assert(!taken(seq, n + 1, x));
                            assert(map_get(fins_before, x) == map_get(afins, x));
                        }
                    }
                },
                BoxedInstantiator::Sync(inst) => {
                    proof {
                        assert(same_scope(entries[id].scope, scope));
                        assert(has_group(old_self.scopes_view(), entries, scope, false));
                        assert(has_scope(sgroups@, scope));
                    }
                    let g = find_group(&sgroups, &scope);
                    let ghost fins_before = sync_finalizers@;
                    proof {
                        assert(map_get(fins_before, id) == map_get(sfins, id));
                    }
                    let finalizer = sync_finalizers.remove(&key);
                    let ghost before = sregs@;
                    insert_into(&mut sregs, g, key, InstantiatorInnerData { instantiator: inst, finalizer, config });
                    proof {
                        assert(finalizer == map_get(sfins, id));
                        assert forall|h: int| 0 <= h < sregs@.len() implies #[trigger] sregs@[h].instantiators@
                            == sync_group_from(entries, sfins, sgroups@[h], seq, n) by {
                            if h == g {
                                assert(sregs@[h].instantiators@ =~= sync_group_from(entries, sfins, sgroups@[h], seq, n));
                            } else {
                                assert(!same_scope(sgroups@[h], scope)) by {
                                    if h < g {
                                        assert(!same_scope(sgroups@[h], sgroups@[g as int]));
                                    } else {
                                        assert(!same_scope(sgroups@[g as int], sgroups@[h]));
                                    }
                                }
                                assert(before[h].instantiators@ == sregs@[h].instantiators@);
                                assert(sregs@[h].instantiators@ =~= sync_group_from(entries, sfins, sgroups@[h], seq, n));
                            }
                        }
                        assert forall|h: int| 0 <= h < aregs@.len() implies #[trigger] aregs@[h].instantiators@
                            == async_group_from(entries, afins, agroups@[h], seq, n) by {
                            assert(aregs@[h].instantiators@ =~= async_group_from(entries, afins, agroups@[h], seq, n));
                        }
                        assert forall|x: TypeId| !taken(seq, n, x) implies #[trigger] map_get(sync_finalizers@, x) == map_get(sfins, x) by {
                            assert(x != id);
                            assert(!taken(seq, n + 1, x));
                            assert(map_get(fins_before, x) == map_get(sfins, x));
                        }
                    }
                },
            }
        }
        proof {
            assert forall|x: TypeId| #[trigger] taken(seq, 0, x) <==> entries.contains_key(x) by {
                if entries.contains_key(x) {
                    let j = instantiators.position(x);
                    assert(seq[j].0.id == x);
                }
            }
            assert forall|g: int| #![trigger aregs@[g]] 0 <= g < aregs@.len() implies aregs@[g].scope == inner_of(agroups@[g])
                && aregs@[g].instantiators@ == async_group(entries, afins, agroups@[g]) by {
                assert(aregs@[g].scope == inner_of(agroups@[g]));
                assert(aregs@[g].instantiators@ =~= async_group(entries, afins, agroups@[g]));
            }
            assert forall|g: int| #![trigger sregs@[g]] 0 <= g < sregs@.len() implies sregs@[g].scope == inner_of(sgroups@[g])
                && sregs@[g].instantiators@ == sync_group(entries, sfins, sgroups@[g]) by {
                assert(sregs@[g].scope == inner_of(sgroups@[g]));
                assert(sregs@[g].instantiators@ =~= sync_group(entries, sfins, sgroups@[g]));
            }
            assert(entries == old_self.instantiators_view());
            assert(afins == old_self.finalizers_view());
            assert(sfins == old_self.sync_finalizers_view());
            assert(groups_of(agroups@, old_self.scopes_view(), old_self.instantiators_view(), true) && async_built(
                aregs@,
                agroups@,
                old_self.instantiators_view(),
                old_self.finalizers_view(),
            ));
            assert(groups_of(sgroups@, old_self.scopes_view(), old_self.instantiators_view(), false) && sync_built(
                sregs@,
                sgroups@,
                old_self.instantiators_view(),
                old_self.sync_finalizers_view(),
            ));
        }
        (aregs, sregs)
    }
}

impl<SI, AI, SF, AF> Default for RegistriesBuilder<SI, AI, SF, AF> {
    /// A builder over the default scopes, with nothing provided.
    fn default() -> (r: Self)
        ensures
            r.instantiators_view() == Map::<TypeId, ScopedInstantiator<SI, AI>>::empty(),
            r.finalizers_view() == Map::<TypeId, AF>::empty(),
            r.sync_finalizers_view() == Map::<TypeId, SF>::empty(),
            r.scopes_view() == default_scopes_data(),
            r.scopes_view().len() == 6,
            forall|i: int| 0 <= i < 6 ==> #[trigger] r.scopes_view()[i].priority == i,
    {
        RegistriesBuilder::new()
    }
}

impl<I, F> ScopeRegistry<I, F> {
    /// The instantiator of `type_info`'s type in this scope.
    pub fn get_instantiator(&self, type_info: &TypeInfo) -> (r: Option<&I>)
        ensures
            r is Some <==> self.instantiators@.contains_key(type_info.id),
            r matches Some(i) ==> *i == self.instantiators@[type_info.id].instantiator,
    {
        match self.instantiators.get(type_info) {
            Some(data) => Some(&data.instantiator),
            None => None,
        }
    }

    /// The instantiator of `type_info`'s type in this scope, with its finalizer and
    /// configuration.
    pub fn get_instantiator_data(&self, type_info: &TypeInfo) -> (r: Option<&InstantiatorInnerData<I, F>>)
        ensures
            r is Some <==> self.instantiators@.contains_key(type_info.id),
            r matches Some(d) ==> *d == self.instantiators@[type_info.id],
    {
        self.instantiators.get(type_info)
    }
}

/// After `build`, each asynchronous instantiator stands in exactly one asynchronous
/// registry: the one built for the scope it was provided in.
pub proof fn law_build_places_async_once<SI, AI, SF, AF>(
    builder: RegistriesBuilder<SI, AI, SF, AF>,
    regs: Seq<ScopeRegistry<AI, AF>>,
    gs: Seq<ScopeData>,
    id: TypeId,
)
    requires
        groups_of(gs, builder.scopes_view(), builder.instantiators_view(), true),
        async_built(regs, gs, builder.instantiators_view(), builder.finalizers_view()),
        builder.instantiators_view().contains_key(id),
        builder.instantiators_view()[id].instantiator is Async,
    ensures
        exists|g: int|
            0 <= g < regs.len() && #[trigger] regs[g].instantiators@.contains_key(id) && same_scope(
                gs[g],
                builder.instantiators_view()[id].scope,
            ),
        forall|g: int, h: int|
            0 <= g < regs.len() && 0 <= h < regs.len() && #[trigger] regs[g].instantiators@.contains_key(id)
                && #[trigger] regs[h].instantiators@.contains_key(id) ==> g == h,
{
    let entries = builder.instantiators_view();
    let s = entries[id].scope;
    assert(has_group(builder.scopes_view(), entries, s, true));
    assert(has_scope(gs, s));
    let g = choose|g: int| 0 <= g < gs.len() && same_scope(#[trigger] gs[g], s);
    assert(regs[g].instantiators@ == async_group(entries, builder.finalizers_view(), gs[g]));
    assert(regs[g].instantiators@.contains_key(id));
    assert forall|a: int, b: int|
        0 <= a < regs.len() && 0 <= b < regs.len() && #[trigger] regs[a].instantiators@.contains_key(id)
            && #[trigger] regs[b].instantiators@.contains_key(id) implies a == b by {
        assert(regs[a].instantiators@ == async_group(entries, builder.finalizers_view(), gs[a]));
        assert(regs[b].instantiators@ == async_group(entries, builder.finalizers_view(), gs[b]));
        assert(same_scope(gs[a], s) && same_scope(gs[b], s));
        if a < b {
            assert(!same_scope(gs[a], gs[b]));
        } else if b < a {
            assert(!same_scope(gs[b], gs[a]));
        }
    }
}

/// After `build`, each synchronous instantiator stands in exactly one synchronous registry:
/// the one built for the scope it was provided in.
pub proof fn law_build_places_sync_once<SI, AI, SF, AF>(
    builder: RegistriesBuilder<SI, AI, SF, AF>,
    regs: Seq<ScopeRegistry<SI, SF>>,
    gs: Seq<ScopeData>,
    id: TypeId,
)
    requires
        groups_of(gs, builder.scopes_view(), builder.instantiators_view(), false),
        sync_built(regs, gs, builder.instantiators_view(), builder.sync_finalizers_view()),
        builder.instantiators_view().contains_key(id),
        builder.instantiators_view()[id].instantiator is Sync,
    ensures
        exists|g: int|
            0 <= g < regs.len() && #[trigger] regs[g].instantiators@.contains_key(id) && same_scope(
                gs[g],
                builder.instantiators_view()[id].scope,
            ),
        forall|g: int, h: int|
            0 <= g < regs.len() && 0 <= h < regs.len() && #[trigger] regs[g].instantiators@.contains_key(id)
                && #[trigger] regs[h].instantiators@.contains_key(id) ==> g == h,
{
    let entries = builder.instantiators_view();
    let s = entries[id].scope;
    assert(has_group(builder.scopes_view(), entries, s, false));
    assert(has_scope(gs, s));
    let g = choose|g: int| 0 <= g < gs.len() && same_scope(#[trigger] gs[g], s);
    assert(regs[g].instantiators@ == sync_group(entries, builder.sync_finalizers_view(), gs[g]));
    assert(regs[g].instantiators@.contains_key(id));
    assert forall|a: int, b: int|
        0 <= a < regs.len() && 0 <= b < regs.len() && #[trigger] regs[a].instantiators@.contains_key(id)
            && #[trigger] regs[b].instantiators@.contains_key(id) implies a == b by {
        assert(regs[a].instantiators@ == sync_group(entries, builder.sync_finalizers_view(), gs[a]));
        assert(regs[b].instantiators@ == sync_group(entries, builder.sync_finalizers_view(), gs[b]));
        assert(same_scope(gs[a], s) && same_scope(gs[b], s));
        if a < b {
            assert(!same_scope(gs[a], gs[b]));
        } else if b < a {
            assert(!same_scope(gs[b], gs[a]));
        }
    }
}

} // verus!
