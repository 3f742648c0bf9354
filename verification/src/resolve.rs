use std::any::TypeId;
use vstd::prelude::*;

use crate::any::{RcAny, TypeInfo};
use crate::cache::Resolved;
use crate::container::{
    ancestor, built_chain, chain_member, closed_by, entries_in_scopes, finalization_order,
    last_with_priority_before, recorded_instance, same_except, law_delegate_reaches_scope, resolve_outcome, ContainerInner, ContainerTree,
    ResolveStep, ResolveStepSpec,
};
use crate::registry::Registry;
use crate::scope::{copy_scopes, ScopeDataWithChildScopesData};
use crate::errors::{instantiator_failure, InstantiateErrorKind, InstantiatorErrorKind, ResolveErrorKind};

verus! {

/// A factory that the containers call to provide a value: it builds the value in the given
/// container, resolving what it depends on there.
pub trait Instantiator<F>: Sized {
    fn instantiate(&mut self, tree: &mut ContainerTree<Self, F>, container: usize) -> Result<
        RcAny,
        InstantiatorErrorKind<ResolveErrorKind, InstantiateErrorKind>,
    >;
}

/// What a container calls on a value it closes over, before letting go of it.
pub trait Finalizer: Sized {
    fn finalize(&mut self, value: RcAny);
}

/// `after` is `before` with `v` cached for `type_info`'s type in container `c`, and
/// nothing else changed: what `cache_from_ancestor` does.
pub open spec fn shared_from_ancestor<I, F>(
    before: ContainerTree<I, F>,
    after: ContainerTree<I, F>,
    c: usize,
    type_info: TypeInfo,
    v: RcAny,
) -> bool {
    &&& same_except(before, after, c)
    &&& after.frame(c).cache.map@ == before.frame(c).cache.map@.insert(type_info.id, v)
    &&& after.frame(c).cache.resolved == before.frame(c).cache.resolved
}

/// When container `c` is in `after` and `type_info`'s type still has an instantiator,
/// `after` is a tree in which `v` was just recorded in `c` (see `recorded_instance`): cached
/// when the configuration says so, kept for finalization when the type has a finalizer.
pub open spec fn recorded_if_live<I, F>(after: ContainerTree<I, F>, c: usize, type_info: TypeInfo, v: RcAny) -> bool {
    after.live(c) && after.registry_view().entries@.contains_key(type_info.id) ==> exists|t: ContainerTree<I, F>|
        t.live(c) && t.registry_view().entries@.contains_key(type_info.id) && #[trigger] recorded_instance(
            t,
            after,
            c,
            type_info,
            v,
        )
}

/// `v` was recorded in the ancestor `a` (see `recorded_if_live`) and then, when `c` is still
/// in the tree, shared with `c` (see `shared_from_ancestor`).
pub open spec fn delegated_instance<I, F>(
    after: ContainerTree<I, F>,
    a: usize,
    c: usize,
    type_info: TypeInfo,
    v: RcAny,
) -> bool {
    exists|m: ContainerTree<I, F>|
        #[trigger] recorded_if_live(m, a, type_info, v) && (if m.live(c) {
            shared_from_ancestor(m, after, c, type_info, v)
        } else {
            after == m
        })
}

/// What the next step of resolving calls for, with the instantiator taken out of the tree.
enum Next<I> {
    Done(Result<RcAny, ResolveErrorKind>),
    Delegate(usize),
    Call(I),
}

impl<I: Instantiator<F> + Clone, F> ContainerTree<I, F> {
    /// The step of resolving `type_info` in `container`, owning what it holds.
    fn next_step(&self, container: usize, type_info: &TypeInfo, use_cache: bool) -> (r: Next<I>)
        requires
            self.live(container),
        ensures
            resolve_outcome(*self, container, *type_info, use_cache) matches Some(o) ==> match o {
                ResolveStepSpec::Cached(v) => r == Next::<I>::Done(Ok(v)),
                ResolveStepSpec::Failed(e) => r == Next::<I>::Done(Err(e)),
                ResolveStepSpec::Delegate(a) => r == Next::<I>::Delegate(a),
            },
            resolve_outcome(*self, container, *type_info, use_cache) is None ==> r is Call,
    {
        let step = if use_cache {
            self.resolve(container, type_info)
        } else {
            self.resolve_transient(container, type_info)
        };
        match step {
            ResolveStep::Cached(v) => Next::Done(Ok(v)),
            ResolveStep::Failed(e) => Next::Done(Err(e)),
            ResolveStep::Delegate(a) => Next::Delegate(a),
            ResolveStep::Instantiate(i) => Next::Call(i.clone()),
        }
    }

    /// Gets the value of `type_info`'s type in `container`: from its cache; else from the
    /// wider container whose scope provides the type, caching it here too; else by calling
    /// the type's instantiator here, then caching the value when the instantiator's
    /// configuration says so and keeping it for finalization when the type has a finalizer.
    ///
    /// What the instantiator does to the tree while it runs is its own: the value is recorded
    /// only when `container` is still in the tree and the type still has an instantiator.
    pub fn get(&mut self, container: usize, type_info: &TypeInfo) -> (r: Result<RcAny, ResolveErrorKind>)
        requires
            old(self).live(container),
        ensures
            old(self).frame(container).cache.map@.contains_key(type_info.id) ==> r == Ok::<RcAny, ResolveErrorKind>(
                old(self).frame(container).cache.map@[type_info.id],
            ) && *final(self) == *old(self),
            match resolve_outcome(*old(self), container, *type_info, true) {
                Some(ResolveStepSpec::Cached(v)) => r == Ok::<RcAny, ResolveErrorKind>(v) && *final(self) == *old(self),
                Some(ResolveStepSpec::Failed(e)) => r == Err::<RcAny, ResolveErrorKind>(e) && *final(self) == *old(self),
                Some(ResolveStepSpec::Delegate(a)) => match resolve_outcome(*old(self), a, *type_info, true) {
                    Some(ResolveStepSpec::Cached(v)) => r == Ok::<RcAny, ResolveErrorKind>(v) && shared_from_ancestor(
                        *old(self),
                        *final(self),
                        container,
                        *type_info,
                        v,
                    ),
                    _ => {
                        &&& r is Err ==> exists|e| r == Err::<RcAny, ResolveErrorKind>(#[trigger] instantiator_failure(e))
                        &&& r is Ok ==> delegated_instance(*final(self), a, container, *type_info, r->Ok_0)
                    },
                },
                None => {
                    &&& r is Err ==> exists|e| r == Err::<RcAny, ResolveErrorKind>(#[trigger] instantiator_failure(e))
                    &&& r is Ok ==> recorded_if_live(*final(self), container, *type_info, r->Ok_0)
                },
            },
        decreases old(self).frame(container).depth,
    {
        proof {
            use_type_invariant(&*self);
            law_delegate_reaches_scope(*self, container, *type_info);
        }
        match self.next_step(container, type_info, true) {
            Next::Done(r) => r,
            Next::Delegate(a) => {
                let ghost before = *self;
                proof {
                    assert(resolve_outcome(before, a, *type_info, true) matches Some(ResolveStepSpec::Cached(_))
                        || resolve_outcome(before, a, *type_info, true) is None);
                }
                match self.get(a, type_info) {
                    Ok(v) => {
                        let ghost mid = *self;
                        if self.contains(container) {
                            self.cache_from_ancestor(container, *type_info, v.share());
                        }
                        proof {
                            if !(resolve_outcome(before, a, *type_info, true) matches Some(ResolveStepSpec::Cached(_))) {
                                assert(recorded_if_live(mid, a, *type_info, v));
                                assert(delegated_instance(*self, a, container, *type_info, v));
                            }
                        }
                        Ok(v)
                    },
                    Err(e) => Err(e),
                }
            },
            Next::Call(mut instantiator) => {
                match instantiator.instantiate(self, container) {
                    Ok(v) => {
                        let ghost t = *self;
                        if self.contains(container) && self.registry().get(type_info).is_some() {
                            self.record_instance(container, *type_info, v.share());
                            proof {
                                assert(recorded_instance(t, *self, container, *type_info, v));
                            }
                        }
                        Ok(v)
                    },
                    Err(e) => Err(ResolveErrorKind::from_instantiator(e)),
                }
            },
        }
    }

    /// Gets a new value of `type_info`'s type: by calling its instantiator in `container`,
    /// or in the wider container whose scope provides the type. No cache is read or written.
    pub fn get_transient(&mut self, container: usize, type_info: &TypeInfo) -> (r: Result<RcAny, ResolveErrorKind>)
        requires
            old(self).live(container),
        ensures
            match resolve_outcome(*old(self), container, *type_info, false) {
                Some(ResolveStepSpec::Failed(e)) => r == Err::<RcAny, ResolveErrorKind>(e) && *final(self) == *old(self),
                Some(ResolveStepSpec::Cached(_)) => false,
                Some(ResolveStepSpec::Delegate(_)) => r is Err ==> exists|e| r == Err::<RcAny, ResolveErrorKind>(#[trigger] instantiator_failure(e)),
                None => r is Err ==> exists|e| r == Err::<RcAny, ResolveErrorKind>(#[trigger] instantiator_failure(e)),
            },
        decreases old(self).frame(container).depth,
    {
        proof {
            use_type_invariant(&*self);
            law_delegate_reaches_scope(*self, container, *type_info);
        }
        match self.next_step(container, type_info, false) {
            Next::Done(r) => r,
            Next::Delegate(a) => {
                proof {
                    assert(resolve_outcome(*self, a, *type_info, false) is None);
                }
                self.get_transient(a, type_info)
            },
            Next::Call(mut instantiator) => {
                match instantiator.instantiate(self, container) {
                    Ok(v) => Ok(v),
                    Err(e) => Err(ResolveErrorKind::from_instantiator(e)),
                }
            },
        }
    }
}

impl<I, F: Finalizer + Clone> ContainerTree<I, F> {
    /// Closes `container` (see `close`) and hands each value it lets go of, latest first, to
    /// the finalizer of its type; returns those values in that order.
    pub fn close_and_finalize(&mut self, container: usize) -> (r: Vec<Resolved>)
        requires
            old(self).live(container),
        ensures
            r@ == finalization_order(*old(self), container, old(self).frame(container).close_parent),
            closed_by(*old(self), *final(self), container, old(self).frame(container).close_parent),
    {
        let resolved = self.close(container);
        let mut i: usize = 0;
        while i < resolved.len()
            invariant
                i <= resolved@.len(),
            decreases resolved@.len() - i,
        {
            let item = &resolved[i];
            match self.registry().get(&item.type_info) {
                Some(data) => match &data.finalizer {
                    Some(f) => {
                        let mut finalizer = f.clone();
                        finalizer.finalize(item.dependency.share());
                    },
                    None => {},
                },
                None => {},
            }
            i = i + 1;
        }
        resolved
    }
}

/// Whether every instantiator of `registry` lives in one of its scopes.
pub fn entries_fit_scopes<I, F>(registry: &Registry<I, F>) -> (r: bool)
    ensures
        r == entries_in_scopes(*registry, registry.scopes_data@),
{
    proof {
        use_type_invariant(&registry.entries);
        registry.entries.lemma_entries();
    }
    let n = registry.entries.len();
    let mut i: usize = 0;
    while i < n
        invariant
            n == registry.entries.entry_seq().len(),
            i <= n,
            forall|j: int|
                #![trigger registry.entries.entry_seq()[j]]
                0 <= j < n ==> registry.entries@.contains_key(registry.entries.entry_seq()[j].0.id)
                    && registry.entries@[registry.entries.entry_seq()[j].0.id] == registry.entries.entry_seq()[j].1,
            forall|j: int|
                0 <= j < i ==> exists|k: int|
                    0 <= k < registry.scopes_data@.len() && #[trigger] registry.scopes_data@[k].priority
                        == (#[trigger] registry.entries.entry_seq()[j]).1.scope_data.priority,
        decreases n - i,
    {
        let q = registry.entries.entry(i).1.scope_data.priority;
        let mut k: usize = 0;
        let mut found = false;
        while k < registry.scopes_data.len()
            invariant
                k <= registry.scopes_data@.len(),
                found ==> exists|m: int| 0 <= m < registry.scopes_data@.len() && #[trigger] registry.scopes_data@[m].priority == q,
                !found ==> forall|m: int| 0 <= m < k ==> #[trigger] registry.scopes_data@[m].priority != q,
            decreases registry.scopes_data@.len() - k,
        {
            if registry.scopes_data[k].priority == q {
                found = true;
            }
            k = k + 1;
        }
        if !found {
            proof {
                let id = registry.entries.entry_seq()[i as int].0.id;
                assert(registry.entries@.contains_key(id));
                assert(registry.entries@[id].scope_data.priority == q);
            }
            return false;
        }
        i = i + 1;
    }
    proof {
        assert forall|id: TypeId| #[trigger] registry.entries@.contains_key(id) implies exists|k: int|
            0 <= k < registry.scopes_data@.len() && #[trigger] registry.scopes_data@[k].priority
                == registry.entries@[id].scope_data.priority by {
            let j = registry.entries.position(id);
            assert(registry.entries.entry_seq()[j].0.id == id);
        }
    }
    true
}

/// Whether `ContainerTree::new` can start a tree from `registry`: it has two scopes or
/// more, one of them not skipped by default, and every instantiator lives in one of them.
pub fn can_start<I, F>(registry: &Registry<I, F>) -> (r: bool)
    ensures
        r == (registry.scopes_data@.len() >= 2 && (exists|k: int|
            0 <= k < registry.scopes_data@.len() && !(#[trigger] registry.scopes_data@[k]).is_skipped_by_default)
            && entries_in_scopes(*registry, registry.scopes_data@)),
{
    if registry.scopes_data.len() < 2 {
        return false;
    }
    let mut k: usize = 0;
    while k < registry.scopes_data.len()
        invariant
            2 <= registry.scopes_data@.len(),
            k <= registry.scopes_data@.len(),
            forall|m: int| 0 <= m < k ==> (#[trigger] registry.scopes_data@[m]).is_skipped_by_default,
        decreases registry.scopes_data@.len() - k,
    {
        if !registry.scopes_data[k].is_skipped_by_default {
            proof {
                assert(!registry.scopes_data@[k as int].is_skipped_by_default);
            }
            return entries_fit_scopes(registry);
        }
        k = k + 1;
    }
    false
}

/// Whether `ContainerTree::new_with_start_scope` can start a tree from `registry` at the
/// scope with the given priority: it is among the scopes, and every instantiator lives in
/// one of them.
pub fn can_start_at<I, F>(registry: &Registry<I, F>, priority: u8) -> (r: bool)
    ensures
        r == ((exists|k: int|
            0 <= k < registry.scopes_data@.len() && (#[trigger] registry.scopes_data@[k]).priority == priority)
            && entries_in_scopes(*registry, registry.scopes_data@)),
{
    let mut k: usize = 0;
    while k < registry.scopes_data.len()
        invariant
            k <= registry.scopes_data@.len(),
            forall|m: int| 0 <= m < k ==> (#[trigger] registry.scopes_data@[m]).priority != priority,
        decreases registry.scopes_data@.len() - k,
    {
        if registry.scopes_data[k].priority == priority {
            proof {
                assert(registry.scopes_data@[k as int].priority == priority);
            }
            return entries_fit_scopes(registry);
        }
        k = k + 1;
    }
    false
}

impl ContainerInner {
    /// This container's scope and the narrower scopes below it.
    pub fn get_scope_with_child_scopes(&self) -> (r: ScopeDataWithChildScopesData)
        ensures
            r.scope_data == Some(self.scope_data),
            r.child_scopes_data@ == self.child_scopes_data@,
    {
        ScopeDataWithChildScopesData::new(self.scope_data, copy_scopes(&self.child_scopes_data))
    }
}

/// Whether an asynchronous container, failing with `e`, asks its synchronous container
/// instead: exactly when it has no instantiator for the type.
pub fn falls_back_to_sync(e: &ResolveErrorKind) -> (r: bool)
    ensures
        r == (*e is NoInstantiator),
{
    match e {
        ResolveErrorKind::NoInstantiator { .. } => true,
        _ => false,
    }
}

/// The outcome of an instantiator from the outcome of resolving its dependencies and then
/// of its factory: a dependency's error becomes `Deps`, the factory's error `Factory`.
pub fn instantiator_outcome(
    outcome: Result<Result<RcAny, InstantiateErrorKind>, ResolveErrorKind>,
) -> (r: Result<RcAny, InstantiatorErrorKind<ResolveErrorKind, InstantiateErrorKind>>)
    ensures
        match outcome {
            Ok(Ok(v)) => r == Ok::<RcAny, InstantiatorErrorKind<ResolveErrorKind, InstantiateErrorKind>>(v),
            Ok(Err(e)) => r == Err::<RcAny, InstantiatorErrorKind<ResolveErrorKind, InstantiateErrorKind>>(
                InstantiatorErrorKind::Factory(e),
            ),
            Err(e) => r == Err::<RcAny, InstantiatorErrorKind<ResolveErrorKind, InstantiateErrorKind>>(
                InstantiatorErrorKind::Deps(e),
            ),
        },
{
    match outcome {
        Ok(Ok(v)) => Ok(v),
        Ok(Err(e)) => Err(InstantiatorErrorKind::Factory(e)),
        Err(e) => Err(InstantiatorErrorKind::Deps(e)),
    }
}

/// A type held in a container's cache resolves to the cached value, whether or not the
/// registry has an instantiator for it: a value handed in, or cached earlier, is found
/// before the registry is consulted.
pub proof fn law_cache_answers_first<I, F>(tree: ContainerTree<I, F>, c: usize, type_info: TypeInfo)
    requires
        tree.frame(c).cache.map@.contains_key(type_info.id),
    ensures
        resolve_outcome(tree, c, type_info, true) == Some(ResolveStepSpec::Cached(tree.frame(c).cache.map@[type_info.id])),
{
}

/// A value handed to a child container in its context is what resolving its type in that
/// child gives, whatever the wider containers hold or the registry provides.
pub proof fn law_context_value_found<I, F>(
    before: ContainerTree<I, F>,
    after: ContainerTree<I, F>,
    from: usize,
    target: int,
    ctx: Map<TypeId, RcAny>,
    child: usize,
    type_info: TypeInfo,
)
    requires
        built_chain(before, after, from, target, ctx),
        before.frame(from).depth < target,
        child + 1 == after.frame_count(),
        ctx.contains_key(type_info.id),
    ensures
        resolve_outcome(after, child, type_info, true) == Some(ResolveStepSpec::Cached(ctx[type_info.id])),
{
    let n0 = before.frame_count();
    assert(n0 <= child < n0 + (target - before.frame(from).depth));
    assert(chain_member(after, from, n0 as int, before.frame(from).depth as int, before.frame(from).cache.map@, ctx, child));
    law_cache_answers_first(after, child, type_info);
}

/// A transient resolution does not depend on what a container has cached: two trees that
/// differ only in a container's cache call for the same step there.
pub proof fn law_transient_ignores_cache<I, F>(
    a: ContainerTree<I, F>,
    b: ContainerTree<I, F>,
    c: usize,
    type_info: TypeInfo,
)
    requires
        a.registry_view() == b.registry_view(),
        a.scopes() == b.scopes(),
        a.frame(c).scope_data == b.frame(c).scope_data,
        a.frame(c).depth == b.frame(c).depth,
        forall|n: nat| #[trigger] ancestor(a, c, n) == ancestor(b, c, n),
    ensures
        resolve_outcome(a, c, type_info, false) == resolve_outcome(b, c, type_info, false),
{
    let f = a.frame(c);
    let entries = a.registry_view().entries@;
    let id = type_info.id;
    if entries.contains_key(id) && entries[id].scope_data.priority < f.scope_data.priority {
        let k = last_with_priority_before(a.scopes(), f.depth as int, entries[id].scope_data.priority);
        assert(ancestor(a, c, (f.depth - k) as nat) == ancestor(b, c, (f.depth - k) as nat));
    }
}

} // verus!
