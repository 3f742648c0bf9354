use std::any::TypeId;
use std::sync::Arc;
use vstd::prelude::*;

use crate::any::{RcAny, TypeInfo};
use crate::context::Context;
use crate::type_map::TypeMap;

verus! {

/// A value resolved by a container whose type has a finalizer: it is finalized when the
/// container closes.
pub struct Resolved {
    pub type_info: TypeInfo,
    pub dependency: RcAny,
}

impl Resolved {
    /// Another record of the same value.
    pub fn share(&self) -> (r: Resolved)
        ensures
            r == *self,
    {
        Resolved { type_info: self.type_info, dependency: self.dependency.share() }
    }
}

/// Resolved values in the order they were resolved.
pub struct ResolvedSet(pub Vec<Resolved>);

impl Default for ResolvedSet {
    fn default() -> (r: Self)
        ensures
            r.0@ == Seq::<Resolved>::empty(),
    {
        ResolvedSet::new()
    }
}

impl ResolvedSet {
    /// An empty set.
    pub fn new() -> (r: Self)
        ensures
            r.0@ == Seq::<Resolved>::empty(),
    {
        ResolvedSet(Vec::new())
    }

    /// Records a value as the latest resolved.
    pub fn push(&mut self, resolved: Resolved)
        ensures
            final(self).0@ == old(self).0@.push(resolved),
    {
        self.0.push(resolved);
    }
}

/// The values a container holds: cached instances by type, and the resolved values
/// awaiting finalization.
pub struct Cache {
    pub map: TypeMap<RcAny>,
    pub resolved: ResolvedSet,
}

impl Cache {
    /// An empty cache.
    pub fn new() -> (r: Self)
        ensures
            r.map@ == Map::<TypeId, RcAny>::empty(),
            r.resolved.0@ == Seq::<Resolved>::empty(),
    {
        Cache { map: TypeMap::new(), resolved: ResolvedSet::new() }
    }

    /// Caches a shared value under `type_info` and returns the value it replaces.
    pub fn insert_erased(&mut self, type_info: TypeInfo, value: RcAny) -> (r: Option<RcAny>)
        ensures
            final(self).map@ == old(self).map@.insert(type_info.id, value),
            final(self).resolved == old(self).resolved,
            old(self).map@.contains_key(type_info.id) ==> r == Some(old(self).map@[type_info.id]),
            !old(self).map@.contains_key(type_info.id) ==> r is None,
    {
        self.map.insert(type_info, value)
    }

    /// Caches a shared value of type `T` under `type_info` (the information of `T`) and
    /// returns the value of type `T` it replaces.
    pub fn insert_rc<T: Send + Sync + 'static>(&mut self, type_info: TypeInfo, value: Arc<T>) -> (r: Option<Arc<T>>)
        ensures
            final(self).map@.dom() == old(self).map@.dom().insert(type_info.id),
            forall|id: TypeId| id != type_info.id ==> #[trigger] final(self).map@.get(id) == old(self).map@.get(id),
            final(self).resolved == old(self).resolved,
            !old(self).map@.contains_key(type_info.id) ==> r is None,
    {
        let previous = self.insert_erased(type_info, RcAny::erase(value));
        proof {
            assert(self.map@.dom() =~= old(self).map@.dom().insert(type_info.id));
        }
        match previous {
            Some(p) => p.downcast::<T>(),
            None => None,
        }
    }

    /// Caches every value of the context, each replacing what was cached for its type.
    pub fn extend_context(&mut self, context: &Context)
        ensures
            final(self).map@ == old(self).map@.union_prefer_right(context.map@),
            final(self).resolved == old(self).resolved,
    {
        self.map.extend_shared(&context.map);
    }

    /// A cache for a child container: the same cached values, no resolved values.
    pub fn child(&self) -> (r: Self)
        ensures
            r.map@ == self.map@,
            r.resolved.0@ == Seq::<Resolved>::empty(),
    {
        Cache { map: self.map.duplicate(), resolved: ResolvedSet::new() }
    }

    /// The value cached under `type_info`.
    pub fn get_erased(&self, type_info: &TypeInfo) -> (r: Option<RcAny>)
        ensures
            r is Some <==> self.map@.contains_key(type_info.id),
            r matches Some(v) ==> v == self.map@[type_info.id],
    {
        match self.map.get(type_info) {
            Some(v) => Some(v.share()),
            None => None,
        }
    }

    /// The value of type `T` cached under `type_info` (the information of `T`).
    pub fn get<T: Send + Sync + 'static>(&self, type_info: &TypeInfo) -> (r: Option<Arc<T>>)
        ensures
            !self.map@.contains_key(type_info.id) ==> r is None,
    {
        match self.get_erased(type_info) {
            Some(v) => v.downcast::<T>(),
            None => None,
        }
    }

    /// Records a value as the latest resolved.
    pub fn push_resolved(&mut self, resolved: Resolved)
        ensures
            final(self).resolved.0@ == old(self).resolved.0@.push(resolved),
            final(self).map == old(self).map,
    {
        self.resolved.push(resolved);
    }

    /// Hands out the resolved values, leaving none.
    pub fn take_resolved_set(&mut self) -> (r: ResolvedSet)
        ensures
            r.0@ == old(self).resolved.0@,
            final(self).resolved.0@ == Seq::<Resolved>::empty(),
            final(self).map == old(self).map,
    {
        let mut taken = ResolvedSet::new();
        std::mem::swap(&mut taken, &mut self.resolved);
        taken
    }
}

} // verus!
