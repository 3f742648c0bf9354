use std::any::TypeId;
use std::sync::Arc;
use vstd::prelude::*;

use crate::any::{RcAny, TypeInfo};
use crate::type_map::TypeMap;

verus! {

/// Values handed to a container from outside, one per type.
pub struct Context {
    pub map: TypeMap<RcAny>,
}

impl Default for Context {
    fn default() -> (r: Self)
        ensures
            r.map@ == Map::<TypeId, RcAny>::empty(),
    {
        Context::new()
    }
}

impl Context {
    /// An empty context.
    pub fn new() -> (r: Self)
        ensures
            r.map@ == Map::<TypeId, RcAny>::empty(),
    {
        Context { map: TypeMap::new() }
    }

    /// Stores a shared value under `type_info` and returns the value it replaces.
    pub fn insert_erased(&mut self, type_info: TypeInfo, value: RcAny) -> (r: Option<RcAny>)
        ensures
            final(self).map@ == old(self).map@.insert(type_info.id, value),
            old(self).map@.contains_key(type_info.id) ==> r == Some(old(self).map@[type_info.id]),
            !old(self).map@.contains_key(type_info.id) ==> r is None,
    {
        self.map.insert(type_info, value)
    }

    /// Stores a value of type `T` under `type_info` (the information of `T`) and returns
    /// the value of type `T` it replaces.
    pub fn insert<T: Send + Sync + 'static>(&mut self, type_info: TypeInfo, value: T) -> (r: Option<Arc<T>>)
        ensures
            final(self).map@.dom() == old(self).map@.dom().insert(type_info.id),
            forall|id: TypeId| id != type_info.id ==> #[trigger] final(self).map@.get(id) == old(self).map@.get(id),
            !old(self).map@.contains_key(type_info.id) ==> r is None,
    {
        self.insert_rc(type_info, Arc::new(value))
    }

    /// Stores a shared value of type `T` under `type_info` (the information of `T`) and
    /// returns the value of type `T` it replaces.
    pub fn insert_rc<T: Send + Sync + 'static>(&mut self, type_info: TypeInfo, value: Arc<T>) -> (r: Option<Arc<T>>)
        ensures
            final(self).map@.dom() == old(self).map@.dom().insert(type_info.id),
            forall|id: TypeId| id != type_info.id ==> #[trigger] final(self).map@.get(id) == old(self).map@.get(id),
            !old(self).map@.contains_key(type_info.id) ==> r is None,
    {
        let previous = self.insert_erased(type_info, RcAny::erase(value));
        proof {
            assert(self.map@.dom() =~= old(self).map@.dom().insert(type_info.id));
        }
        match previous {
            Some(p) => p.downcast::<T>(),
            None => None,
        }
    }
}

} // verus!
