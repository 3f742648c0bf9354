use std::any::TypeId;
use vstd::prelude::*;
use vstd::pervasive::VecAdditionalExecFns;

use crate::any::{RcAny, TypeInfo};
use crate::cache::{Cache, Resolved};
use crate::context::Context;
use crate::errors::{ResolveErrorKind, ScopeErrorKind, ScopeWithErrorKind};
use crate::registry::{InstantiatorData, Registry};
use crate::scope::{copy_scopes, scope_data_of, sorted_by_priority, Scope, ScopeData};

verus! {

/// One container: its cache and context, its scope and the narrower scopes below it, and
/// the container of the next wider scope it was built from.
pub struct ContainerInner {
    pub cache: Cache,
    pub context: Context,
    pub scope_data: ScopeData,
    pub child_scopes_data: Vec<ScopeData>,
    /// The container of the next wider scope.
    pub parent: Option<usize>,
    /// Closing this container also closes its parent (set on containers built in passing
    /// over skipped or intermediate scopes).
    pub close_parent: bool,
    /// Position of the scope among the registry's scopes, widest first.
    pub depth: usize,
}

/// The first position at or after `k` whose scope is not skipped by default, or the
/// length when there is none.
pub open spec fn first_unskipped_from(s: Seq<ScopeData>, k: int) -> int
    decreases s.len() - k,
{
    if k >= s.len() {
        s.len() as int
    } else if !s[k].is_skipped_by_default {
        k
    } else {
        first_unskipped_from(s, k + 1)
    }
}

/// The first position at or after `k` whose scope has priority `p`, or the length when
/// there is none.
pub open spec fn first_with_priority_from(s: Seq<ScopeData>, k: int, p: u8) -> int
    decreases s.len() - k,
{
    if k >= s.len() {
        s.len() as int
    } else if s[k].priority == p {
        k
    } else {
        first_with_priority_from(s, k + 1, p)
    }
}

/// `first_unskipped_from` is the least unskipped position at or after `k`.
pub proof fn lemma_first_unskipped(s: Seq<ScopeData>, k: int)
    requires
        0 <= k,
    ensures
        k <= first_unskipped_from(s, k) <= s.len() || (k > s.len() && first_unskipped_from(s, k) == s.len()),
        first_unskipped_from(s, k) < s.len() ==> !s[first_unskipped_from(s, k)].is_skipped_by_default,
        forall|j: int| k <= j < first_unskipped_from(s, k) ==> #[trigger] s[j].is_skipped_by_default,
    decreases s.len() - k,
{
    if k < s.len() && s[k].is_skipped_by_default {
        lemma_first_unskipped(s, k + 1);
    }
}

/// `first_with_priority_from` is the least position at or after `k` with priority `p`.
pub proof fn lemma_first_with_priority(s: Seq<ScopeData>, k: int, p: u8)
    requires
        0 <= k,
    ensures
        k <= first_with_priority_from(s, k, p) <= s.len() || (k > s.len() && first_with_priority_from(s, k, p) == s.len()),
        first_with_priority_from(s, k, p) < s.len() ==> s[first_with_priority_from(s, k, p)].priority == p,
        forall|j: int| k <= j < first_with_priority_from(s, k, p) ==> #[trigger] s[j].priority != p,
    decreases s.len() - k,
{
    if k < s.len() && s[k].priority != p {
        lemma_first_with_priority(s, k + 1, p);
    }
}

/// Whether the frames form chains of containers over `scopes`: each container sits at a
/// scope position, holds the scopes below it as children, and has as parent an earlier
/// container one position wider; only containers at the widest scope have no parent.
pub open spec fn frames_wf(frames: Seq<Option<ContainerInner>>, scopes: Seq<ScopeData>) -> bool {
    forall|i: int|
        0 <= i < frames.len() && #[trigger] frames[i] is Some ==> {
            let f = frames[i]->0;
            &&& f.depth < scopes.len()
            &&& f.scope_data == scopes[f.depth as int]
            &&& f.child_scopes_data@ == scopes.subrange(f.depth + 1, scopes.len() as int)
            &&& (f.parent is None <==> f.depth == 0)
            &&& (f.parent matches Some(p) ==> {
                &&& p < i
                &&& frames[p as int] is Some
                &&& frames[p as int]->0.depth + 1 == f.depth
            })
        }
}

/// Every instantiator's scope is one of the scopes (by priority).
pub open spec fn entries_in_scopes<I, F>(registry: Registry<I, F>, scopes: Seq<ScopeData>) -> bool {
    forall|id: TypeId|
        #[trigger] registry.entries@.contains_key(id) ==> exists|k: int|
            0 <= k < scopes.len() && #[trigger] scopes[k].priority == registry.entries@[id].scope_data.priority
}

/// The scopes are ordered, widest first, and every instantiator's scope is among them.
#[verifier::opaque]
pub open spec fn scopes_fit<I, F>(registry: Registry<I, F>, scopes: Seq<ScopeData>) -> bool {
    sorted_by_priority(scopes) && entries_in_scopes(registry, scopes)
}

/// The containers built from one registry: each identified by its position.
pub struct ContainerTree<I, F> {
    registry: Registry<I, F>,
    scopes: Vec<ScopeData>,
    frames: Vec<Option<ContainerInner>>,
}

/// What resolving a type in a container calls for.
pub enum ResolveStep<'a, I> {
    /// The value is cached in the container.
    Cached(RcAny),
    /// The type cannot be resolved here.
    Failed(ResolveErrorKind),
    /// The type lives in a wider scope: resolve it in that container, then cache the result
    /// here with `cache_from_ancestor`.
    Delegate(usize),
    /// Call this instantiator with the container, then record the instance with
    /// `record_instance`.
    Instantiate(&'a I),
}

impl<I, F> ContainerTree<I, F> {
    #[verifier::type_invariant]
    pub closed spec fn wf(&self) -> bool {
        &&& scopes_fit(self.registry, self.scopes@)
        &&& frames_wf(self.frames@, self.scopes@)
    }

    /// The registry's scopes, widest first.
    pub closed spec fn scopes(&self) -> Seq<ScopeData> {
        self.scopes@
    }

    /// The registry the containers resolve from.
    pub closed spec fn registry_view(&self) -> Registry<I, F> {
        self.registry
    }

    /// Whether `id` names a container of this tree.
    pub closed spec fn live(&self, id: usize) -> bool {
        id < self.frames@.len() && self.frames@[id as int] is Some
    }

    /// The container named `id`.
    pub closed spec fn frame(&self, id: usize) -> ContainerInner {
        self.frames@[id as int]->0
    }

    /// The number of containers built so far.
    pub closed spec fn frame_count(&self) -> nat {
        self.frames@.len()
    }

    /// Facts of the invariant that callers use.
    pub proof fn lemma_wf(&self)
        requires
            self.wf(),
        ensures
            sorted_by_priority(self.scopes()),
            entries_in_scopes(self.registry_view(), self.scopes()),
            forall|id: usize|
                #[trigger] self.live(id) ==> {
                    let f = self.frame(id);
                    &&& f.depth < self.scopes().len()
                    &&& f.scope_data == self.scopes()[f.depth as int]
                    &&& f.child_scopes_data@ == self.scopes().subrange(f.depth + 1, self.scopes().len() as int)
                    &&& (f.parent is None <==> f.depth == 0)
                    &&& (f.parent matches Some(p) ==> p < id && self.live(p) && self.frame(p).depth + 1 == f.depth)
                },
    {
        reveal(scopes_fit);
        assert forall|id: usize| #[trigger] self.live(id) implies {
            let f = self.frame(id);
            &&& f.depth < self.scopes().len()
            &&& f.scope_data == self.scopes()[f.depth as int]
            &&& f.child_scopes_data@ == self.scopes().subrange(f.depth + 1, self.scopes().len() as int)
            &&& (f.parent is None <==> f.depth == 0)
            &&& (f.parent matches Some(p) ==> p < id && self.live(p) && self.frame(p).depth + 1 == f.depth)
        } by {
            assert(self.frames@[id as int] is Some);
        }
    }

    /// The registry the containers resolve from.
    pub fn registry(&self) -> (r: &Registry<I, F>)
        ensures
            *r == self.registry_view(),
    {
        &self.registry
    }

    /// Whether `id` names a container of this tree.
    pub fn contains(&self, id: usize) -> (r: bool)
        ensures
            r == self.live(id),
    {
        id < self.frames.len() && self.frames[id].is_some()
    }

    /// The container named `id`.
    pub fn inner(&self, id: usize) -> (r: &ContainerInner)
        requires
            self.live(id),
        ensures
            *r == self.frame(id),
    {
        match &self.frames[id] {
            Some(f) => f,
            None => vstd::pervasive::unreached(),
        }
    }
}

/// The scopes from position `from` on.
fn scopes_from(scopes: &Vec<ScopeData>, from: usize) -> (r: Vec<ScopeData>)
    requires
        from <= scopes@.len(),
    ensures
        r@ == scopes@.subrange(from as int, scopes@.len() as int),
{
    let mut r: Vec<ScopeData> = Vec::new();
    let mut i: usize = from;
    while i < scopes.len()
        invariant
            from <= i <= scopes@.len(),
            r@ == scopes@.subrange(from as int, i as int),
        decreases scopes@.len() - i,
    {
        r.push(scopes[i]);
        i = i + 1;
        assert(r@ =~= scopes@.subrange(from as int, i as int));
    }
    r
}

/// A copy of a context, sharing its values.
pub fn copy_context(context: &Context) -> (r: Context)
    ensures
        r.map@ == context.map@,
{
    Context { map: context.map.duplicate() }
}

/// The container at the widest scope: empty cache and context.
fn root_frame(scopes: &Vec<ScopeData>) -> (r: ContainerInner)
    requires
        scopes@.len() > 0,
    ensures
        r.depth == 0,
        r.scope_data == scopes@[0],
        r.child_scopes_data@ == scopes@.subrange(1, scopes@.len() as int),
        r.parent is None,
        !r.close_parent,
        r.cache.map@ == Map::<TypeId, RcAny>::empty(),
        r.cache.resolved.0@ == Seq::<Resolved>::empty(),
        r.context.map@ == Map::<TypeId, RcAny>::empty(),
{
    ContainerInner {
        cache: Cache::new(),
        context: Context::new(),
        scope_data: scopes[0],
        child_scopes_data: scopes_from(scopes, 1),
        parent: None,
        close_parent: false,
        depth: 0,
    }
}

/// Adding a child of a container keeps the frames well formed.
proof fn lemma_push_frame_wf(before: Seq<Option<ContainerInner>>, f: ContainerInner, scopes: Seq<ScopeData>, parent: usize)
    requires
        frames_wf(before, scopes),
        parent < before.len(),
        before[parent as int] is Some,
        f.depth == before[parent as int]->0.depth + 1,
        f.depth < scopes.len(),
        f.scope_data == scopes[f.depth as int],
        f.child_scopes_data@ == scopes.subrange(f.depth + 1, scopes.len() as int),
        f.parent == Some(parent),
    ensures
        frames_wf(before.push(Some(f)), scopes),
{
    let frames = before.push(Some(f));
    assert forall|i: int| 0 <= i < frames.len() && #[trigger] frames[i] is Some implies {
        let g = frames[i]->0;
        &&& g.depth < scopes.len()
        &&& g.scope_data == scopes[g.depth as int]
        &&& g.child_scopes_data@ == scopes.subrange(g.depth + 1, scopes.len() as int)
        &&& (g.parent is None <==> g.depth == 0)
        &&& (g.parent matches Some(p) ==> {
            &&& p < i
            &&& frames[p as int] is Some
            &&& frames[p as int]->0.depth + 1 == g.depth
        })
    } by {
        if i < before.len() {
            assert(before[i] == frames[i]);
            let g = frames[i]->0;
            if let Some(q) = g.parent {
                assert(before[q as int] == frames[q as int]);
            }
        } else {
            assert(frames[parent as int] == before[parent as int]);
        }
    }
}

impl<I, F> ContainerTree<I, F> {
    /// Builds the container of the next narrower scope below `parent`, with the given
    /// context or else a copy of the parent's; its cache starts as the parent's cache with
    /// the context's values.
    #[verifier::rlimit(60)]
    fn push_child(&mut self, parent: usize, context: Option<Context>, close_parent: bool) -> (r: usize)
        requires
            old(self).live(parent),
            old(self).frame(parent).depth + 1 < old(self).scopes().len(),
        ensures
            r == old(self).frame_count(),
            final(self).frame_count() == old(self).frame_count() + 1,
            final(self).live(r),
            forall|j: usize| j < r ==> #[trigger] final(self).live(j) == old(self).live(j),
            forall|j: usize| j < r && old(self).live(j) ==> #[trigger] final(self).frame(j) == old(self).frame(j),
            final(self).scopes() == old(self).scopes(),
            final(self).registry_view() == old(self).registry_view(),
            ({
                let f = final(self).frame(r);
                let p = old(self).frame(parent);
                let ctx = match context {
                    Some(c) => c.map@,
                    None => p.context.map@,
                };
                &&& f.depth == p.depth + 1
                &&& f.scope_data == old(self).scopes()[f.depth as int]
                &&& f.parent == Some(parent)
                &&& f.close_parent == close_parent
                &&& f.cache.map@ == p.cache.map@.union_prefer_right(ctx)
                &&& f.cache.resolved.0@ == Seq::<Resolved>::empty()
                &&& f.context.map@ == ctx
            }),
    {
        proof {
            use_type_invariant(&*self);
        }
        let n = self.scopes.len();
        let p = self.inner(parent);
        let depth = p.depth + 1;
        let ctx = match context {
            Some(c) => c,
            None => copy_context(&p.context),
        };
        let mut cache = p.cache.child();
        cache.extend_context(&ctx);
        let frame = ContainerInner {
            cache,
            context: ctx,
            scope_data: self.scopes[depth],
            child_scopes_data: scopes_from(&self.scopes, depth + 1),
            parent: Some(parent),
            close_parent,
            depth,
        };
        let r = self.frames.len();
        let mut frames: Vec<Option<ContainerInner>> = Vec::new();
        std::mem::swap(&mut frames, &mut self.frames);
        let ghost before = frames@;
        frames.push(Some(frame));
        proof {
            lemma_push_frame_wf(before, frames@.last()->0, self.scopes@, parent);
            assert(frames@ == before.push(Some(frames@.last()->0)));
        }
        self.frames = frames;
        r
    }
}

/// Sequences with the same elements, counted, hold the same elements.
pub proof fn lemma_same_elements<A>(a: Seq<A>, b: Seq<A>)
    requires
        a.to_multiset() == b.to_multiset(),
    ensures
        forall|x: A| a.contains(x) <==> b.contains(x),
{
    assert forall|x: A| a.contains(x) <==> b.contains(x) by {
        vstd::seq_lib::to_multiset_contains(a, x);
        vstd::seq_lib::to_multiset_contains(b, x);
    }
}

/// The containers of a chain built from the widest scope down to position `d`: container
/// `j` sits at scope `j`, has container `j - 1` as parent and closes it, and holds nothing.
pub open spec fn fresh_chain<I, F>(tree: ContainerTree<I, F>, d: int) -> bool {
    &&& tree.frame_count() == d + 1
    &&& forall|j: usize| j <= d ==> #[trigger] fresh_member(tree, j)
}

/// Container `j` of a fresh chain: at scope `j`, below container `j - 1`, holding nothing.
pub open spec fn fresh_member<I, F>(tree: ContainerTree<I, F>, j: usize) -> bool {
    &&& tree.live(j)
    &&& tree.frame(j).depth == j
    &&& (j > 0 ==> tree.frame(j).parent == Some((j - 1) as usize))
    &&& tree.frame(j).close_parent == (j > 0)
    &&& tree.frame(j).cache.map@ == Map::<TypeId, RcAny>::empty()
    &&& tree.frame(j).cache.resolved.0@ == Seq::<Resolved>::empty()
    &&& tree.frame(j).context.map@ == Map::<TypeId, RcAny>::empty()
}

impl<I, F> ContainerTree<I, F> {
    /// The widest container of a new tree over the registry's scopes, ordered widest first.
    fn with_root(registry: Registry<I, F>) -> (r: Self)
        requires
            registry.scopes_data@.len() >= 1,
            entries_in_scopes(registry, registry.scopes_data@),
        ensures
            r.registry_view() == registry,
            sorted_by_priority(r.scopes()),
            r.scopes().to_multiset() == registry.scopes_data@.to_multiset(),
            fresh_chain(r, 0),
    {
        let scopes = crate::scope::sort_by_priority(copy_scopes(&registry.scopes_data));
        proof {
            lemma_same_elements(scopes@, registry.scopes_data@);
            assert forall|id: TypeId| #[trigger] registry.entries@.contains_key(id) implies exists|k: int|
                0 <= k < scopes@.len() && #[trigger] scopes@[k].priority == registry.entries@[id].scope_data.priority by {
                let k = choose|k: int| 0 <= k < registry.scopes_data@.len() && #[trigger] registry.scopes_data@[k].priority == registry.entries@[id].scope_data.priority;
                assert(registry.scopes_data@.contains(registry.scopes_data@[k]));
                let k2 = choose|k2: int| 0 <= k2 < scopes@.len() && scopes@[k2] == registry.scopes_data@[k];
                assert(scopes@[k2].priority == registry.entries@[id].scope_data.priority);
            }
            reveal(scopes_fit);
        }
        let root = root_frame(&scopes);
        let tree = ContainerTree { registry, scopes, frames: vec![Some(root)] };
        proof {
            assert(tree.frames@[0] == Some(root));
            assert(fresh_member(tree, 0));
        }
        tree
    }

    /// A tree whose current container is at the first scope not skipped by default; the
    /// skipped scopes before it get containers of their own, as its ancestors.
    pub fn new(registry: Registry<I, F>) -> (r: (Self, usize))
        requires
            registry.scopes_data@.len() >= 2,
            exists|k: int| 0 <= k < registry.scopes_data@.len() && !(#[trigger] registry.scopes_data@[k]).is_skipped_by_default,
            entries_in_scopes(registry, registry.scopes_data@),
        ensures
            r.0.registry_view() == registry,
            sorted_by_priority(r.0.scopes()),
            r.0.scopes().to_multiset() == registry.scopes_data@.to_multiset(),
            r.1 == first_unskipped_from(r.0.scopes(), 0),
            fresh_chain(r.0, r.1 as int),
    {
        let mut tree = ContainerTree::with_root(registry);
        let ghost scopes = tree.scopes();
        proof {
            lemma_same_elements(scopes, registry.scopes_data@);
            let k = choose|k: int| 0 <= k < registry.scopes_data@.len() && !(#[trigger] registry.scopes_data@[k]).is_skipped_by_default;
            assert(registry.scopes_data@.contains(registry.scopes_data@[k]));
            lemma_first_unskipped(scopes, 0);
            let k2 = choose|k2: int| 0 <= k2 < scopes.len() && scopes[k2] == registry.scopes_data@[k];
            assert(first_unskipped_from(scopes, 0) <= k2);
        }
        let mut cur: usize = 0;
        while tree.scopes[cur].is_skipped_by_default
            invariant
                tree.scopes() == scopes,
                tree.registry_view() == registry,
                scopes.to_multiset() == registry.scopes_data@.to_multiset(),
                sorted_by_priority(scopes),
                cur <= first_unskipped_from(scopes, 0) < scopes.len(),
                forall|j: int| 0 <= j < first_unskipped_from(scopes, 0) ==> #[trigger] scopes[j].is_skipped_by_default,
                fresh_chain(tree, cur as int),
            decreases scopes.len() - cur,
        {
            proof {
                assert(fresh_member(tree, cur));
                assert(tree.live(cur));
                assert(tree.scopes@[cur as int] == scopes[cur as int]);
                lemma_first_unskipped(scopes, 0);
            }
            let ghost before = tree;
            let next = tree.push_child(cur, None, true);
            proof {
                assert(next == cur + 1);
                assert(fresh_member(before, cur));
                assert forall|j: usize| j <= cur + 1 implies #[trigger] fresh_member(tree, j) by {
                    if j <= cur {
                        assert(fresh_member(before, j));
                        assert(tree.frame(j) == before.frame(j));
                    } else {
                        assert(tree.frame(j).cache.map@ =~= Map::<TypeId, RcAny>::empty());
                    }
                }
            }
            cur = next;
        }
        (tree, cur)
    }

    /// A tree whose current container is at the first scope with the given priority; the
    /// scopes before it get containers of their own, as its ancestors.
    pub fn new_with_start_scope(registry: Registry<I, F>, priority: u8) -> (r: (Self, usize))
        requires
            registry.scopes_data@.len() >= 1,
            exists|k: int| 0 <= k < registry.scopes_data@.len() && (#[trigger] registry.scopes_data@[k]).priority == priority,
            entries_in_scopes(registry, registry.scopes_data@),
        ensures
            r.0.registry_view() == registry,
            sorted_by_priority(r.0.scopes()),
            r.0.scopes().to_multiset() == registry.scopes_data@.to_multiset(),
            r.1 == first_with_priority_from(r.0.scopes(), 0, priority),
            fresh_chain(r.0, r.1 as int),
    {
        let mut tree = ContainerTree::with_root(registry);
        let ghost scopes = tree.scopes();
        proof {
            lemma_same_elements(scopes, registry.scopes_data@);
            let k = choose|k: int| 0 <= k < registry.scopes_data@.len() && (#[trigger] registry.scopes_data@[k]).priority == priority;
            assert(registry.scopes_data@.contains(registry.scopes_data@[k]));
            lemma_first_with_priority(scopes, 0, priority);
            let k2 = choose|k2: int| 0 <= k2 < scopes.len() && scopes[k2] == registry.scopes_data@[k];
            assert(first_with_priority_from(scopes, 0, priority) <= k2);
        }
        let mut cur: usize = 0;
        while tree.scopes[cur].priority != priority
            invariant
                tree.scopes() == scopes,
                tree.registry_view() == registry,
                scopes.to_multiset() == registry.scopes_data@.to_multiset(),
                sorted_by_priority(scopes),
                cur <= first_with_priority_from(scopes, 0, priority) < scopes.len(),
                forall|j: int| 0 <= j < first_with_priority_from(scopes, 0, priority) ==> #[trigger] scopes[j].priority != priority,
                fresh_chain(tree, cur as int),
            decreases scopes.len() - cur,
        {
            proof {
                assert(fresh_member(tree, cur));
                assert(tree.live(cur));
                assert(tree.scopes@[cur as int] == scopes[cur as int]);
                lemma_first_with_priority(scopes, 0, priority);
            }
            let ghost before = tree;
            let next = tree.push_child(cur, None, true);
            proof {
                assert(next == cur + 1);
                assert(fresh_member(before, cur));
                assert forall|j: usize| j <= cur + 1 implies #[trigger] fresh_member(tree, j) by {
                    if j <= cur {
                        assert(fresh_member(before, j));
                        assert(tree.frame(j) == before.frame(j));
                    } else {
                        assert(tree.frame(j).cache.map@ =~= Map::<TypeId, RcAny>::empty());
                    }
                }
            }
            cur = next;
        }
        (tree, cur)
    }
}

/// Container `j` of a chain built below a container at scope position `d` (whose cache
/// held `base`), starting at container `n0`, with context `ctx`.
pub open spec fn chain_member<I, F>(
    after: ContainerTree<I, F>,
    from: usize,
    n0: int,
    d: int,
    base: Map<TypeId, RcAny>,
    ctx: Map<TypeId, RcAny>,
    j: usize,
) -> bool {
    &&& after.live(j)
    &&& after.frame(j).depth == d + 1 + (j - n0)
    &&& after.frame(j).parent == (if j == n0 { Some(from) } else { Some((j - 1) as usize) })
    &&& after.frame(j).close_parent == (j > n0)
    &&& after.frame(j).cache.map@ == base.union_prefer_right(ctx)
    &&& after.frame(j).cache.resolved.0@ == Seq::<Resolved>::empty()
    &&& after.frame(j).context.map@ == ctx
}

/// `after` is `before` with a chain of new containers below container `from`, down to scope
/// position `target`: the first closes nothing, each later one closes its parent, and each
/// holds the context `ctx` and, cached, the values of `from`'s cache and of `ctx`.
pub open spec fn built_chain<I, F>(
    before: ContainerTree<I, F>,
    after: ContainerTree<I, F>,
    from: usize,
    target: int,
    ctx: Map<TypeId, RcAny>,
) -> bool {
    let n0 = before.frame_count();
    let d = before.frame(from).depth;
    let k = target - d;
    &&& after.frame_count() == n0 + k
    &&& after.scopes() == before.scopes()
    &&& after.registry_view() == before.registry_view()
    &&& forall|j: usize| j < n0 ==> #[trigger] after.live(j) == before.live(j)
    &&& forall|j: usize| j < n0 && before.live(j) ==> #[trigger] after.frame(j) == before.frame(j)
    &&& forall|j: usize|
        n0 <= j < n0 + k ==> #[trigger] chain_member(after, from, n0 as int, d as int, before.frame(from).cache.map@, ctx, j)
}

/// The containers closed by closing container `j` of a chain built below another one: `j`
/// and every container of the chain before it, latest first, and none that existed before.
proof fn lemma_chain_closes_back<I, F>(
    before: ContainerTree<I, F>,
    after: ContainerTree<I, F>,
    from: usize,
    target: int,
    ctx: Map<TypeId, RcAny>,
    j: usize,
)
    requires
        built_chain(before, after, from, target, ctx),
        before.frame_count() <= j < after.frame_count(),
    ensures
        closing_chain(after, j, after.frame(j).close_parent) == Seq::new(
            (j - before.frame_count() + 1) as nat,
            |i: int| (j - i) as usize,
        ),
    decreases j,
{
    let n0 = before.frame_count();
    let d = before.frame(from).depth;
    assert(chain_member(after, from, n0 as int, d as int, before.frame(from).cache.map@, ctx, j));
    if j == n0 {
        assert(closing_chain(after, j, after.frame(j).close_parent) =~= Seq::new(1, |i: int| (j - i) as usize));
    } else {
        let p = (j - 1) as usize;
        assert(chain_member(after, from, n0 as int, d as int, before.frame(from).cache.map@, ctx, p));
        lemma_chain_closes_back(before, after, from, target, ctx, p);
        assert(closing_chain(after, j, after.frame(j).close_parent) =~= Seq::new(
            (j - n0 + 1) as nat,
            |i: int| (j - i) as usize,
        ));
    }
}

/// Closing the child that a build returns closes with it every container built in passing
/// over the scopes between, latest first, and none that existed before: the child of a
/// build over `k` scopes closes `k` containers.
pub proof fn law_child_closes_passing_containers<I, F>(
    before: ContainerTree<I, F>,
    after: ContainerTree<I, F>,
    from: usize,
    target: int,
    ctx: Map<TypeId, RcAny>,
    child: usize,
)
    requires
        built_chain(before, after, from, target, ctx),
        before.live(from),
        before.frame(from).depth < target,
        child + 1 == after.frame_count(),
    ensures
        closing_chain(after, child, after.frame(child).close_parent) == Seq::new(
            (target - before.frame(from).depth) as nat,
            |i: int| (child - i) as usize,
        ),
        forall|j: usize|
            before.frame_count() <= j <= child ==> closing_chain(after, child, after.frame(child).close_parent).contains(j),
        !closing_chain(after, child, after.frame(child).close_parent).contains(from),
{
    let n0 = before.frame_count();
    lemma_chain_closes_back(before, after, from, target, ctx, child);
    let chain = closing_chain(after, child, after.frame(child).close_parent);
    assert forall|j: usize| n0 <= j <= child implies chain.contains(j) by {
        assert(chain[child - j] == j);
    }
    if chain.contains(from) {
        let i = choose|i: int| 0 <= i < chain.len() && chain[i] == from;
        assert(chain[i] == (child - i) as usize);
    }
}

impl<I, F> ContainerTree<I, F> {
    /// Builds containers below `from`, one per scope, down to scope position `target`, all
    /// with the given context or else a copy of `from`'s; returns the last.
    fn push_chain(&mut self, from: usize, target: usize, context: Option<Context>) -> (r: usize)
        requires
            old(self).live(from),
            old(self).frame(from).depth < target < old(self).scopes().len(),
        ensures
            built_chain(
                *old(self),
                *final(self),
                from,
                target as int,
                match context {
                    Some(c) => c.map@,
                    None => old(self).frame(from).context.map@,
                },
            ),
            r == old(self).frame_count() + (target - old(self).frame(from).depth) - 1,
            final(self).live(r),
            final(self).frame(r).depth == target,
            closing_chain(*final(self), r, final(self).frame(r).close_parent) == Seq::new(
                (target - old(self).frame(from).depth) as nat,
                |i: int| (r - i) as usize,
            ),
    {
        let ghost before = *self;
        let ghost n0 = self.frame_count();
        let ghost d = self.frame(from).depth;
        let ctx = match context {
            Some(c) => c,
            None => copy_context(&self.inner(from).context),
        };
        let ghost m = ctx.map@;
        let first = self.push_child(from, Some(copy_context(&ctx)), false);
        proof {
            assert(self.frame(first).cache.map@ == before.frame(from).cache.map@.union_prefer_right(m));
            assert(chain_member(*self, from, n0 as int, d as int, before.frame(from).cache.map@, m, first));
        }
        let mut cur = first;
        while self.inner(cur).depth < target
            invariant
                n0 == before.frame_count(),
                d == before.frame(from).depth,
                before.live(from),
                d < target < before.scopes().len(),
                ctx.map@ == m,
                n0 <= cur,
                cur + 1 == self.frame_count(),
                self.live(cur),
                self.frame(cur).depth == d + 1 + (cur - n0),
                self.frame(cur).depth <= target,
                self.scopes() == before.scopes(),
                self.registry_view() == before.registry_view(),
                forall|j: usize| j < n0 ==> #[trigger] self.live(j) == before.live(j),
                forall|j: usize| j < n0 && before.live(j) ==> #[trigger] self.frame(j) == before.frame(j),
                forall|j: usize|
                    n0 <= j <= cur ==> #[trigger] chain_member(*self, from, n0 as int, d as int, before.frame(from).cache.map@, m, j),
            decreases target - self.frame(cur).depth,
        {
            let ghost prev = *self;
            let next = self.push_child(cur, Some(copy_context(&ctx)), true);
            proof {
                assert(chain_member(prev, from, n0 as int, d as int, before.frame(from).cache.map@, m, cur));
                assert(self.frame(next).cache.map@ =~= before.frame(from).cache.map@.union_prefer_right(m));
                assert forall|j: usize| n0 <= j <= next implies #[trigger] chain_member(*self, from, n0 as int, d as int, before.frame(from).cache.map@, m, j) by {
                    if j <= cur {
                        assert(chain_member(prev, from, n0 as int, d as int, before.frame(from).cache.map@, m, j));
                        assert(prev.live(j));
                        assert(self.frame(j) == prev.frame(j));
                    } else {
                        assert(j == next);
                        assert(chain_member(prev, from, n0 as int, d as int, before.frame(from).cache.map@, m, cur));
                    }
                }
            }
            cur = next;
        }
        proof {
            law_child_closes_passing_containers(before, *self, from, target as int, m, cur);
        }
        cur
    }

    /// The child container at the next narrower scope not skipped by default; skipped
    /// scopes on the way get containers of their own, which close their parents.
    pub fn enter_build(&mut self, container: usize, context: Option<Context>) -> (r: Result<usize, ScopeErrorKind>)
        requires
            old(self).live(container),
        ensures
            ({
                let d = old(self).frame(container).depth;
                let t = first_unskipped_from(old(self).scopes(), d + 1);
                let ctx = match context {
                    Some(c) => c.map@,
                    None => old(self).frame(container).context.map@,
                };
                &&& (d + 1 >= old(self).scopes().len() <==> r == Err::<usize, ScopeErrorKind>(ScopeErrorKind::NoChildRegistries))
                &&& (d + 1 < old(self).scopes().len() && t == old(self).scopes().len() <==> r == Err::<usize, ScopeErrorKind>(
                    ScopeErrorKind::NoNonSkippedRegistries,
                ))
                &&& (d + 1 < old(self).scopes().len() && t < old(self).scopes().len() <==> r is Ok)
                &&& (r is Err ==> *final(self) == *old(self))
                &&& (r matches Ok(id) ==> {
                    &&& built_chain(*old(self), *final(self), container, t, ctx)
                    &&& id == old(self).frame_count() + (t - d) - 1
                    &&& final(self).frame(id).depth == t
                    &&& closing_chain(*final(self), id, final(self).frame(id).close_parent) == Seq::new(
                        (t - d) as nat,
                        |i: int| (id - i) as usize,
                    )
                })
            }),
    {
        proof {
            use_type_invariant(&*self);
        }
        let n = self.scopes.len();
        let d = self.inner(container).depth;
        if d + 1 >= n {
            return Err(ScopeErrorKind::NoChildRegistries);
        }
        let mut t = d + 1;
        while t < n && self.scopes[t].is_skipped_by_default
            invariant
                n == self.scopes@.len(),
                d + 1 <= t <= n,
                first_unskipped_from(self.scopes@, d + 1) == first_unskipped_from(self.scopes@, t as int),
            decreases n - t,
        {
            t = t + 1;
        }
        if t == n {
            return Err(ScopeErrorKind::NoNonSkippedRegistries);
        }
        proof {
            assert(first_unskipped_from(self.scopes@, t as int) == t);
        }
        let r = self.push_chain(container, t, context);
        Ok(r)
    }

    /// The child container at the next narrower scope with the given priority; the scopes
    /// on the way get containers of their own, which close their parents.
    pub fn enter_build_with_scope(&mut self, container: usize, scope: ScopeData, context: Option<Context>) -> (r: Result<usize, ScopeWithErrorKind>)
        requires
            old(self).live(container),
        ensures
            ({
                let d = old(self).frame(container).depth;
                let t = first_with_priority_from(old(self).scopes(), d + 1, scope.priority);
                let ctx = match context {
                    Some(c) => c.map@,
                    None => old(self).frame(container).context.map@,
                };
                &&& (d + 1 >= old(self).scopes().len() <==> r == Err::<usize, ScopeWithErrorKind>(ScopeWithErrorKind::NoChildRegistries))
                &&& (d + 1 < old(self).scopes().len() && t == old(self).scopes().len() <==> r == Err::<usize, ScopeWithErrorKind>(
                    ScopeWithErrorKind::NoChildRegistriesWithScope { name: scope.name, priority: scope.priority },
                ))
                &&& (d + 1 < old(self).scopes().len() && t < old(self).scopes().len() <==> r is Ok)
                &&& (r is Err ==> *final(self) == *old(self))
                &&& (r matches Ok(id) ==> {
                    &&& built_chain(*old(self), *final(self), container, t, ctx)
                    &&& id == old(self).frame_count() + (t - d) - 1
                    &&& final(self).frame(id).depth == t
                    &&& closing_chain(*final(self), id, final(self).frame(id).close_parent) == Seq::new(
                        (t - d) as nat,
                        |i: int| (id - i) as usize,
                    )
                })
            }),
    {
        proof {
            use_type_invariant(&*self);
        }
        let n = self.scopes.len();
        let d = self.inner(container).depth;
        if d + 1 >= n {
            return Err(ScopeWithErrorKind::NoChildRegistries);
        }
        let mut t = d + 1;
        while t < n && self.scopes[t].priority != scope.priority
            invariant
                n == self.scopes@.len(),
                d + 1 <= t <= n,
                first_with_priority_from(self.scopes@, d + 1, scope.priority) == first_with_priority_from(self.scopes@, t as int, scope.priority),
            decreases n - t,
        {
            t = t + 1;
        }
        if t == n {
            return Err(ScopeWithErrorKind::NoChildRegistriesWithScope { name: scope.name, priority: scope.priority });
        }
        proof {
            assert(first_with_priority_from(self.scopes@, t as int, scope.priority) == t);
        }
        let r = self.push_chain(container, t, context);
        Ok(r)
    }
}

/// The container `n` parents up from `c` (stopping at the widest).
pub open spec fn ancestor<I, F>(tree: ContainerTree<I, F>, c: usize, n: nat) -> usize
    decreases n,
{
    if n == 0 {
        c
    } else {
        match tree.frame(c).parent {
            Some(p) => ancestor(tree, p, (n - 1) as nat),
            None => c,
        }
    }
}

/// The last position before `k` whose scope has priority `p`, or -1 when there is none.
pub open spec fn last_with_priority_before(s: Seq<ScopeData>, k: int, p: u8) -> int
    decreases k,
{
    if k <= 0 {
        -1
    } else if s[k - 1].priority == p {
        k - 1
    } else {
        last_with_priority_before(s, k - 1, p)
    }
}

/// `last_with_priority_before` is the greatest position below `k` with priority `p`.
pub proof fn lemma_last_with_priority(s: Seq<ScopeData>, k: int, p: u8)
    requires
        0 <= k,
    ensures
        last_with_priority_before(s, k, p) < k,
        last_with_priority_before(s, k, p) >= 0 ==> s[last_with_priority_before(s, k, p)].priority == p,
        forall|j: int| last_with_priority_before(s, k, p) < j < k ==> #[trigger] s[j].priority != p,
        forall|j: int| 0 <= j < k && #[trigger] s[j].priority == p ==> j <= last_with_priority_before(s, k, p),
    decreases k,
{
    if k > 0 && s[k - 1].priority != p {
        lemma_last_with_priority(s, k - 1, p);
    }
}

/// What resolving `id` in container `c` calls for, for every outcome but the instantiator
/// to call: the cached value, an error, or the container to delegate to.
pub open spec fn resolve_outcome<I, F>(tree: ContainerTree<I, F>, c: usize, type_info: TypeInfo, use_cache: bool) -> Option<ResolveStepSpec> {
    let f = tree.frame(c);
    let id = type_info.id;
    let entries = tree.registry_view().entries@;
    if use_cache && f.cache.map@.contains_key(id) {
        Some(ResolveStepSpec::Cached(f.cache.map@[id]))
    } else if !entries.contains_key(id) {
        Some(ResolveStepSpec::Failed(ResolveErrorKind::NoInstantiator { type_info }))
    } else if entries[id].scope_data.priority < f.scope_data.priority {
        let k = last_with_priority_before(tree.scopes(), f.depth as int, entries[id].scope_data.priority);
        Some(ResolveStepSpec::Delegate(ancestor(tree, c, (f.depth - k) as nat)))
    } else if entries[id].scope_data.priority > f.scope_data.priority {
        Some(ResolveStepSpec::Failed(ResolveErrorKind::NoAccessible {
            expected_scope_data: entries[id].scope_data,
            actual_scope_data: f.scope_data,
        }))
    } else {
        None
    }
}

/// The outcomes of resolving that carry no instantiator.
pub enum ResolveStepSpec {
    Cached(RcAny),
    Failed(ResolveErrorKind),
    Delegate(usize),
}

/// A step, seen without its instantiator.
pub open spec fn step_outcome<I>(step: ResolveStep<I>) -> Option<ResolveStepSpec> {
    match step {
        ResolveStep::Cached(v) => Some(ResolveStepSpec::Cached(v)),
        ResolveStep::Failed(e) => Some(ResolveStepSpec::Failed(e)),
        ResolveStep::Delegate(a) => Some(ResolveStepSpec::Delegate(a)),
        ResolveStep::Instantiate(_) => None,
    }
}

impl<I, F> ContainerTree<I, F> {
    /// Going up `n` parents from a container reaches the container `n` scopes wider.
    pub proof fn lemma_ancestor(&self, c: usize, n: nat)
        requires
            self.wf(),
            self.live(c),
            n <= self.frame(c).depth,
        ensures
            self.live(ancestor(*self, c, n)),
            self.frame(ancestor(*self, c, n)).depth == self.frame(c).depth - n,
        decreases n,
    {
        self.lemma_wf();
        if n > 0 {
            let p = self.frame(c).parent->0;
            self.lemma_ancestor(p, (n - 1) as nat);
        }
    }

    /// What resolving `type_info` in `container` calls for: the cached value (when
    /// `use_cache`), an error, the wider container whose scope the instantiator lives in,
    /// or the instantiator to call here.
    fn resolve_with(&self, container: usize, type_info: &TypeInfo, use_cache: bool) -> (r: ResolveStep<'_, I>)
        requires
            self.live(container),
        ensures
            step_outcome(r) == resolve_outcome(*self, container, *type_info, use_cache),
            r matches ResolveStep::Instantiate(i) ==> *i == self.registry_view().entries@[type_info.id].instantiator,
    {
        proof {
            use_type_invariant(self);
            self.lemma_wf();
        }
        let f = self.inner(container);
        if use_cache {
            match f.cache.get_erased(type_info) {
                Some(v) => return ResolveStep::Cached(v),
                None => {},
            }
        }
        let data = match self.registry.get(type_info) {
            Some(d) => d,
            None => return ResolveStep::Failed(ResolveErrorKind::NoInstantiator { type_info: *type_info }),
        };
        let q = data.scope_data.priority;
        if q < f.scope_data.priority {
            let ghost scopes = self.scopes();
            let ghost d = f.depth;
            let ghost target = last_with_priority_before(scopes, d as int, q);
            proof {
                reveal(scopes_fit);
                lemma_last_with_priority(scopes, d as int, q);
                let k = choose|k: int| 0 <= k < scopes.len() && #[trigger] scopes[k].priority == q;
                if k >= d {
                    assert(scopes[d as int].priority <= scopes[k].priority);
                }
                assert(0 <= target);
            }
            let mut cur = match f.parent {
                Some(p) => p,
                None => vstd::pervasive::unreached(),
            };
            let ghost mut steps: nat = 1;
            proof {
                reveal_with_fuel(ancestor, 2);
                assert(ancestor(*self, container, 1) == cur);
            }
            while self.inner(cur).scope_data.priority != q
                invariant
                    self.wf(),
                    self.live(container),
                    f == self.frame(container),
                    d == f.depth,
                    scopes == self.scopes(),
                    0 <= target < d,
                    1 <= steps <= d - target,
                    cur == ancestor(*self, container, steps),
                    self.live(cur),
                    self.frame(cur).depth == d - steps,
                    target == last_with_priority_before(scopes, d as int, q),
                    scopes[target].priority == q,
                    forall|j: int| target < j < d ==> #[trigger] scopes[j].priority != q,
                decreases d - steps,
            {
                proof {
                    self.lemma_wf();
                    assert(self.frame(cur).scope_data == scopes[d - steps]);
                    assert(d - steps != target);
                }
                let next = match self.inner(cur).parent {
                    Some(p) => p,
                    None => vstd::pervasive::unreached(),
                };
                proof {
                    lemma_ancestor_step(*self, container, steps, cur);
                    steps = steps + 1;
                }
                cur = next;
            }
            proof {
                self.lemma_wf();
                assert(self.frame(cur).scope_data == scopes[d - steps]);
                assert(d - steps == target);
            }
            return ResolveStep::Delegate(cur);
        }
        if q > f.scope_data.priority {
            return ResolveStep::Failed(ResolveErrorKind::NoAccessible {
                expected_scope_data: data.scope_data,
                actual_scope_data: f.scope_data,
            });
        }
        ResolveStep::Instantiate(&data.instantiator)
    }

    /// What getting a cached or shared value of `type_info`'s type from `container` calls
    /// for (see `ResolveStep`).
    pub fn resolve(&self, container: usize, type_info: &TypeInfo) -> (r: ResolveStep<'_, I>)
        requires
            self.live(container),
        ensures
            step_outcome(r) == resolve_outcome(*self, container, *type_info, true),
            r matches ResolveStep::Instantiate(i) ==> *i == self.registry_view().entries@[type_info.id].instantiator,
            self.frame(container).cache.map@.contains_key(type_info.id) ==> r == ResolveStep::<'_, I>::Cached(
                self.frame(container).cache.map@[type_info.id],
            ),
    {
        self.resolve_with(container, type_info, true)
    }

    /// What getting a new instance of `type_info`'s type from `container` calls for: the
    /// cache is not consulted.
    pub fn resolve_transient(&self, container: usize, type_info: &TypeInfo) -> (r: ResolveStep<'_, I>)
        requires
            self.live(container),
        ensures
            step_outcome(r) == resolve_outcome(*self, container, *type_info, false),
            r matches ResolveStep::Instantiate(i) ==> *i == self.registry_view().entries@[type_info.id].instantiator,
    {
        self.resolve_with(container, type_info, false)
    }
}

/// One more step up the parents of a container.
proof fn lemma_ancestor_step<I, F>(tree: ContainerTree<I, F>, c: usize, n: nat, a: usize)
    requires
        a == ancestor(tree, c, n),
    ensures
        ancestor(tree, c, n + 1) == (match tree.frame(a).parent {
            Some(p) => p,
            None => a,
        }),
    decreases n,
{
    reveal_with_fuel(ancestor, 2);
    if n > 0 {
        match tree.frame(c).parent {
            Some(p) => {
                lemma_ancestor_step(tree, p, (n - 1) as nat, a);
            },
            None => {},
        }
    }
}

/// `after` differs from `before` at most in container `c`, which keeps its place among
/// the scopes and its parent.
pub open spec fn same_except<I, F>(before: ContainerTree<I, F>, after: ContainerTree<I, F>, c: usize) -> bool {
    &&& after.frame_count() == before.frame_count()
    &&& after.scopes() == before.scopes()
    &&& after.registry_view() == before.registry_view()
    &&& forall|j: usize| #[trigger] after.live(j) == before.live(j)
    &&& forall|j: usize| j != c && before.live(j) ==> #[trigger] after.frame(j) == before.frame(j)
    &&& after.frame(c).scope_data == before.frame(c).scope_data
    &&& after.frame(c).child_scopes_data == before.frame(c).child_scopes_data
    &&& after.frame(c).parent == before.frame(c).parent
    &&& after.frame(c).close_parent == before.frame(c).close_parent
    &&& after.frame(c).depth == before.frame(c).depth
    &&& after.frame(c).context == before.frame(c).context
}

/// The effect of recording an instance `value` of `type_info`'s type just provided by the
/// instantiator in container `c`: cached when its configuration says so, and kept for
/// finalization when it has a finalizer.
pub open spec fn recorded_instance<I, F>(
    before: ContainerTree<I, F>,
    after: ContainerTree<I, F>,
    c: usize,
    type_info: TypeInfo,
    value: RcAny,
) -> bool {
    let e = before.registry_view().entries@[type_info.id];
    let f = before.frame(c);
    &&& same_except(before, after, c)
    &&& after.frame(c).cache.map@ == (if e.config.cache_provides {
        f.cache.map@.insert(type_info.id, value)
    } else {
        f.cache.map@
    })
    &&& after.frame(c).cache.resolved.0@ == (if e.finalizer is Some {
        f.cache.resolved.0@.push(Resolved { type_info, dependency: value })
    } else {
        f.cache.resolved.0@
    })
}

/// Replacing a container by one with the same place keeps the frames well formed.
proof fn lemma_update_frame_wf(before: Seq<Option<ContainerInner>>, i: int, g: ContainerInner, scopes: Seq<ScopeData>)
    requires
        frames_wf(before, scopes),
        0 <= i < before.len(),
        before[i] is Some,
        g.depth == before[i]->0.depth,
        g.scope_data == before[i]->0.scope_data,
        g.child_scopes_data@ == before[i]->0.child_scopes_data@,
        g.parent == before[i]->0.parent,
    ensures
        frames_wf(before.update(i, Some(g)), scopes),
{
    let frames = before.update(i, Some(g));
    assert forall|j: int| 0 <= j < frames.len() && #[trigger] frames[j] is Some implies {
        let h = frames[j]->0;
        &&& h.depth < scopes.len()
        &&& h.scope_data == scopes[h.depth as int]
        &&& h.child_scopes_data@ == scopes.subrange(h.depth + 1, scopes.len() as int)
        &&& (h.parent is None <==> h.depth == 0)
        &&& (h.parent matches Some(p) ==> {
            &&& p < j
            &&& frames[p as int] is Some
            &&& frames[p as int]->0.depth + 1 == h.depth
        })
    } by {
        assert(before[j] is Some);
        let h = frames[j]->0;
        if let Some(p) = h.parent {
            assert(before[j]->0.parent == Some(p));
            assert(before[p as int] is Some);
        }
    }
}

impl<I, F> ContainerTree<I, F> {
    /// Takes container `c` out to change its cache, then puts it back.
    fn take_frame(&mut self, c: usize) -> (r: (Vec<Option<ContainerInner>>, ContainerInner))
        requires
            old(self).live(c),
        ensures
            r.1 == old(self).frame(c),
            r.0@ == old(self).frames@.update(c as int, None),
            final(self).frames@.len() == 0,
            final(self).scopes == old(self).scopes,
            final(self).registry == old(self).registry,
            frames_wf(old(self).frames@, old(self).scopes@),
            scopes_fit(old(self).registry, old(self).scopes@),
    {
        proof {
            use_type_invariant(&*self);
        }
        let mut frames: Vec<Option<ContainerInner>> = Vec::new();
        std::mem::swap(&mut frames, &mut self.frames);
        let mut slot: Option<ContainerInner> = None;
        frames.set_and_swap(c, &mut slot);
        match slot {
            Some(f) => (frames, f),
            None => vstd::pervasive::unreached(),
        }
    }

    /// Puts back container `c`, taken out by `take_frame`.
    fn put_frame(&mut self, frames: Vec<Option<ContainerInner>>, c: usize, f: ContainerInner, Ghost(before): Ghost<Seq<Option<ContainerInner>>>)
        requires
            old(self).frames@.len() == 0,
            frames_wf(before, old(self).scopes@),
            scopes_fit(old(self).registry, old(self).scopes@),
            0 <= c < before.len(),
            before[c as int] is Some,
            frames@ == before.update(c as int, None),
            f.depth == before[c as int]->0.depth,
            f.scope_data == before[c as int]->0.scope_data,
            f.child_scopes_data@ == before[c as int]->0.child_scopes_data@,
            f.parent == before[c as int]->0.parent,
        ensures
            final(self).frames@ == before.update(c as int, Some(f)),
            final(self).scopes == old(self).scopes,
            final(self).registry == old(self).registry,
    {
        let mut frames = frames;
        frames.set(c, Some(f));
        proof {
            lemma_update_frame_wf(before, c as int, f, self.scopes@);
            assert(frames@ =~= before.update(c as int, Some(f)));
        }
        self.frames = frames;
    }

    /// Records an instance just provided by the instantiator of `type_info`'s type in
    /// `container`: it is cached when the instantiator's configuration says so, and kept
    /// for finalization when its type has a finalizer.
    pub fn record_instance(&mut self, container: usize, type_info: TypeInfo, value: RcAny)
        requires
            old(self).live(container),
            old(self).registry_view().entries@.contains_key(type_info.id),
        ensures
            recorded_instance(*old(self), *final(self), container, type_info, value),
    {
        let ghost before = self.frames@;
        let (frames, mut f) = self.take_frame(container);
        let data = match self.registry.get(&type_info) {
            Some(d) => d,
            None => vstd::pervasive::unreached(),
        };
        if data.config.cache_provides {
            f.cache.insert_erased(type_info, value.share());
        }
        if data.finalizer.is_some() {
            f.cache.push_resolved(Resolved { type_info, dependency: value });
        }
        self.put_frame(frames, container, f, Ghost(before));
        proof {
            assert forall|j: usize| j != container && old(self).live(j) implies #[trigger] self.frame(j) == old(self).frame(j) by {
                assert(self.frames@[j as int] == before[j as int]);
            }
            assert forall|j: usize| #[trigger] self.live(j) == old(self).live(j) by {
                if j < before.len() && j != container {
                    assert(self.frames@[j as int] == before[j as int]);
                }
            }
        }
    }

    /// Caches in `container` a value resolved in a wider container.
    pub fn cache_from_ancestor(&mut self, container: usize, type_info: TypeInfo, value: RcAny)
        requires
            old(self).live(container),
        ensures
            same_except(*old(self), *final(self), container),
            final(self).frame(container).cache.map@ == old(self).frame(container).cache.map@.insert(type_info.id, value),
            final(self).frame(container).cache.resolved == old(self).frame(container).cache.resolved,
    {
        let ghost before = self.frames@;
        let (frames, mut f) = self.take_frame(container);
        f.cache.insert_erased(type_info, value);
        self.put_frame(frames, container, f, Ghost(before));
        proof {
            assert forall|j: usize| j != container && old(self).live(j) implies #[trigger] self.frame(j) == old(self).frame(j) by {
                assert(self.frames@[j as int] == before[j as int]);
            }
            assert forall|j: usize| #[trigger] self.live(j) == old(self).live(j) by {
                if j < before.len() && j != container {
                    assert(self.frames@[j as int] == before[j as int]);
                }
            }
        }
    }
}

/// The containers closed by closing `c` with the given flag for its parent: `c`, then,
/// when the flag is set, its parent and what closing the parent closes.
pub open spec fn closing_chain<I, F>(tree: ContainerTree<I, F>, c: usize, close_parent: bool) -> Seq<usize>
    decreases c,
{
    match tree.frame(c).parent {
        Some(p) => if close_parent && p < c {
            seq![c] + closing_chain(tree, p, tree.frame(p).close_parent)
        } else {
            seq![c]
        },
        None => seq![c],
    }
}

/// The resolved values that closing `c` with the given flag finalizes, in order: the
/// latest resolved first, container by container along the closing chain.
pub open spec fn finalization_order<I, F>(tree: ContainerTree<I, F>, c: usize, close_parent: bool) -> Seq<Resolved>
    decreases c,
{
    let own = tree.frame(c).cache.resolved.0@.reverse();
    match tree.frame(c).parent {
        Some(p) => if close_parent && p < c {
            own + finalization_order(tree, p, tree.frame(p).close_parent)
        } else {
            own
        },
        None => own,
    }
}

/// Container `j` has been closed: its cache holds exactly its context's values, nothing
/// awaits finalization, and all else is as before.
pub open spec fn closed_frame<I, F>(before: ContainerTree<I, F>, after: ContainerTree<I, F>, j: usize) -> bool {
    &&& after.live(j)
    &&& after.frame(j).cache.map@ == before.frame(j).context.map@
    &&& after.frame(j).cache.resolved.0@ == Seq::<Resolved>::empty()
    &&& after.frame(j).context == before.frame(j).context
    &&& after.frame(j).scope_data == before.frame(j).scope_data
    &&& after.frame(j).child_scopes_data == before.frame(j).child_scopes_data
    &&& after.frame(j).parent == before.frame(j).parent
    &&& after.frame(j).close_parent == before.frame(j).close_parent
    &&& after.frame(j).depth == before.frame(j).depth
}

/// `after` is `before` once container `c` has been closed with the given flag for its
/// parent: the containers of the closing chain are closed, all others are unchanged.
pub open spec fn closed_by<I, F>(before: ContainerTree<I, F>, after: ContainerTree<I, F>, c: usize, close_parent: bool) -> bool {
    &&& after.frame_count() == before.frame_count()
    &&& after.scopes() == before.scopes()
    &&& after.registry_view() == before.registry_view()
    &&& forall|j: usize| #[trigger] after.live(j) == before.live(j)
    &&& forall|j: usize|
        before.live(j) ==> (if closing_chain(before, c, close_parent).contains(j) {
            closed_frame(before, after, j)
        } else {
            #[trigger] after.frame(j) == before.frame(j)
        })
}

/// The containers of a closing chain are no later than its first.
proof fn lemma_chain_below<I, F>(tree: ContainerTree<I, F>, c: usize, flag: bool)
    ensures
        closing_chain(tree, c, flag).len() >= 1,
        closing_chain(tree, c, flag)[0] == c,
        forall|k: int| 0 <= k < closing_chain(tree, c, flag).len() ==> #[trigger] closing_chain(tree, c, flag)[k] <= c,
    decreases c,
{
    match tree.frame(c).parent {
        Some(p) => if flag && p < c {
            lemma_chain_below(tree, p, tree.frame(p).close_parent);
            let rest = closing_chain(tree, p, tree.frame(p).close_parent);
            assert forall|k: int| 0 <= k < closing_chain(tree, c, flag).len() implies #[trigger] closing_chain(tree, c, flag)[k] <= c by {
                if k > 0 {
                    assert(closing_chain(tree, c, flag)[k] == rest[k - 1]);
                }
            }
        },
        None => {},
    }
}


/// Every container of a closing chain from a container is a container of the tree.
proof fn lemma_chain_live<I, F>(tree: ContainerTree<I, F>, c: usize, flag: bool)
    requires
        tree.wf(),
        tree.live(c),
    ensures
        forall|j: usize| #[trigger] closing_chain(tree, c, flag).contains(j) ==> tree.live(j),
    decreases c,
{
    tree.lemma_wf();
    lemma_chain_below(tree, c, flag);
    match tree.frame(c).parent {
        Some(p) => if flag && p < c {
            let fp = tree.frame(p).close_parent;
            let rest = closing_chain(tree, p, fp);
            lemma_chain_live(tree, p, fp);
            assert forall|j: usize| #[trigger] closing_chain(tree, c, flag).contains(j) implies tree.live(j) by {
                let k = choose|k: int| 0 <= k < closing_chain(tree, c, flag).len() && closing_chain(tree, c, flag)[k] == j;
                if k > 0 {
                    assert(rest[k - 1] == j);
                    assert(rest.contains(j));
                }
            }
        } else {
        },
        None => {},
    }
}

/// When every container of a closing chain has been closed, closing along that chain
/// finalizes nothing.
proof fn lemma_closed_chain_finalizes_nothing<I, F>(before: ContainerTree<I, F>, after: ContainerTree<I, F>, c: usize, flag: bool)
    requires
        forall|j: usize| #[trigger] closing_chain(before, c, flag).contains(j) ==> closed_frame(before, after, j),
    ensures
        closing_chain(after, c, flag) == closing_chain(before, c, flag),
        finalization_order(after, c, flag) == Seq::<Resolved>::empty(),
    decreases c,
{
    lemma_chain_below(before, c, flag);
    assert(closing_chain(before, c, flag).contains(c)) by {
        assert(closing_chain(before, c, flag)[0] == c);
    }
    assert(closed_frame(before, after, c));
    assert(after.frame(c).cache.resolved.0@.reverse() =~= Seq::<Resolved>::empty());
    match before.frame(c).parent {
        Some(p) => if flag && p < c {
            let fp = before.frame(p).close_parent;
            let rest = closing_chain(before, p, fp);
            lemma_chain_below(before, p, fp);
            assert forall|j: usize| #[trigger] rest.contains(j) implies closed_frame(before, after, j) by {
                let k = choose|k: int| 0 <= k < rest.len() && rest[k] == j;
                assert(closing_chain(before, c, flag)[k + 1] == j);
                assert(closing_chain(before, c, flag).contains(j));
            }
            assert(rest.contains(p)) by {
                assert(rest[0] == p);
            }
            lemma_closed_chain_finalizes_nothing(before, after, p, fp);
            assert(finalization_order(after, c, flag) =~= Seq::<Resolved>::empty());
        } else {
        },
        None => {},
    }
}

/// Closing a container twice in a row finalizes nothing the second time: the first close
/// empties every container it closes, and the second would close the same ones.
pub proof fn law_close_again_finalizes_nothing<I, F>(
    before: ContainerTree<I, F>,
    after: ContainerTree<I, F>,
    c: usize,
    close_parent: bool,
)
    requires
        before.wf(),
        before.live(c),
        closed_by(before, after, c, close_parent),
    ensures
        closing_chain(after, c, close_parent) == closing_chain(before, c, close_parent),
        finalization_order(after, c, close_parent) == Seq::<Resolved>::empty(),
{
    lemma_chain_live(before, c, close_parent);
    lemma_closed_chain_finalizes_nothing(before, after, c, close_parent);
}

/// Recording an instance whose instantiator caches what it provides makes the next
/// resolution of its type in that container return that very instance from the cache.
pub proof fn law_resolve_after_record<I, F>(
    before: ContainerTree<I, F>,
    after: ContainerTree<I, F>,
    c: usize,
    type_info: TypeInfo,
    value: RcAny,
)
    requires
        before.live(c),
        before.registry_view().entries@.contains_key(type_info.id),
        before.registry_view().entries@[type_info.id].config.cache_provides,
        recorded_instance(before, after, c, type_info, value),
    ensures
        resolve_outcome(after, c, type_info, true) == Some(ResolveStepSpec::Cached(value)),
{
}

/// A transient resolution never answers from the cache.
pub proof fn law_transient_never_cached<I, F>(tree: ContainerTree<I, F>, c: usize, type_info: TypeInfo)
    ensures
        !(resolve_outcome(tree, c, type_info, false) matches Some(ResolveStepSpec::Cached(_))),
{
}

/// A type whose instantiator lives in a wider scope is delegated to a wider container of
/// the tree that has exactly that scope's priority.
pub proof fn law_delegate_reaches_scope<I, F>(tree: ContainerTree<I, F>, c: usize, type_info: TypeInfo)
    requires
        tree.wf(),
        tree.live(c),
    ensures
        forall|use_cache: bool|
            #[trigger] resolve_outcome(tree, c, type_info, use_cache) matches Some(ResolveStepSpec::Delegate(a)) ==> {
                &&& tree.live(a)
                &&& tree.frame(a).depth < tree.frame(c).depth
                &&& tree.frame(a).scope_data.priority == tree.registry_view().entries@[type_info.id].scope_data.priority
            },
{
    tree.lemma_wf();
    let f = tree.frame(c);
    let entries = tree.registry_view().entries@;
    let id = type_info.id;
    if entries.contains_key(id) && entries[id].scope_data.priority < f.scope_data.priority {
        let q = entries[id].scope_data.priority;
        let scopes = tree.scopes();
        lemma_last_with_priority(scopes, f.depth as int, q);
        let k = choose|k: int| 0 <= k < scopes.len() && #[trigger] scopes[k].priority == q;
        if k >= f.depth {
            assert(scopes[f.depth as int].priority <= scopes[k].priority);
        }
        let t = last_with_priority_before(scopes, f.depth as int, q);
        assert(0 <= t < f.depth);
        tree.lemma_ancestor(c, (f.depth - t) as nat);
        let a = ancestor(tree, c, (f.depth - t) as nat);
        assert(tree.frame(a).scope_data == scopes[tree.frame(a).depth as int]);
    }
}

impl<I, F> ContainerTree<I, F> {
    /// Closes `container`: hands out its resolved values for finalization, latest first, and
    /// resets its cache to its context's values; with `close_parent`, then closes its parent
    /// the same way (by the parent's own flag), and so on.
    pub fn close_with_parent_flag(&mut self, container: usize, close_parent: bool) -> (r: Vec<Resolved>)
        requires
            old(self).live(container),
        ensures
            r@ == finalization_order(*old(self), container, close_parent),
            closed_by(*old(self), *final(self), container, close_parent),
    {
        let ghost before = *self;
        let mut out: Vec<Resolved> = Vec::new();
        let mut cur = container;
        let mut flag = close_parent;
        let mut going = true;
        proof {
            use_type_invariant(&*self);
            self.lemma_wf();
            lemma_chain_below(before, container, close_parent);
            assert(out@ + finalization_order(before, cur, flag) =~= finalization_order(before, container, close_parent));
        }
        while going
            invariant
                before.wf(),
                before.live(container),
                going ==> before.live(cur),
                self.frame_count() == before.frame_count(),
                self.scopes() == before.scopes(),
                self.registry_view() == before.registry_view(),
                forall|j: usize| #[trigger] self.live(j) == before.live(j),
                going ==> out@ + finalization_order(before, cur, flag) == finalization_order(before, container, close_parent),
                !going ==> out@ == finalization_order(before, container, close_parent),
                going ==> forall|k: int| 0 <= k < closing_chain(before, cur, flag).len() ==> #[trigger] closing_chain(before, cur, flag)[k] <= cur,
                forall|j: usize|
                    before.live(j) ==> (if closing_chain(before, container, close_parent).contains(j) && !(going
                        && closing_chain(before, cur, flag).contains(j)) {
                        closed_frame(before, *self, j)
                    } else {
                        #[trigger] self.frame(j) == before.frame(j)
                    }),
                going ==> (forall|j: usize| #[trigger] closing_chain(before, cur, flag).contains(j) ==> closing_chain(before, container, close_parent).contains(j)),
            decreases cur + (if going { 1int } else { 0int }),
        {
            let ghost step_before = *self;
            proof {
                assert(self.frame(cur) == before.frame(cur)) by {
                    lemma_chain_below(before, cur, flag);
                    assert(closing_chain(before, cur, flag)[0] == cur);
                }
            }
            let ghost frames_before = self.frames@;
            proof {
                assert(self.live(cur));
                assert(frames_before[cur as int] is Some);
            }
            let (frames, mut f) = self.take_frame(cur);
            let mut set = f.cache.take_resolved_set();
            let ghost orig = set.0@;
            let ghost out0 = out@;
            while set.0.len() > 0
                invariant
                    out@ + set.0@.reverse() == out0 + orig.reverse(),
                decreases set.0@.len(),
            {
                let ghost s0 = set.0@;
                match set.0.pop() {
                    Some(x) => {
                        out.push(x);
                        proof {
                            assert(s0.reverse() =~= seq![x] + set.0@.reverse());
                            assert(out@ + set.0@.reverse() =~= out0 + orig.reverse());
                        }
                    },
                    None => {},
                }
            }
            proof {
                assert(set.0@.reverse() =~= Seq::<Resolved>::empty());
                assert(out@ =~= out0 + orig.reverse());
            }
            f.cache.map = f.context.map.duplicate();
            let next = if flag { f.parent } else { None };
            let ghost fg = f;
            self.put_frame(frames, cur, f, Ghost(frames_before));
            proof {
                lemma_chain_below(before, cur, flag);
                assert(closed_frame(before, *self, cur));
                assert forall|j: usize| j != cur && step_before.live(j) implies #[trigger] self.frame(j) == step_before.frame(j) by {
                    assert(self.frames@[j as int] == frames_before[j as int]);
                }
                assert forall|j: usize| #[trigger] self.live(j) == step_before.live(j) by {
                    if j < frames_before.len() && j != cur {
                        assert(self.frames@[j as int] == frames_before[j as int]);
                    }
                }
            }
            match next {
                Some(p) => {
                    proof {
                        assert(before.frame(cur).parent == Some(p));
                        assert(p < cur);
                        assert(closing_chain(before, cur, flag) == seq![cur] + closing_chain(before, p, before.frame(p).close_parent));
                        assert(finalization_order(before, cur, flag) == orig.reverse() + finalization_order(before, p, before.frame(p).close_parent));
                        assert(out@ + finalization_order(before, p, before.frame(p).close_parent) =~= finalization_order(before, container, close_parent));
                        lemma_chain_below(before, p, before.frame(p).close_parent);
                        let pc = closing_chain(before, p, before.frame(p).close_parent);
                        assert forall|j: usize| #[trigger] pc.contains(j) implies closing_chain(before, container, close_parent).contains(j) by {
                            let k = choose|k: int| 0 <= k < pc.len() && pc[k] == j;
                            assert(closing_chain(before, cur, flag)[k + 1] == j);
                            assert(closing_chain(before, cur, flag).contains(j));
                        }
                        assert(!pc.contains(cur)) by {
                            if pc.contains(cur) {
                                let k = choose|k: int| 0 <= k < pc.len() && pc[k] == cur;
                                assert(pc[k] <= p);
                            }
                        }
                        assert forall|j: usize| before.live(j) implies (if closing_chain(before, container, close_parent).contains(j) && !(true
                            && pc.contains(j)) {
                            closed_frame(before, *self, j)
                        } else {
                            #[trigger] self.frame(j) == before.frame(j)
                        }) by {
                            if j == cur {
                            } else {
                                if pc.contains(j) {
                                    assert(closing_chain(before, cur, flag).contains(j)) by {
                                        let k = choose|k: int| 0 <= k < pc.len() && pc[k] == j;
                                        assert(closing_chain(before, cur, flag)[k + 1] == j);
                                    }
                                } else if closing_chain(before, cur, flag).contains(j) {
                                    let k = choose|k: int| 0 <= k < closing_chain(before, cur, flag).len() && closing_chain(before, cur, flag)[k] == j;
                                    if k > 0 {
                                        assert(pc[k - 1] == j);
                                    }
                                }
                            }
                        }
                    }
                    proof {
                        let pc = closing_chain(before, p, before.frame(p).close_parent);
                        assert(pc[0] == p);
                        assert(pc.contains(p));
                        assert(self.frame(p) == before.frame(p));
                        assert(self.live(p));
                    }
                    flag = self.inner(p).close_parent;
                    cur = p;
                },
                None => {
                    proof {
                        assert(closing_chain(before, cur, flag) == seq![cur]);
                        assert(finalization_order(before, cur, flag) == orig.reverse());
                        assert(out@ =~= finalization_order(before, container, close_parent));
                        assert forall|j: usize| before.live(j) implies (if closing_chain(before, container, close_parent).contains(j) && !(false
                            && closing_chain(before, cur, flag).contains(j)) {
                            closed_frame(before, *self, j)
                        } else {
                            #[trigger] self.frame(j) == before.frame(j)
                        }) by {
                            if j != cur && closing_chain(before, cur, flag).contains(j) {
                                let k = choose|k: int| 0 <= k < closing_chain(before, cur, flag).len() && closing_chain(before, cur, flag)[k] == j;
                                assert(k == 0);
                            }
                        }
                    }
                    going = false;
                },
            }
        }
        out
    }

    /// Closes `container` (see `close_with_parent_flag`), closing its parent when it was
    /// built to.
    pub fn close(&mut self, container: usize) -> (r: Vec<Resolved>)
        requires
            old(self).live(container),
        ensures
            r@ == finalization_order(*old(self), container, old(self).frame(container).close_parent),
            closed_by(*old(self), *final(self), container, old(self).frame(container).close_parent),
    {
        let flag = self.inner(container).close_parent;
        self.close_with_parent_flag(container, flag)
    }
}

/// Builds a child container of the next narrower scope not skipped by default.
pub struct ChildContainerBuiler {
    pub container: usize,
}

/// Builds a child container of a given scope.
pub struct ChildContainerWithScope {
    pub container: usize,
    pub scope: ScopeData,
}

/// Builds a child container of the next narrower scope not skipped by default, with a
/// given context.
pub struct ChildContainerWithContext {
    pub container: usize,
    pub context: Context,
}

/// Builds a child container of a given scope, with a given context.
pub struct ChildContainerWithScopeAndContext {
    pub container: usize,
    pub scope: ScopeData,
    pub context: Context,
}

impl<I, F> ContainerTree<I, F> {
    /// Starts building a child of `container`.
    pub fn enter(&self, container: usize) -> (r: ChildContainerBuiler)
        ensures
            r.container == container,
    {
        ChildContainerBuiler { container }
    }
}

impl ChildContainerBuiler {
    pub fn with_scope<S: Scope>(self, scope: S) -> (r: ChildContainerWithScope)
        ensures
            r.container == self.container,
            r.scope == scope_data_of(&scope),
    {
        ChildContainerWithScope { container: self.container, scope: ScopeData::of(&scope) }
    }

    pub fn with_context(self, context: Context) -> (r: ChildContainerWithContext)
        ensures
            r.container == self.container,
            r.context == context,
    {
        ChildContainerWithContext { container: self.container, context }
    }

    /// The child container at the next narrower scope not skipped by default (see
    /// `ContainerTree::enter_build`), sharing `container`'s context.
    pub fn build<I, F>(self, tree: &mut ContainerTree<I, F>) -> (r: Result<usize, ScopeErrorKind>)
        requires
            old(tree).live(self.container),
        ensures
            ({
                let d = old(tree).frame(self.container).depth;
                let t = first_unskipped_from(old(tree).scopes(), d + 1);
                &&& (d + 1 >= old(tree).scopes().len() <==> r == Err::<usize, ScopeErrorKind>(ScopeErrorKind::NoChildRegistries))
                &&& (d + 1 < old(tree).scopes().len() && t == old(tree).scopes().len() <==> r == Err::<usize, ScopeErrorKind>(
                    ScopeErrorKind::NoNonSkippedRegistries,
                ))
                &&& (d + 1 < old(tree).scopes().len() && t < old(tree).scopes().len() <==> r is Ok)
                &&& (r is Err ==> *final(tree) == *old(tree))
                &&& (r matches Ok(id) ==> {
                    &&& built_chain(*old(tree), *final(tree), self.container, t, old(tree).frame(self.container).context.map@)
                    &&& id == old(tree).frame_count() + (t - d) - 1
                    &&& final(tree).frame(id).depth == t
                })
            }),
    {
        tree.enter_build(self.container, None)
    }
}

impl ChildContainerWithScope {
    pub fn with_context(self, context: Context) -> (r: ChildContainerWithScopeAndContext)
        ensures
            r.container == self.container,
            r.scope == self.scope,
            r.context == context,
    {
        ChildContainerWithScopeAndContext { container: self.container, scope: self.scope, context }
    }

    /// The child container at the next narrower scope with the chosen scope's priority
    /// (see `ContainerTree::enter_build_with_scope`), sharing `container`'s context.
    pub fn build<I, F>(self, tree: &mut ContainerTree<I, F>) -> (r: Result<usize, ScopeWithErrorKind>)
        requires
            old(tree).live(self.container),
        ensures
            ({
                let d = old(tree).frame(self.container).depth;
                let t = first_with_priority_from(old(tree).scopes(), d + 1, self.scope.priority);
                &&& (d + 1 >= old(tree).scopes().len() <==> r == Err::<usize, ScopeWithErrorKind>(ScopeWithErrorKind::NoChildRegistries))
                &&& (d + 1 < old(tree).scopes().len() && t == old(tree).scopes().len() <==> r == Err::<usize, ScopeWithErrorKind>(
                    ScopeWithErrorKind::NoChildRegistriesWithScope { name: self.scope.name, priority: self.scope.priority },
                ))
                &&& (d + 1 < old(tree).scopes().len() && t < old(tree).scopes().len() <==> r is Ok)
                &&& (r is Err ==> *final(tree) == *old(tree))
                &&& (r matches Ok(id) ==> {
                    &&& built_chain(*old(tree), *final(tree), self.container, t, old(tree).frame(self.container).context.map@)
                    &&& id == old(tree).frame_count() + (t - d) - 1
                    &&& final(tree).frame(id).depth == t
                })
            }),
    {
        tree.enter_build_with_scope(self.container, self.scope, None)
    }
}

impl ChildContainerWithContext {
    pub fn with_scope<S: Scope>(self, scope: S) -> (r: ChildContainerWithScopeAndContext)
        ensures
            r.container == self.container,
            r.scope == scope_data_of(&scope),
            r.context == self.context,
    {
        ChildContainerWithScopeAndContext { container: self.container, scope: ScopeData::of(&scope), context: self.context }
    }

    /// The child container at the next narrower scope not skipped by default (see
    /// `ContainerTree::enter_build`), with the given context.
    pub fn build<I, F>(self, tree: &mut ContainerTree<I, F>) -> (r: Result<usize, ScopeErrorKind>)
        requires
            old(tree).live(self.container),
        ensures
            ({
                let d = old(tree).frame(self.container).depth;
                let t = first_unskipped_from(old(tree).scopes(), d + 1);
                &&& (d + 1 >= old(tree).scopes().len() <==> r == Err::<usize, ScopeErrorKind>(ScopeErrorKind::NoChildRegistries))
                &&& (d + 1 < old(tree).scopes().len() && t == old(tree).scopes().len() <==> r == Err::<usize, ScopeErrorKind>(
                    ScopeErrorKind::NoNonSkippedRegistries,
                ))
                &&& (d + 1 < old(tree).scopes().len() && t < old(tree).scopes().len() <==> r is Ok)
                &&& (r is Err ==> *final(tree) == *old(tree))
                &&& (r matches Ok(id) ==> {
                    &&& built_chain(*old(tree), *final(tree), self.container, t, self.context.map@)
                    &&& id == old(tree).frame_count() + (t - d) - 1
                    &&& final(tree).frame(id).depth == t
                })
            }),
    {
        tree.enter_build(self.container, Some(self.context))
    }
}

impl ChildContainerWithScopeAndContext {
    /// The child container at the next narrower scope with the chosen scope's priority
    /// (see `ContainerTree::enter_build_with_scope`), with the given context.
    pub fn build<I, F>(self, tree: &mut ContainerTree<I, F>) -> (r: Result<usize, ScopeWithErrorKind>)
        requires
            old(tree).live(self.container),
        ensures
            ({
                let d = old(tree).frame(self.container).depth;
                let t = first_with_priority_from(old(tree).scopes(), d + 1, self.scope.priority);
                &&& (d + 1 >= old(tree).scopes().len() <==> r == Err::<usize, ScopeWithErrorKind>(ScopeWithErrorKind::NoChildRegistries))
                &&& (d + 1 < old(tree).scopes().len() && t == old(tree).scopes().len() <==> r == Err::<usize, ScopeWithErrorKind>(
                    ScopeWithErrorKind::NoChildRegistriesWithScope { name: self.scope.name, priority: self.scope.priority },
                ))
                &&& (d + 1 < old(tree).scopes().len() && t < old(tree).scopes().len() <==> r is Ok)
                &&& (r is Err ==> *final(tree) == *old(tree))
                &&& (r matches Ok(id) ==> {
                    &&& built_chain(*old(tree), *final(tree), self.container, t, self.context.map@)
                    &&& id == old(tree).frame_count() + (t - d) - 1
                    &&& final(tree).frame(id).depth == t
                })
            }),
    {
        tree.enter_build_with_scope(self.container, self.scope, Some(self.context))
    }
}

} // verus!
