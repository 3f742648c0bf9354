use std::any::TypeId;
use vstd::prelude::*;

use crate::any::TypeInfo;
use crate::config::Config;
use crate::dependency::Dependency;
use crate::errors::ValidationErrorKind;
use crate::scope::{copy_scopes, default_scopes_data, sorted_by_priority, DefaultScope, ScopeData, ScopeDataWithChildScopesData};
use crate::type_map::TypeMap;

verus! {

/// How one type is provided: its instantiator, the types it depends on, its optional
/// finalizer, its configuration and the scope it lives in.
pub struct InstantiatorData<I, F> {
    pub instantiator: I,
    pub dependencies: Vec<Dependency>,
    pub finalizer: Option<F>,
    pub config: Config,
    pub scope_data: ScopeData,
}

/// The instantiators of a container, by provided type, and the scopes it lives through.
pub struct Registry<I, F> {
    pub entries: TypeMap<InstantiatorData<I, F>>,
    pub scopes_data: Vec<ScopeData>,
}

/// The identifiers of the types an instantiator depends on.
pub open spec fn dependency_ids<I, F>(data: InstantiatorData<I, F>) -> Seq<TypeId> {
    data.dependencies@.map_values(|d: Dependency| d.type_info.id)
}

/// The identifiers of a sequence of type information.
pub open spec fn info_ids(s: Seq<TypeInfo>) -> Seq<TypeId> {
    s.map_values(|t: TypeInfo| t.id)
}

impl<I, F> Registry<I, F> {
    /// `u` depends on `v`, and both have an instantiator.
    pub open spec fn edge(&self, u: TypeId, v: TypeId) -> bool {
        &&& self.entries@.contains_key(u)
        &&& self.entries@.contains_key(v)
        &&& dependency_ids(self.entries@[u]).contains(v)
    }

    /// A non-empty walk along dependencies between registered types.
    pub open spec fn is_path(&self, p: Seq<TypeId>) -> bool {
        &&& p.len() >= 1
        &&& forall|k: int| 0 <= k < p.len() ==> self.entries@.contains_key(#[trigger] p[k])
        &&& forall|k: int| 0 <= k < p.len() - 1 ==> self.edge(#[trigger] p[k], p[k + 1])
    }

    /// Some registered type depends, directly or through others, on itself.
    pub open spec fn has_cycle(&self) -> bool {
        exists|p: Seq<TypeId>| #[trigger] self.is_path(p) && p.len() >= 2 && p[0] == p[p.len() - 1]
    }

    /// The report of a cycle: a walk along dependencies whose last type depends on one of
    /// the walk's types.
    pub open spec fn reports_cycle(&self, first: TypeInfo, rest: Seq<TypeInfo>) -> bool {
        let walk = info_ids(seq![first] + rest);
        &&& self.is_path(walk)
        &&& exists|j: int| 0 <= j < walk.len() && self.edge(walk[walk.len() - 1], #[trigger] walk[j])
    }

    /// The names in a walk are those the registry holds: the first type's as it was
    /// registered, each next type's as the type before it lists it among its dependencies.
    pub open spec fn walk_names(&self, s: Seq<TypeInfo>) -> bool {
        &&& s.len() > 0 ==> s[0] == self.entries.key_infos()[s[0].id]
        &&& forall|k: int|
            1 <= k < s.len() ==> self.entries@[s[k - 1].id].dependencies@.contains(Dependency { type_info: #[trigger] s[k] })
    }

    /// Visited types: distinct, registered, and each depending only on types visited
    /// before it.
    pub open spec fn finished_in_order(&self, visited: Seq<TypeId>) -> bool {
        &&& visited.no_duplicates()
        &&& forall|a: int| 0 <= a < visited.len() ==> self.entries@.contains_key(#[trigger] visited[a])
        &&& forall|a: int, v: TypeId|
            0 <= a < visited.len() && #[trigger] self.edge(visited[a], v) ==> exists|b: int|
                0 <= b < a && #[trigger] visited[b] == v
    }

    /// The state of a depth-first search: the finished types, and the walk being explored,
    /// disjoint from them.
    pub open spec fn search_state(&self, visited: Seq<TypeId>, stack: Seq<TypeId>) -> bool {
        &&& self.finished_in_order(visited)
        &&& (visited + stack).no_duplicates()
        &&& (stack.len() > 0 ==> self.is_path(stack))
        &&& forall|k: int| 0 <= k < stack.len() ==> self.entries@.contains_key(#[trigger] stack[k])
    }

    /// A walk has a smaller finishing position at each step, so its last type finished
    /// before its first.
    proof fn lemma_walk_descends(&self, visited: Seq<TypeId>, p: Seq<TypeId>, k: int)
        requires
            self.finished_in_order(visited),
            self.is_path(p),
            forall|j: int| 0 <= j < p.len() ==> visited.contains(#[trigger] p[j]),
            0 <= k < p.len(),
        ensures
            visited.index_of(p[k]) <= visited.index_of(p[0]),
            k > 0 ==> visited.index_of(p[k]) < visited.index_of(p[0]),
        decreases k,
    {
        if k > 0 {
            self.lemma_walk_descends(visited, p, k - 1);
            assert(self.edge(p[k - 1], p[k]));
            assert(visited.contains(p[k - 1]));
            let a = visited.index_of(p[k - 1]);
            assert(visited[a] == p[k - 1]);
            let b = choose|b: int| 0 <= b < a && visited[b] == p[k];
            assert(visited.contains(p[k]));
            let c = visited.index_of(p[k]);
            assert(visited[c] == p[k]);
            assert(b == c);
        }
    }

    /// When every registered type has finished in order, no type depends on itself.
    pub proof fn lemma_finished_means_acyclic(&self, visited: Seq<TypeId>)
        requires
            self.finished_in_order(visited),
            forall|id: TypeId| #[trigger] self.entries@.contains_key(id) ==> visited.contains(id),
        ensures
            !self.has_cycle(),
    {
        if self.has_cycle() {
            let p = choose|p: Seq<TypeId>| #[trigger] self.is_path(p) && p.len() >= 2 && p[0] == p[p.len() - 1];
            assert forall|j: int| 0 <= j < p.len() implies visited.contains(#[trigger] p[j]) by {
                assert(self.entries@.contains_key(p[j]));
            }
            self.lemma_walk_descends(visited, p, p.len() - 1);
        }
    }

    /// A reported cycle is a cycle.
    pub proof fn lemma_report_is_cycle(&self, first: TypeInfo, rest: Seq<TypeInfo>)
        requires
            self.reports_cycle(first, rest),
        ensures
            self.has_cycle(),
    {
        let walk = info_ids(seq![first] + rest);
        let j = choose|j: int| 0 <= j < walk.len() && self.edge(walk[walk.len() - 1], #[trigger] walk[j]);
        let p = walk.subrange(j, walk.len() as int).push(walk[j]);
        assert(self.is_path(p)) by {
            assert forall|k: int| 0 <= k < p.len() - 1 implies self.edge(#[trigger] p[k], p[k + 1]) by {
                if k < p.len() - 2 {
                    assert(p[k] == walk[j + k]);
                    assert(p[k + 1] == walk[j + k + 1]);
                } else {
                    assert(p[k] == walk[walk.len() - 1]);
                }
            }
            assert forall|k: int| 0 <= k < p.len() implies self.entries@.contains_key(#[trigger] p[k]) by {
                if k < p.len() - 1 {
                    assert(p[k] == walk[j + k]);
                }
            }
        }
        assert(p[0] == p[p.len() - 1]);
    }

    /// The instantiator data for `type_info`'s type.
    pub fn get(&self, type_info: &TypeInfo) -> (r: Option<&InstantiatorData<I, F>>)
        ensures
            r is Some <==> self.entries@.contains_key(type_info.id),
            r matches Some(d) ==> *d == self.entries@[type_info.id],
    {
        self.entries.get(type_info)
    }

    /// The registry's scopes ordered by priority: the widest as the scope, the others as
    /// its children.
    pub fn get_scope_with_child_scopes(&self) -> (r: ScopeDataWithChildScopesData)
        ensures
            ({
                let all = if r.scope_data is Some {
                    seq![r.scope_data->0] + r.child_scopes_data@
                } else {
                    r.child_scopes_data@
                };
                &&& sorted_by_priority(all)
                &&& all.to_multiset() == self.scopes_data@.to_multiset()
            }),
            r.scope_data is None <==> self.scopes_data@.len() == 0,
            r.scope_data is None ==> r.child_scopes_data@.len() == 0,
    {
        ScopeDataWithChildScopesData::new_with_sort(copy_scopes(&self.scopes_data))
    }

    /// Checks that no registered type depends on itself, directly or through other
    /// registered types; dependencies without an instantiator are not followed.
    pub fn dfs_detect(&self) -> (r: Result<(), ValidationErrorKind>)
        ensures
            r is Ok <==> !self.has_cycle(),
            r matches Err(e) ==> e matches ValidationErrorKind::CyclicDependency { graph } && self.reports_cycle(
                graph.0,
                graph.1@,
            ) && info_ids(seq![graph.0] + graph.1@).no_duplicates() && self.walk_names(seq![graph.0] + graph.1@),
    {
        let mut visited: Vec<TypeInfo> = Vec::new();
        let mut stack: Vec<TypeInfo> = Vec::new();
        proof {
            use_type_invariant(&self.entries);
            self.entries.lemma_entries();
            assert(info_ids(visited@) + info_ids(stack@) =~= Seq::<TypeId>::empty());
        }
        let n = self.entries.len();
        let mut i: usize = 0;
        while i < n
            invariant
                n == self.entries.entry_seq().len(),
                i <= n,
                self.entries.wf(),
                stack@.len() == 0,
                self.search_state(info_ids(visited@), info_ids(stack@)),
                forall|j: int| 0 <= j < i ==> info_ids(visited@).contains(#[trigger] self.entries.entry_seq()[j].0.id),
            decreases n - i,
        {
            proof {
                self.entries.lemma_entries();
            }
            let entry = self.entries.entry(i);
            let ghost before = info_ids(visited@);
            if self.dfs_visit(&entry.0, &entry.1.dependencies, &mut visited, &mut stack) {
                proof {
                    assert(stack@ =~= seq![stack@[0]] + stack@.subrange(1, stack@.len() as int));
                }
                let ghost full = stack@;
                let first = stack.remove(0);
                proof {
                    assert(seq![first] + stack@ =~= full);
                }
                let r = Err(ValidationErrorKind::CyclicDependency { graph: (first, stack) });
                proof {
                    self.lemma_report_is_cycle(first, stack@);
                }
                return r;
            }
            proof {
                assert forall|j: int| 0 <= j < i + 1 implies info_ids(visited@).contains(#[trigger] self.entries.entry_seq()[j].0.id) by {
                    if j < i {
                        let k = choose|k: int| 0 <= k < before.len() && before[k] == self.entries.entry_seq()[j].0.id;
                        assert(info_ids(visited@)[k] == before[k]);
                    }
                }
            }
            i = i + 1;
        }
        proof {
            self.entries.lemma_entries();
            assert forall|id: TypeId| #[trigger] self.entries@.contains_key(id) implies info_ids(visited@).contains(id) by {
                let p = self.entries.position(id);
                assert(self.entries.entry_seq()[p].0.id == id);
            }
            self.lemma_finished_means_acyclic(info_ids(visited@));
        }
        Ok(())
    }

    /// Explores the types reachable from `type_info` (whose dependencies are
    /// `dependencies`), extending `visited` with each type once all it depends on is
    /// visited; true when a dependency leads back into the walk on `stack`.
    #[verifier::rlimit(60)]
    #[verifier::spinoff_prover]
    fn dfs_visit(
        &self,
        type_info: &TypeInfo,
        dependencies: &Vec<Dependency>,
        visited: &mut Vec<TypeInfo>,
        stack: &mut Vec<TypeInfo>,
    ) -> (r: bool)
        requires
            self.entries.wf(),
            self.entries@.contains_key(type_info.id),
            dependencies@ == self.entries@[type_info.id].dependencies@,
            self.search_state(info_ids(old(visited)@), info_ids(old(stack)@)),
            old(stack)@.len() > 0 ==> self.edge(info_ids(old(stack)@).last(), type_info.id),
            self.walk_names(old(stack)@),
            old(stack)@.len() == 0 ==> *type_info == self.entries.key_infos()[type_info.id],
            old(stack)@.len() > 0 ==> self.entries@[old(stack)@.last().id].dependencies@.contains(
                Dependency { type_info: *type_info },
            ),
        ensures
            !r ==> final(stack)@ == old(stack)@,
            !r ==> info_ids(final(visited)@).contains(type_info.id),
            !r ==> info_ids(old(visited)@).is_prefix_of(info_ids(final(visited)@)),
            !r ==> self.search_state(info_ids(final(visited)@), info_ids(final(stack)@)),
            r ==> self.is_path(info_ids(final(stack)@)),
            r ==> info_ids(final(stack)@).no_duplicates(),
            r ==> self.walk_names(final(stack)@),
            r ==> exists|j: int|
                0 <= j < final(stack)@.len() && self.edge(
                    info_ids(final(stack)@).last(),
                    #[trigger] info_ids(final(stack)@)[j],
                ),
        decreases self.entries@.len() - old(visited)@.len() - old(stack)@.len(),
    {
        let ghost vis0 = info_ids(visited@);
        let ghost st0 = info_ids(stack@);
        proof {
            self.entries.lemma_entries();
            lemma_distinct_within(vis0 + st0, self.entries@.dom());
        }
        if contains_type(visited, type_info) {
            return false;
        }
        if contains_type(stack, type_info) {
            proof {
                let j = choose|j: int| 0 <= j < st0.len() && st0[j] == type_info.id;
                assert(info_ids(stack@)[j] == type_info.id);
                lemma_suffix_no_duplicates(vis0, st0);
            }
            return true;
        }
        stack.push(*type_info);
        proof {
            assert(info_ids(stack@) =~= st0.push(type_info.id));
            assert((vis0 + info_ids(stack@)) =~= (vis0 + st0).push(type_info.id));
            assert(!(vis0 + st0).contains(type_info.id)) by {
                if (vis0 + st0).contains(type_info.id) {
                    let k = choose|k: int| 0 <= k < (vis0 + st0).len() && (vis0 + st0)[k] == type_info.id;
                    if k < vis0.len() {
                        assert(vis0[k] == type_info.id);
                    } else {
                        assert(st0[k - vis0.len()] == type_info.id);
                    }
                }
            }
            lemma_push_no_duplicates(vis0 + st0, type_info.id);
            lemma_distinct_within((vis0 + st0).push(type_info.id), self.entries@.dom());
            let s1 = info_ids(stack@);
            assert forall|k: int| 0 <= k < s1.len() - 1 implies self.edge(#[trigger] s1[k], s1[k + 1]) by {
                if k < st0.len() - 1 {
                    assert(s1[k] == st0[k] && s1[k + 1] == st0[k + 1]);
                } else {
                    assert(s1[k] == st0.last());
                }
            }
            assert(vis0 + s1 =~= (vis0 + st0).push(type_info.id));
            lemma_suffix_no_duplicates(vis0, s1);
            let sw = stack@;
            let so = old(stack)@;
            assert(sw == so.push(*type_info));
            assert forall|k: int|
                1 <= k < sw.len() implies self.entries@[sw[k - 1].id].dependencies@.contains(
                Dependency { type_info: #[trigger] sw[k] },
            ) by {
                if k < so.len() {
                    assert(sw[k - 1] == so[k - 1] && sw[k] == so[k]);
                } else {
                    assert(sw[k - 1] == so.last());
                }
            }
            assert(self.walk_names(sw));
        }
        let ghost stack_with_u = stack@;
        let mut k: usize = 0;
        while k < dependencies.len()
            invariant
                self.entries.wf(),
                self.entries@.dom().finite(),
                self.entries@.contains_key(type_info.id),
                dependencies@ == self.entries@[type_info.id].dependencies@,
                stack@ == stack_with_u,
                info_ids(stack_with_u).last() == type_info.id,
                stack_with_u.last() == *type_info,
                self.walk_names(stack_with_u),
                info_ids(stack_with_u).no_duplicates(),
                stack_with_u.len() == old(stack)@.len() + 1,
                k <= dependencies@.len(),
                self.search_state(info_ids(visited@), info_ids(stack@)),
                vis0.is_prefix_of(info_ids(visited@)),
                vis0 == info_ids(old(visited)@),
                forall|d: int|
                    0 <= d < k && self.entries@.contains_key(#[trigger] dependencies@[d].type_info.id) ==> info_ids(
                        visited@,
                    ).contains(dependencies@[d].type_info.id),
                self.entries@.len() - old(visited)@.len() - old(stack)@.len() > 0,
                self.entries@.len() - visited@.len() - stack@.len() < self.entries@.len() - old(visited)@.len() - old(stack)@.len(),
            decreases dependencies@.len() - k,
        {
            let dep = &dependencies[k];
            match self.entries.get(&dep.type_info) {
                Some(data) => {
                    let ghost vis1 = info_ids(visited@);
                    proof {
                        assert(dependency_ids(self.entries@[type_info.id])[k as int] == dep.type_info.id);
                        assert(self.edge(type_info.id, dep.type_info.id));
                        assert(dependencies@[k as int] == Dependency { type_info: dep.type_info });
                        assert(self.entries@[stack@.last().id].dependencies@.contains(Dependency { type_info: dep.type_info }));
                        assert(info_ids(stack@).last() == type_info.id);
                        lemma_distinct_within(info_ids(visited@) + info_ids(stack@), self.entries@.dom());
                    }
                    if self.dfs_visit(&dep.type_info, &data.dependencies, visited, stack) {
                        return true;
                    }
                    proof {
                        let vis2 = info_ids(visited@);
                        assert forall|d: int|
                            0 <= d < k + 1 && self.entries@.contains_key(#[trigger] dependencies@[d].type_info.id) implies vis2.contains(
                            dependencies@[d].type_info.id) by {
                            if d < k {
                                let x = choose|x: int| 0 <= x < vis1.len() && vis1[x] == dependencies@[d].type_info.id;
                                assert(vis2[x] == vis1[x]);
                            }
                        }
                        assert forall|x: int| 0 <= x < vis0.len() implies vis0[x] == vis2[x] by {
                            assert(vis0[x] == vis1[x]);
                        }
                        lemma_distinct_within(vis2 + info_ids(stack@), self.entries@.dom());
                    }
                },
                None => {},
            }
            k = k + 1;
        }
        let ghost vis3 = info_ids(visited@);
        let _ = stack.pop();
        visited.push(*type_info);
        proof {
            let s3 = info_ids(stack@);
            assert(stack@ =~= old(stack)@);
            let v4 = info_ids(visited@);
            assert(v4 =~= vis3.push(type_info.id));
            // The walk still holds this type, so the finished types do not.
            assert(!vis3.contains(type_info.id)) by {
                let sw = info_ids(stack_with_u);
                assert(sw[sw.len() - 1] == type_info.id);
                if vis3.contains(type_info.id) {
                    let x = choose|x: int| 0 <= x < vis3.len() && vis3[x] == type_info.id;
                    assert((vis3 + sw)[x] == (vis3 + sw)[vis3.len() + sw.len() - 1]);
                }
            }
            assert(v4 + s3 =~= vis3.push(type_info.id) + st0);
            assert((vis3 + info_ids(stack_with_u)).no_duplicates());
            assert(info_ids(stack_with_u) =~= st0.push(type_info.id));
            assert(vis3 + info_ids(stack_with_u) =~= (vis3 + st0).push(type_info.id));
            lemma_move_last_no_duplicates(vis3, st0, type_info.id);
            assert(self.finished_in_order(v4)) by {
                assert forall|a: int, v: TypeId|
                    0 <= a < v4.len() && #[trigger] self.edge(v4[a], v) implies exists|b: int|
                    0 <= b < a && #[trigger] v4[b] == v by {
                    if a < vis3.len() {
                        let b = choose|b: int| 0 <= b < a && #[trigger] vis3[b] == v;
                        assert(v4[b] == v);
                    } else {
                        assert(v4[a] == type_info.id);
                        let d = choose|d: int| 0 <= d < dependency_ids(self.entries@[type_info.id]).len() && dependency_ids(self.entries@[type_info.id])[d] == v;
                        assert(dependencies@[d].type_info.id == v);
                        let b = choose|b: int| 0 <= b < vis3.len() && vis3[b] == v;
                        assert(v4[b] == v);
                    }
                }
                assert(v4.no_duplicates()) by {
                    assert forall|x: int, y: int| 0 <= x < y < v4.len() implies v4[x] != v4[y] by {
                        assert((v4 + s3)[x] == v4[x]);
                        assert((v4 + s3)[y] == v4[y]);
                    }
                }
            }
            assert(vis0.is_prefix_of(v4)) by {
                assert forall|x: int| 0 <= x < vis0.len() implies vis0[x] == v4[x] by {
                    assert(vis0[x] == vis3[x]);
                }
            }
            assert(v4[v4.len() - 1] == type_info.id);
        }
        false
    }
}

/// Whether a type with the same identifier is in `v`.
fn contains_type(v: &Vec<TypeInfo>, type_info: &TypeInfo) -> (r: bool)
    ensures
        r == info_ids(v@).contains(type_info.id),
{
    let mut i: usize = 0;
    while i < v.len()
        invariant
            i <= v@.len(),
            forall|j: int| 0 <= j < i ==> v@[j].id != type_info.id,
        decreases v@.len() - i,
    {
        if v[i].same_type(type_info) {
            proof {
                assert(info_ids(v@)[i as int] == type_info.id);
            }
            return true;
        }
        i = i + 1;
    }
    proof {
        if info_ids(v@).contains(type_info.id) {
            let j = choose|j: int| 0 <= j < info_ids(v@).len() && info_ids(v@)[j] == type_info.id;
            assert(v@[j].id == type_info.id);
        }
    }
    false
}

/// Distinct elements of a finite set are no more than the set holds.
proof fn lemma_distinct_within<A>(s: Seq<A>, d: Set<A>)
    requires
        s.no_duplicates(),
        d.finite(),
        forall|k: int| 0 <= k < s.len() ==> d.contains(#[trigger] s[k]),
    ensures
        s.len() <= d.len(),
{
    s.unique_seq_to_set();
    assert(s.to_set().subset_of(d));
    vstd::set_lib::lemma_len_subset(s.to_set(), d);
}

/// The end of a sequence free of duplicates is free of them too.
proof fn lemma_suffix_no_duplicates<A>(a: Seq<A>, b: Seq<A>)
    requires
        (a + b).no_duplicates(),
    ensures
        b.no_duplicates(),
{
    assert forall|x: int, y: int| 0 <= x < y < b.len() implies b[x] != b[y] by {
        assert((a + b)[a.len() + x] == b[x]);
        assert((a + b)[a.len() + y] == b[y]);
    }
}

/// Appending a new element keeps a sequence free of duplicates.
proof fn lemma_push_no_duplicates<A>(s: Seq<A>, x: A)
    requires
        s.no_duplicates(),
        !s.contains(x),
    ensures
        s.push(x).no_duplicates(),
{
    assert forall|a: int, b: int| 0 <= a < b < s.push(x).len() implies s.push(x)[a] != s.push(x)[b] by {
        if b == s.len() {
            assert(s[a] == s.push(x)[a]);
        }
    }
}

/// Moving the last element of the walk to the end of the finished types keeps the
/// elements distinct.
proof fn lemma_move_last_no_duplicates<A>(v: Seq<A>, s: Seq<A>, x: A)
    requires
        (v + s).push(x).no_duplicates(),
    ensures
        (v.push(x) + s).no_duplicates(),
{
    let a = (v + s).push(x);
    let b = v.push(x) + s;
    // Each position of `b` comes from a distinct position of `a`.
    assert forall|i: int, j: int| 0 <= i < j < b.len() implies b[i] != b[j] by {
        let ai = if i < v.len() { i } else if i == v.len() { a.len() - 1 } else { i - 1 };
        let aj = if j < v.len() { j } else if j == v.len() { a.len() - 1 } else { j - 1 };
        assert(b[i] == a[ai]);
        assert(b[j] == a[aj]);
    }
}

/// The type information of the container entry is `container_type`, and the entry
/// provides the container itself in the scope `scope`.
pub open spec fn is_container_entry<I, F>(data: InstantiatorData<I, F>, instantiator: I, scope: ScopeData) -> bool {
    &&& data.instantiator == instantiator
    &&& data.dependencies@.len() == 0
    &&& data.finalizer is None
    &&& data.config.cache_provides
    &&& data.scope_data == scope
}

impl<I, F> Default for Registry<I, F> {
    fn default() -> (r: Self)
        ensures
            r.entries@ == Map::<TypeId, InstantiatorData<I, F>>::empty(),
            r.scopes_data@.len() == 0,
    {
        Registry { entries: TypeMap::new(), scopes_data: Vec::new() }
    }
}

impl<I, F> Registry<I, F> {
    /// A registry over the given scopes with the given entries and, when there is a scope,
    /// an entry that provides the container itself, living in the last scope.
    pub fn new(
        entries: TypeMap<InstantiatorData<I, F>>,
        scopes_data: Vec<ScopeData>,
        container_type: TypeInfo,
        container_instantiator: I,
    ) -> (r: Self)
        ensures
            r.scopes_data@ == scopes_data@,
            scopes_data@.len() == 0 ==> r.entries@ == entries@,
            scopes_data@.len() > 0 ==> {
                &&& r.entries@.dom() == entries@.dom().insert(container_type.id)
                &&& forall|id: TypeId| id != container_type.id ==> #[trigger] r.entries@.get(id) == entries@.get(id)
                &&& is_container_entry(
                    r.entries@[container_type.id],
                    container_instantiator,
                    scopes_data@[scopes_data@.len() - 1],
                )
            },
    {
        let ghost given = entries@;
        let mut entries = entries;
        let n = scopes_data.len();
        if n > 0 {
            let data = InstantiatorData {
                instantiator: container_instantiator,
                dependencies: Vec::new(),
                finalizer: None,
                config: Config { cache_provides: true },
                scope_data: scopes_data[n - 1],
            };
            entries.insert(container_type, data);
            proof {
                assert(entries@.dom() =~= given.dom().insert(container_type.id));
            }
        }
        Registry { entries, scopes_data }
    }

    /// A registry over the default scopes whose only entry provides the container itself.
    pub fn new_with_default_entries(container_type: TypeInfo, container_instantiator: I) -> (r: Self)
        ensures
            r.scopes_data@ == default_scopes_data(),
            r.scopes_data@.len() == 6,
            forall|i: int| 0 <= i < 6 ==> #[trigger] r.scopes_data@[i].priority == i,
            forall|i: int| 0 <= i < 6 ==> #[trigger] r.scopes_data@[i].is_skipped_by_default == (i == 0 || i == 2),
            r.entries@.dom() == Set::<TypeId>::empty().insert(container_type.id),
            is_container_entry(r.entries@[container_type.id], container_instantiator, r.scopes_data@[5]),
    {
        let r = Registry::new(TypeMap::new(), DefaultScope::all_data(), container_type, container_instantiator);
        assert(r.entries@.dom() =~= Set::<TypeId>::empty().insert(container_type.id));
        r
    }

    /// Adds an entry, replacing the one registered for the same type, and returns it.
    pub fn provide(&mut self, type_info: TypeInfo, data: InstantiatorData<I, F>) -> (r: Option<InstantiatorData<I, F>>)
        ensures
            final(self).entries@ == old(self).entries@.insert(type_info.id, data),
            final(self).scopes_data == old(self).scopes_data,
            old(self).entries@.contains_key(type_info.id) ==> r == Some(old(self).entries@[type_info.id]),
            !old(self).entries@.contains_key(type_info.id) ==> r is None,
    {
        self.entries.insert(type_info, data)
    }
}

/// The map after inserting the given entries in turn.
pub open spec fn insert_all<V>(m: Map<TypeId, V>, s: Seq<(TypeInfo, V)>) -> Map<TypeId, V>
    decreases s.len(),
{
    if s.len() == 0 {
        m
    } else {
        insert_all(m.insert(s[0].0.id, s[0].1), s.drop_first())
    }
}

impl<I, F> Registry<I, F> {
    /// Adds each of the given entries in turn, a later one replacing an earlier one for
    /// the same type.
    pub fn provide_all(self, entries: Vec<(TypeInfo, InstantiatorData<I, F>)>) -> (r: Self)
        ensures
            r.entries@ == insert_all(self.entries@, entries@),
            r.scopes_data == self.scopes_data,
    {
        let mut registry = self;
        let mut rest = entries;
        while rest.len() > 0
            invariant
                insert_all(registry.entries@, rest@) == insert_all(self.entries@, entries@),
                registry.scopes_data == self.scopes_data,
            decreases rest@.len(),
        {
            let ghost before = rest@;
            let (type_info, data) = rest.remove(0);
            registry.provide(type_info, data);
            proof {
                assert(rest@ =~= before.drop_first());
            }
        }
        registry
    }
}

/// Registries that take the entries registered for automatic provision.
pub trait AutoRegistries: Sized {
    type Entry;

    /// Adds each of the given entries in turn.
    fn provide_auto_registries(self, entries: Vec<Self::Entry>) -> Self;
}

impl<I, F> AutoRegistries for Registry<I, F> {
    type Entry = (TypeInfo, InstantiatorData<I, F>);

    fn provide_auto_registries(self, entries: Vec<(TypeInfo, InstantiatorData<I, F>)>) -> (r: Self)
        ensures
            r.entries@ == insert_all(self.entries@, entries@),
            r.scopes_data == self.scopes_data,
    {
        self.provide_all(entries)
    }
}

/// An asynchronous registry together with the synchronous one it falls back on.
pub struct RegistryWithSync<AI, AF, SI, SF> {
    pub registry: Registry<AI, AF>,
    pub sync: Registry<SI, SF>,
}

impl<AI, AF, SI, SF> RegistryWithSync<AI, AF, SI, SF> {
    /// Checks both registries for cyclic dependencies, the asynchronous one first.
    pub fn dfs_detect(&self) -> (r: Result<(), ValidationErrorKind>)
        ensures
            r is Ok <==> !self.registry.has_cycle() && !self.sync.has_cycle(),
            r matches Err(e) ==> e matches ValidationErrorKind::CyclicDependency { graph } && (if self.registry.has_cycle() {
                self.registry.reports_cycle(graph.0, graph.1@) && self.registry.walk_names(seq![graph.0] + graph.1@)
            } else {
                self.sync.reports_cycle(graph.0, graph.1@) && self.sync.walk_names(seq![graph.0] + graph.1@)
            }) && info_ids(seq![graph.0] + graph.1@).no_duplicates(),
    {
        match self.registry.dfs_detect() {
            Ok(()) => {},
            Err(e) => return Err(e),
        }
        self.sync.dfs_detect()
    }

    /// The asynchronous registry with an empty synchronous one.
    pub fn from_registry(registry: Registry<AI, AF>) -> (r: Self)
        ensures
            r.registry == registry,
            r.sync.entries@ == Map::<TypeId, InstantiatorData<SI, SF>>::empty(),
            r.sync.scopes_data@.len() == 0,
    {
        RegistryWithSync { registry, sync: Registry::default() }
    }
}

/// Pairs of registries that take automatically provided entries for each.
pub trait AutoRegistriesWithSync: Sized {
    type Entry;

    type SyncEntry;

    /// Adds the entries to the asynchronous registry and the synchronous entries to the
    /// synchronous one.
    fn provide_auto_registries_with_sync(self, entries: Vec<Self::Entry>, sync_entries: Vec<Self::SyncEntry>) -> Self;
}

impl<AI, AF, SI, SF> RegistryWithSync<AI, AF, SI, SF> {
    /// Adds entries to each registry in turn.
    pub fn provide_all_with_sync(
        self,
        entries: Vec<(TypeInfo, InstantiatorData<AI, AF>)>,
        sync_entries: Vec<(TypeInfo, InstantiatorData<SI, SF>)>,
    ) -> (r: Self)
        ensures
            r.registry.entries@ == insert_all(self.registry.entries@, entries@),
            r.registry.scopes_data == self.registry.scopes_data,
            r.sync.entries@ == insert_all(self.sync.entries@, sync_entries@),
            r.sync.scopes_data == self.sync.scopes_data,
    {
        let RegistryWithSync { registry, sync } = self;
        RegistryWithSync { registry: registry.provide_all(entries), sync: sync.provide_all(sync_entries) }
    }
}

impl<AI, AF, SI, SF> AutoRegistries for RegistryWithSync<AI, AF, SI, SF> {
    type Entry = (TypeInfo, InstantiatorData<AI, AF>);

    fn provide_auto_registries(self, entries: Vec<(TypeInfo, InstantiatorData<AI, AF>)>) -> (r: Self)
        ensures
            r.registry.entries@ == insert_all(self.registry.entries@, entries@),
            r.registry.scopes_data == self.registry.scopes_data,
            r.sync.entries@ == self.sync.entries@,
            r.sync.scopes_data == self.sync.scopes_data,
    {
        self.provide_all_with_sync(entries, Vec::new())
    }
}

impl<AI, AF, SI, SF> AutoRegistriesWithSync for RegistryWithSync<AI, AF, SI, SF> {
    type Entry = (TypeInfo, InstantiatorData<AI, AF>);

    type SyncEntry = (TypeInfo, InstantiatorData<SI, SF>);

    fn provide_auto_registries_with_sync(
        self,
        entries: Vec<(TypeInfo, InstantiatorData<AI, AF>)>,
        sync_entries: Vec<(TypeInfo, InstantiatorData<SI, SF>)>,
    ) -> (r: Self)
        ensures
            r.registry.entries@ == insert_all(self.registry.entries@, entries@),
            r.registry.scopes_data == self.registry.scopes_data,
            r.sync.entries@ == insert_all(self.sync.entries@, sync_entries@),
            r.sync.scopes_data == self.sync.scopes_data,
    {
        self.provide_all_with_sync(entries, sync_entries)
    }
}

} // verus!
