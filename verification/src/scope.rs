use vstd::prelude::*;

verus! {

/// What a container knows of a scope: its name, its priority (a lower number is a wider,
/// longer-lived scope) and whether building a child container passes over it by default.
#[derive(Clone, Copy, Debug)]
pub struct ScopeData {
    pub name: &'static str,
    pub priority: u8,
    pub is_skipped_by_default: bool,
}

impl ScopeData {
    /// The data of a scope, as the scope states it.
    pub fn of<S: Scope>(scope: &S) -> (r: ScopeData)
        ensures
            r == scope_data_of(scope),
    {
        ScopeData {
            name: scope.name(),
            priority: scope.priority(),
            is_skipped_by_default: scope.is_skipped_by_default(),
        }
    }
}

/// A scope that registries and containers can be built with: a name, a priority (a lower
/// number is a wider scope) and whether building a child container passes over it by
/// default. Each method returns what its model says.
pub trait Scope {
    /// The scope's name.
    spec fn name_model(&self) -> &'static str;

    /// The scope's priority.
    spec fn priority_model(&self) -> u8;

    /// Whether the scope is skipped by default.
    spec fn skipped_model(&self) -> bool;

    fn name(&self) -> (r: &'static str)
        ensures
            r == self.name_model(),
    ;

    fn priority(&self) -> (r: u8)
        ensures
            r == self.priority_model(),
    ;

    fn is_skipped_by_default(&self) -> (r: bool)
        ensures
            r == self.skipped_model(),
    ;
}

/// The data of a scope, by its model.
pub open spec fn scope_data_of<S: Scope>(scope: &S) -> ScopeData {
    ScopeData { name: scope.name_model(), priority: scope.priority_model(), is_skipped_by_default: scope.skipped_model() }
}

/// The scopes a container lives through, from the whole runtime down to a single step.
#[derive(Clone, Copy, Debug, PartialEq, Eq, Hash, PartialOrd, Ord)]
pub enum DefaultScope {
    Runtime,
    App,
    Session,
    Request,
    Action,
    Step,
}

/// Priority of each default scope: its position from `Runtime` (0) to `Step` (5).
pub open spec fn default_scope_priority(s: DefaultScope) -> u8 {
    match s {
        DefaultScope::Runtime => 0,
        DefaultScope::App => 1,
        DefaultScope::Session => 2,
        DefaultScope::Request => 3,
        DefaultScope::Action => 4,
        DefaultScope::Step => 5,
    }
}

/// The default scopes, from the widest to the narrowest.
pub open spec fn default_scopes() -> Seq<DefaultScope> {
    seq![
        DefaultScope::Runtime,
        DefaultScope::App,
        DefaultScope::Session,
        DefaultScope::Request,
        DefaultScope::Action,
        DefaultScope::Step,
    ]
}

/// The data of a default scope.
pub open spec fn default_scope_data(s: DefaultScope) -> ScopeData {
    ScopeData { name: default_scope_name(s), priority: default_scope_priority(s), is_skipped_by_default: default_scope_skipped(s) }
}

/// The data of the default scopes, from the widest to the narrowest.
pub open spec fn default_scopes_data() -> Seq<ScopeData> {
    default_scopes().map_values(|s: DefaultScope| default_scope_data(s))
}

/// Name of each default scope: its variant's name.
pub open spec fn default_scope_name(s: DefaultScope) -> &'static str {
    match s {
        DefaultScope::Runtime => "Runtime",
        DefaultScope::App => "App",
        DefaultScope::Session => "Session",
        DefaultScope::Request => "Request",
        DefaultScope::Action => "Action",
        DefaultScope::Step => "Step",
    }
}

/// `Runtime` and `Session` are passed over when a child container is built by default.
pub open spec fn default_scope_skipped(s: DefaultScope) -> bool {
    s == DefaultScope::Runtime || s == DefaultScope::Session
}

impl DefaultScope {
    pub fn scope_name(&self) -> (r: &'static str)
        ensures
            r == default_scope_name(*self),
    {
        match self {
            DefaultScope::Runtime => "Runtime",
            DefaultScope::App => "App",
            DefaultScope::Session => "Session",
            DefaultScope::Request => "Request",
            DefaultScope::Action => "Action",
            DefaultScope::Step => "Step",
        }
    }

    pub fn scope_priority(&self) -> (r: u8)
        ensures
            r == default_scope_priority(*self),
    {
        match self {
            DefaultScope::Runtime => 0,
            DefaultScope::App => 1,
            DefaultScope::Session => 2,
            DefaultScope::Request => 3,
            DefaultScope::Action => 4,
            DefaultScope::Step => 5,
        }
    }

    pub fn scope_is_skipped_by_default(&self) -> (r: bool)
        ensures
            r == default_scope_skipped(*self),
    {
        match self {
            DefaultScope::Runtime | DefaultScope::Session => true,
            _ => false,
        }
    }

    /// The scope data of this scope.
    pub fn data(&self) -> (r: ScopeData)
        ensures
            r.name == default_scope_name(*self),
            r.priority == default_scope_priority(*self),
            r.is_skipped_by_default == default_scope_skipped(*self),
    {
        ScopeData {
            name: self.scope_name(),
            priority: self.scope_priority(),
            is_skipped_by_default: self.scope_is_skipped_by_default(),
        }
    }

    /// All default scopes, from the widest to the narrowest.
    pub fn all() -> (r: Vec<DefaultScope>)
        ensures
            r@ == seq![
                DefaultScope::Runtime,
                DefaultScope::App,
                DefaultScope::Session,
                DefaultScope::Request,
                DefaultScope::Action,
                DefaultScope::Step,
            ],
    {
        let r = vec![
            DefaultScope::Runtime,
            DefaultScope::App,
            DefaultScope::Session,
            DefaultScope::Request,
            DefaultScope::Action,
            DefaultScope::Step,
        ];
        assert(r@ =~= seq![
            DefaultScope::Runtime,
            DefaultScope::App,
            DefaultScope::Session,
            DefaultScope::Request,
            DefaultScope::Action,
            DefaultScope::Step,
        ]);
        r
    }

    /// The scope data of all default scopes, from the widest to the narrowest.
    pub fn all_data() -> (r: Vec<ScopeData>)
        ensures
            r@.len() == 6,
            forall|i: int| 0 <= i < 6 ==> #[trigger] r@[i].priority == i,
            forall|i: int| 0 <= i < 6 ==> #[trigger] r@[i].is_skipped_by_default == (i == 0 || i == 2),
            forall|i: int| 0 <= i < 6 ==> #[trigger] r@[i].name == default_scope_name(default_scopes()[i]),
            r@ == default_scopes_data(),
    {
        let all = DefaultScope::all();
        let mut r: Vec<ScopeData> = Vec::new();
        let mut i: usize = 0;
        while i < all.len()
            invariant
                0 <= i <= 6,
                all@ == seq![
                    DefaultScope::Runtime,
                    DefaultScope::App,
                    DefaultScope::Session,
                    DefaultScope::Request,
                    DefaultScope::Action,
                    DefaultScope::Step,
                ],
                r@.len() == i,
                forall|j: int| 0 <= j < i ==> #[trigger] r@[j].priority == j,
                forall|j: int| 0 <= j < i ==> #[trigger] r@[j].is_skipped_by_default == (j == 0 || j == 2),
                forall|j: int| 0 <= j < i ==> #[trigger] r@[j].name == default_scope_name(default_scopes()[j]),
                forall|j: int| 0 <= j < i ==> #[trigger] r@[j] == default_scope_data(default_scopes()[j]),
            decreases 6 - i,
        {
            r.push(all[i].data());
            i = i + 1;
        }
        proof {
            assert forall|j: int| 0 <= j < 6 implies #[trigger] r@[j] == default_scopes_data()[j] by {
                assert(r@[j] == default_scope_data(default_scopes()[j]));
            }
            assert(r@ =~= default_scopes_data());
        }
        r
    }
}

impl Scope for DefaultScope {
    open spec fn name_model(&self) -> &'static str {
        default_scope_name(*self)
    }

    open spec fn priority_model(&self) -> u8 {
        default_scope_priority(*self)
    }

    open spec fn skipped_model(&self) -> bool {
        default_scope_skipped(*self)
    }

    fn name(&self) -> (r: &'static str) {
        self.scope_name()
    }

    fn priority(&self) -> (r: u8) {
        self.scope_priority()
    }

    fn is_skipped_by_default(&self) -> (r: bool) {
        self.scope_is_skipped_by_default()
    }
}

/// Whether a sequence of scopes is ordered by priority, widest first.
pub open spec fn sorted_by_priority(s: Seq<ScopeData>) -> bool {
    forall|i: int, j: int| 0 <= i < j < s.len() ==> s[i].priority <= s[j].priority
}

/// A copy of a sequence of scope data.
pub fn copy_scopes(v: &Vec<ScopeData>) -> (r: Vec<ScopeData>)
    ensures
        r@ == v@,
{
    let mut r: Vec<ScopeData> = Vec::new();
    let mut i: usize = 0;
    while i < v.len()
        invariant
            i <= v@.len(),
            r@ == v@.subrange(0, i as int),
        decreases v@.len() - i,
    {
        r.push(v[i]);
        i = i + 1;
        assert(r@ =~= v@.subrange(0, i as int));
    }
    assert(v@.subrange(0, v@.len() as int) =~= v@);
    r
}

/// The scopes of `s` with priority `q`, in their order in `s`.
pub open spec fn with_priority(s: Seq<ScopeData>, q: u8) -> Seq<ScopeData> {
    s.filter(|x: ScopeData| x.priority == q)
}

/// Appending a scope appends it to the scopes of its priority, and to no others.
proof fn lemma_with_priority_push(s: Seq<ScopeData>, x: ScopeData, q: u8)
    ensures
        with_priority(s.push(x), q) == (if x.priority == q {
            with_priority(s, q).push(x)
        } else {
            with_priority(s, q)
        }),
{
    reveal(Seq::filter);
    assert(s.push(x).drop_last() =~= s);
}

/// A sequence with no scope of priority `q` has none to give.
proof fn lemma_with_priority_none(s: Seq<ScopeData>, q: u8)
    requires
        forall|i: int| 0 <= i < s.len() ==> #[trigger] s[i].priority != q,
    ensures
        with_priority(s, q) == Seq::<ScopeData>::empty(),
    decreases s.len(),
{
    reveal(Seq::filter);
    if s.len() > 0 {
        lemma_with_priority_none(s.drop_last(), q);
    }
    assert(with_priority(s, q) =~= Seq::<ScopeData>::empty());
}

/// Orders scope data by priority, widest first, keeping the relative order of equal
/// priorities.
pub fn sort_by_priority(v: Vec<ScopeData>) -> (r: Vec<ScopeData>)
    ensures
        sorted_by_priority(r@),
        r@.to_multiset() == v@.to_multiset(),
        r@.len() == v@.len(),
        forall|q: u8| #[trigger] with_priority(r@, q) == with_priority(v@, q),
{
    let mut r: Vec<ScopeData> = Vec::new();
    let mut i: usize = 0;
    assert(r@ =~= v@.subrange(0, 0));
    while i < v.len()
        invariant
            i <= v@.len(),
            sorted_by_priority(r@),
            r@.to_multiset() == v@.subrange(0, i as int).to_multiset(),
            r@.len() == i,
            forall|q: u8| #[trigger] with_priority(r@, q) == with_priority(v@.subrange(0, i as int), q),
        decreases v@.len() - i,
    {
        let e = v[i];
        // The first position holding a narrower scope than `e`.
        let mut p: usize = 0;
        while p < r.len() && r[p].priority <= e.priority
            invariant
                p <= r@.len(),
                forall|j: int| 0 <= j < p ==> r@[j].priority <= e.priority,
            decreases r@.len() - p,
        {
            p = p + 1;
        }
        let ghost before = r@;
        r.insert(p, e);
        proof {
            assert(r@ == before.insert(p as int, e));
            assert forall|a: int, b: int| 0 <= a < b < r@.len() implies r@[a].priority <= r@[b].priority by {
                if p < before.len() {
                    assert(before[p as int].priority > e.priority);
                }
                if a < p && b > p {
                    assert(r@[b] == before[b - 1]);
                    assert(before[a].priority <= e.priority);
                }
            }
            assert(v@.subrange(0, i + 1) =~= v@.subrange(0, i as int).push(e));
            vstd::seq_lib::to_multiset_insert(before, p as int, e);
            vstd::seq_lib::to_multiset_build(v@.subrange(0, i as int), e);
            let head = before.subrange(0, p as int);
            let tail = before.subrange(p as int, before.len() as int);
            assert(before =~= head + tail);
            assert(r@ =~= head + seq![e] + tail);
            assert forall|q: u8| #[trigger] with_priority(r@, q) == with_priority(v@.subrange(0, i + 1), q) by {
                let pred = |x: ScopeData| x.priority == q;
                Seq::filter_distributes_over_add(head, tail, pred);
                Seq::filter_distributes_over_add(head + seq![e], tail, pred);
                Seq::filter_distributes_over_add(head, seq![e], pred);
                lemma_with_priority_push(v@.subrange(0, i as int), e, q);
                lemma_with_priority_push(Seq::<ScopeData>::empty(), e, q);
                assert(Seq::<ScopeData>::empty().push(e) =~= seq![e]);
                lemma_with_priority_none(Seq::<ScopeData>::empty(), q);
                if q == e.priority {
                    assert forall|j: int| 0 <= j < tail.len() implies #[trigger] tail[j].priority != q by {
                        assert(tail[j] == before[p + j]);
                        assert(before[p as int].priority > e.priority);
                    }
                    lemma_with_priority_none(tail, q);
                    assert(with_priority(r@, q) =~= with_priority(before, q).push(e));
                } else {
                    assert(with_priority(r@, q) =~= with_priority(before, q));
                }
            }
        }
        i = i + 1;
    }
    assert(v@.subrange(0, v@.len() as int) =~= v@);
    r
}

/// A scope together with the narrower scopes below it, in order.
pub struct ScopeDataWithChildScopesData {
    pub scope_data: Option<ScopeData>,
    pub child_scopes_data: Vec<ScopeData>,
}

impl ScopeDataWithChildScopesData {
    pub fn new(scope_data: ScopeData, child_scopes_data: Vec<ScopeData>) -> (r: Self)
        ensures
            r.scope_data == Some(scope_data),
            r.child_scopes_data@ == child_scopes_data@,
    {
        ScopeDataWithChildScopesData { scope_data: Some(scope_data), child_scopes_data }
    }

    /// Orders the scopes by priority: the widest becomes the scope, the others its
    /// children.
    pub fn new_with_sort(scopes_data: Vec<ScopeData>) -> (r: Self)
        ensures
            ({
                let all = if r.scope_data is Some {
                    seq![r.scope_data->0] + r.child_scopes_data@
                } else {
                    r.child_scopes_data@
                };
                &&& sorted_by_priority(all)
                &&& all.to_multiset() == scopes_data@.to_multiset()
            }),
            r.scope_data is None <==> scopes_data@.len() == 0,
            r.scope_data is None ==> r.child_scopes_data@.len() == 0,
    {
        let mut sorted = sort_by_priority(scopes_data);
        if sorted.len() == 0 {
            ScopeDataWithChildScopesData { scope_data: None, child_scopes_data: sorted }
        } else {
            let ghost all = sorted@;
            let first = sorted.remove(0);
            proof {
                assert(all =~= seq![first] + sorted@);
            }
            ScopeDataWithChildScopesData { scope_data: Some(first), child_scopes_data: sorted }
        }
    }

    /// The next narrower scope and the scopes below it; no scope when there are no
    /// children.
    pub fn child(&self) -> (r: Self)
        ensures
            self.child_scopes_data@.len() == 0 ==> r.scope_data is None && r.child_scopes_data@.len() == 0,
            self.child_scopes_data@.len() > 0 ==> r.scope_data == Some(self.child_scopes_data@[0])
                && r.child_scopes_data@ == self.child_scopes_data@.drop_first(),
    {
        let mut rest = copy_scopes(&self.child_scopes_data);
        if rest.len() == 0 {
            ScopeDataWithChildScopesData { scope_data: None, child_scopes_data: rest }
        } else {
            let first = rest.remove(0);
            assert(rest@ =~= self.child_scopes_data@.drop_first());
            ScopeDataWithChildScopesData { scope_data: Some(first), child_scopes_data: rest }
        }
    }
}

} // verus!
