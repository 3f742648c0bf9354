use std::sync::{Arc, Mutex};

use froodi::{
    Config, ContainerTree, DefaultScope, Finalizer, InstantiateErrorKind, Instantiator, InstantiatorData, InstantiatorErrorKind,
    RcAny, Registry, ResolveErrorKind, ResolveStep, Scope, ScopeData, TypeInfo,
};

/// An instantiator: builds its value in the given container, resolving what it needs there.
#[derive(Clone, Copy)]
struct Inst(fn(&mut Tree, usize) -> Result<RcAny, ResolveErrorKind>);

impl Instantiator<Fin> for Inst {
    fn instantiate(
        &mut self,
        tree: &mut Tree,
        container: usize,
    ) -> Result<RcAny, InstantiatorErrorKind<ResolveErrorKind, InstantiateErrorKind>> {
        (self.0)(tree, container).map_err(InstantiatorErrorKind::Deps)
    }
}

/// A finalizer that writes its name into a shared log.
#[derive(Clone)]
struct Fin {
    name: &'static str,
    log: Arc<Mutex<Vec<&'static str>>>,
}

impl Finalizer for Fin {
    fn finalize(&mut self, _value: RcAny) {
        self.log.lock().unwrap().push(self.name);
    }
}

type Tree = ContainerTree<Inst, Fin>;

fn get(tree: &mut Tree, c: usize, t: &TypeInfo) -> Result<RcAny, ResolveErrorKind> {
    tree.get(c, t)
}

fn get_transient(tree: &mut Tree, c: usize, t: &TypeInfo) -> Result<RcAny, ResolveErrorKind> {
    tree.get_transient(c, t)
}

fn ok<T: Send + Sync + 'static>(value: T) -> Result<RcAny, ResolveErrorKind> {
    Ok(RcAny::erase(Arc::new(value)))
}

struct ContainerHandle;

fn container_instantiator(_: &mut Tree, _: usize) -> Result<RcAny, ResolveErrorKind> {
    ok(ContainerHandle)
}

fn new_registry() -> Registry<Inst, Fin> {
    Registry::new_with_default_entries(TypeInfo::new::<ContainerHandle>("container::ContainerHandle"), Inst(container_instantiator))
}

fn provide(
    registry: &mut Registry<Inst, Fin>,
    t: TypeInfo,
    scope: DefaultScope,
    f: fn(&mut Tree, usize) -> Result<RcAny, ResolveErrorKind>,
    finalizer: Option<Fin>,
) {
    registry.provide(
        t,
        InstantiatorData {
            instantiator: Inst(f),
            dependencies: Vec::new(),
            finalizer,
            config: Config::default(),
            scope_data: ScopeData::of(&scope),
        },
    );
}

struct A(Arc<B>, Arc<C>);
struct B(i32);
struct C(Arc<CA>);
struct CA(Arc<CAA>);
struct CAA(Arc<CAAA>);
struct CAAA(Arc<CAAAA>);
struct CAAAA(Arc<CAAAAA>);
struct CAAAAA;

fn ti_a() -> TypeInfo {
    TypeInfo::new::<A>("container::A")
}
fn ti_b() -> TypeInfo {
    TypeInfo::new::<B>("container::B")
}
fn ti_c() -> TypeInfo {
    TypeInfo::new::<C>("container::C")
}
fn ti_ca() -> TypeInfo {
    TypeInfo::new::<CA>("container::CA")
}
fn ti_caa() -> TypeInfo {
    TypeInfo::new::<CAA>("container::CAA")
}
fn ti_caaa() -> TypeInfo {
    TypeInfo::new::<CAAA>("container::CAAA")
}
fn ti_caaaa() -> TypeInfo {
    TypeInfo::new::<CAAAA>("container::CAAAA")
}
fn ti_caaaaa() -> TypeInfo {
    TypeInfo::new::<CAAAAA>("container::CAAAAA")
}

fn dep<T: Send + Sync + 'static>(tree: &mut Tree, c: usize, t: TypeInfo) -> Result<Arc<T>, ResolveErrorKind> {
    Ok(get(tree, c, &t)?.downcast::<T>().unwrap())
}

#[test]
fn container_test_scoped_get() {
    let mut registry = new_registry();
    provide(&mut registry, ti_caaaaa(), DefaultScope::Runtime, |_, _| ok(CAAAAA), None);
    provide(&mut registry, ti_caaaa(), DefaultScope::App, |t, c| ok(CAAAA(dep(t, c, ti_caaaaa())?)), None);
    provide(&mut registry, ti_b(), DefaultScope::App, |_, _| ok(B(2)), None);
    provide(&mut registry, ti_caaa(), DefaultScope::Session, |t, c| ok(CAAA(dep(t, c, ti_caaaa())?)), None);
    provide(&mut registry, ti_caa(), DefaultScope::Request, |t, c| ok(CAA(dep(t, c, ti_caaa())?)), None);
    provide(&mut registry, ti_ca(), DefaultScope::Request, |t, c| ok(CA(dep(t, c, ti_caa())?)), None);
    provide(&mut registry, ti_c(), DefaultScope::Action, |t, c| ok(C(dep(t, c, ti_ca())?)), None);
    provide(&mut registry, ti_a(), DefaultScope::Step, |t, c| ok(A(dep(t, c, ti_b())?, dep(t, c, ti_c())?)), None);

    let (mut tree, app) = ContainerTree::new(registry);
    let request = tree.enter_build(app, None).unwrap();
    let action = tree.enter_build(request, None).unwrap();
    let step = tree.enter_build(action, None).unwrap();

    let a = get(&mut tree, step, &ti_a()).unwrap().downcast::<A>().unwrap();
    assert_eq!(a.0 .0, 2);
    let _ = get(&mut tree, step, &ti_caaaaa()).unwrap();
    let _ = get(&mut tree, step, &ti_caaaa()).unwrap();
    let _ = get(&mut tree, step, &ti_caaa()).unwrap();
    let _ = get(&mut tree, step, &ti_caa()).unwrap();
    let _ = get(&mut tree, step, &ti_ca()).unwrap();
    let c = get(&mut tree, step, &ti_c()).unwrap().downcast::<C>().unwrap();
    assert!(Arc::ptr_eq(&c, &a.1));
    let _ = get(&mut tree, step, &ti_b()).unwrap();
}

struct RequestTransient1;
struct RequestTransient2(RequestTransient1);
struct RequestTransient3(RequestTransient1, RequestTransient2);

fn ti_t1() -> TypeInfo {
    TypeInfo::new::<RequestTransient1>("container::RequestTransient1")
}
fn ti_t2() -> TypeInfo {
    TypeInfo::new::<RequestTransient2>("container::RequestTransient2")
}
fn ti_t3() -> TypeInfo {
    TypeInfo::new::<RequestTransient3>("container::RequestTransient3")
}

fn transient<T: Send + Sync + 'static>(tree: &mut Tree, c: usize, t: TypeInfo) -> Result<T, ResolveErrorKind> {
    let v = get_transient(tree, c, &t)?.downcast::<T>().unwrap();
    Ok(Arc::into_inner(v).unwrap())
}

#[test]
fn container_test_transient_get() {
    let mut registry = new_registry();
    provide(&mut registry, ti_t1(), DefaultScope::App, |_, _| ok(RequestTransient1), None);
    provide(&mut registry, ti_t2(), DefaultScope::Request, |t, c| ok(RequestTransient2(transient(t, c, ti_t1())?)), None);
    provide(
        &mut registry,
        ti_t3(),
        DefaultScope::Request,
        |t, c| ok(RequestTransient3(transient(t, c, ti_t1())?, transient(t, c, ti_t2())?)),
        None,
    );
    let (mut tree, app) = ContainerTree::new(registry);
    let request = tree.enter(app).with_scope(DefaultScope::Request).build(&mut tree).unwrap();

    assert!(get_transient(&mut tree, app, &ti_t1()).is_ok());
    assert!(matches!(
        get_transient(&mut tree, app, &ti_t2()),
        Err(ResolveErrorKind::NoAccessible { expected_scope_data: _, actual_scope_data: _ }),
    ));
    assert!(matches!(
        get_transient(&mut tree, app, &ti_t3()),
        Err(ResolveErrorKind::NoAccessible { expected_scope_data: _, actual_scope_data: _ }),
    ));

    assert!(get_transient(&mut tree, request, &ti_t1()).is_ok());
    assert!(get_transient(&mut tree, request, &ti_t2()).is_ok());
    assert!(get_transient(&mut tree, request, &ti_t3()).is_ok());
}

fn ti_1() -> TypeInfo {
    TypeInfo::new::<()>("()")
}
fn ti_2() -> TypeInfo {
    TypeInfo::new::<((), ())>("((), ())")
}
fn ti_3() -> TypeInfo {
    TypeInfo::new::<((), (), ())>("((), (), ())")
}
fn ti_4() -> TypeInfo {
    TypeInfo::new::<((), (), (), ())>("((), (), (), ())")
}
fn ti_5() -> TypeInfo {
    TypeInfo::new::<((), (), (), (), ())>("((), (), (), (), ())")
}
fn ti_6() -> TypeInfo {
    TypeInfo::new::<((), (), (), (), (), ())>("((), (), (), (), (), ())")
}

fn hierarchy_registry() -> Registry<Inst, Fin> {
    let mut registry = new_registry();
    provide(&mut registry, ti_1(), DefaultScope::Runtime, |_, _| ok(()), None);
    provide(&mut registry, ti_2(), DefaultScope::App, |_, _| ok(((), ())), None);
    provide(&mut registry, ti_3(), DefaultScope::Session, |_, _| ok(((), (), ())), None);
    provide(&mut registry, ti_4(), DefaultScope::Request, |_, _| ok(((), (), (), ())), None);
    provide(&mut registry, ti_5(), DefaultScope::Action, |_, _| ok(((), (), (), (), ())), None);
    provide(&mut registry, ti_6(), DefaultScope::Step, |_, _| ok(((), (), (), (), (), ())), None);
    registry
}

#[test]
fn container_test_scope_hierarchy() {
    let (mut tree, app) = ContainerTree::new(hierarchy_registry());
    let request = tree.enter_build(app, None).unwrap();
    let action = tree.enter_build(request, None).unwrap();
    let step = tree.enter_build(action, None).unwrap();

    let app_inner = tree.inner(app);
    let request_inner = tree.inner(request);
    let action_inner = tree.inner(action);
    let step_inner = tree.inner(step);

    // Runtime scope is skipped by default, but it is still present in the parent
    assert_eq!(tree.inner(app_inner.parent.unwrap()).scope_data.priority, DefaultScope::Runtime.priority());
    assert_eq!(app_inner.child_scopes_data.len(), 4);
    assert_eq!(app_inner.scope_data.priority, DefaultScope::App.priority());

    // Session scope is skipped by default, but it is still present in the child registries
    assert_eq!(tree.inner(request_inner.parent.unwrap()).scope_data.priority, DefaultScope::Session.priority());
    assert_eq!(request_inner.child_scopes_data.len(), 2);
    assert_eq!(request_inner.scope_data.priority, DefaultScope::Request.priority());
    // Session scope is skipped by default, so it is not the first child registry
    assert_eq!(request_inner.scope_data.priority, app_inner.child_scopes_data[1].priority);
    assert_eq!(action_inner.scope_data.priority, request_inner.child_scopes_data[0].priority);

    assert_eq!(action_inner.child_scopes_data.len(), 1);
    assert_eq!(action_inner.scope_data.priority, DefaultScope::Action.priority());

    assert_eq!(step_inner.child_scopes_data.len(), 0);
    assert_eq!(step_inner.scope_data.priority, DefaultScope::Step.priority());
    assert_eq!(step_inner.scope_data.priority, action_inner.child_scopes_data[0].priority);
}

#[test]
fn container_test_scope_with_hierarchy() {
    let (mut tree, runtime) = ContainerTree::new_with_start_scope(hierarchy_registry(), DefaultScope::Runtime.priority());
    let app = tree.enter(runtime).with_scope(DefaultScope::App).build(&mut tree).unwrap();
    let session = tree.enter(runtime).with_scope(DefaultScope::Session).build(&mut tree).unwrap();
    let request = tree.enter(app).with_scope(DefaultScope::Request).build(&mut tree).unwrap();
    let action = tree.enter(request).with_scope(DefaultScope::Action).build(&mut tree).unwrap();
    let step = tree.enter(action).with_scope(DefaultScope::Step).build(&mut tree).unwrap();

    let runtime_inner = tree.inner(runtime);
    let app_inner = tree.inner(app);
    let session_inner = tree.inner(session);
    let request_inner = tree.inner(request);
    let action_inner = tree.inner(action);
    let step_inner = tree.inner(step);

    assert!(runtime_inner.parent.is_none());
    assert_eq!(runtime_inner.child_scopes_data.len(), 5);
    assert_eq!(runtime_inner.scope_data.priority, DefaultScope::Runtime.priority());
    assert_eq!(app_inner.scope_data.priority, runtime_inner.child_scopes_data[0].priority);

    assert_eq!(app_inner.child_scopes_data.len(), 4);
    assert_eq!(app_inner.scope_data.priority, DefaultScope::App.priority());
    assert_eq!(session_inner.scope_data.priority, app_inner.child_scopes_data[0].priority);

    assert_eq!(session_inner.child_scopes_data.len(), 3);
    assert_eq!(session_inner.scope_data.priority, DefaultScope::Session.priority());
    assert_eq!(request_inner.scope_data.priority, session_inner.child_scopes_data[0].priority);

    assert_eq!(request_inner.child_scopes_data.len(), 2);
    assert_eq!(request_inner.scope_data.priority, DefaultScope::Request.priority());
    assert_eq!(action_inner.scope_data.priority, request_inner.child_scopes_data[0].priority);

    assert_eq!(action_inner.child_scopes_data.len(), 1);
    assert_eq!(action_inner.scope_data.priority, DefaultScope::Action.priority());
    assert_eq!(step_inner.scope_data.priority, action_inner.child_scopes_data[0].priority);

    assert_eq!(step_inner.child_scopes_data.len(), 0);
    assert_eq!(step_inner.scope_data.priority, DefaultScope::Step.priority());
}

fn count(calls: &[&'static str], name: &str) -> usize {
    calls.iter().filter(|c| **c == name).count()
}

fn position(calls: &[&'static str], name: &str) -> usize {
    calls.iter().position(|c| *c == name).map_or(0, |p| p + 1)
}

fn fin(name: &'static str, log: &Arc<Mutex<Vec<&'static str>>>) -> Option<Fin> {
    Some(Fin { name, log: log.clone() })
}

fn finalizer_registry(with_fourth: bool, log: &Arc<Mutex<Vec<&'static str>>>) -> Registry<Inst, Fin> {
    let mut registry = new_registry();
    provide(&mut registry, ti_1(), DefaultScope::Runtime, |_, _| ok(()), fin("finalizer 1", log));
    provide(&mut registry, ti_2(), DefaultScope::App, |_, _| ok(((), ())), fin("finalizer 2", log));
    provide(&mut registry, ti_4(), DefaultScope::Request, |_, _| ok(((), (), (), ())), fin("finalizer 3", log));
    if with_fourth {
        provide(&mut registry, ti_5(), DefaultScope::Request, |_, _| ok(((), (), (), (), ())), fin("finalizer 4", log));
    }
    registry
}

fn new_log() -> Arc<Mutex<Vec<&'static str>>> {
    Arc::new(Mutex::new(Vec::new()))
}

#[test]
fn container_test_close_for_unresolved() {
    let log = new_log();
    let (mut tree, app) = ContainerTree::new(finalizer_registry(false, &log));
    let request = tree.enter(app).with_scope(DefaultScope::Request).build(&mut tree).unwrap();

    tree.close_and_finalize(request);
    tree.close_and_finalize(app);
    let calls = log.lock().unwrap().clone();

    assert_eq!(count(&calls, "finalizer 1"), 0);
    assert_eq!(count(&calls, "finalizer 2"), 0);
    assert_eq!(count(&calls, "finalizer 3"), 0);
}

#[test]
fn container_test_close_for_resolved() {
    let log = new_log();
    let (mut tree, app) = ContainerTree::new(finalizer_registry(true, &log));
    let request = tree.enter(app).with_scope(DefaultScope::Request).build(&mut tree).unwrap();

    let _ = get(&mut tree, request, &ti_1()).unwrap();
    let _ = get(&mut tree, request, &ti_2()).unwrap();
    let _ = get(&mut tree, request, &ti_5()).unwrap();
    let _ = get(&mut tree, request, &ti_4()).unwrap();

    let runtime = tree.inner(app).parent.unwrap();
    let runtime_container_resolved_set_count = tree.inner(runtime).cache.resolved.0.len();
    let app_container_resolved_set_count = tree.inner(app).cache.resolved.0.len();
    let request_container_resolved_set_count = tree.inner(request).cache.resolved.0.len();

    tree.close_and_finalize(request);
    let calls = log.lock().unwrap().clone();

    assert_eq!(runtime_container_resolved_set_count, 1);
    assert_eq!(app_container_resolved_set_count, 1);
    assert_eq!(request_container_resolved_set_count, 2);

    assert_eq!(count(&calls, "finalizer 1"), 0);
    assert_eq!(position(&calls, "finalizer 1"), 0);
    assert_eq!(count(&calls, "finalizer 2"), 0);
    assert_eq!(position(&calls, "finalizer 2"), 0);
    assert_eq!(count(&calls, "finalizer 3"), 1);
    assert_eq!(position(&calls, "finalizer 3"), 1);
    assert_eq!(count(&calls, "finalizer 4"), 1);
    assert_eq!(position(&calls, "finalizer 4"), 2);

    tree.close_and_finalize(app);
    let calls = log.lock().unwrap().clone();

    assert_eq!(count(&calls, "finalizer 1"), 1);
    assert_eq!(position(&calls, "finalizer 1"), 4);
    assert_eq!(count(&calls, "finalizer 2"), 1);
    assert_eq!(position(&calls, "finalizer 2"), 3);
    assert_eq!(count(&calls, "finalizer 3"), 1);
    assert_eq!(position(&calls, "finalizer 3"), 1);
    assert_eq!(count(&calls, "finalizer 4"), 1);
    assert_eq!(position(&calls, "finalizer 4"), 2);
}

#[test]
fn closing_again_finalizes_nothing() {
    let (mut tree, app) = ContainerTree::new(finalizer_registry(true, &new_log()));
    let _ = get(&mut tree, app, &ti_2()).unwrap();
    assert_eq!(tree.close(app).len(), 1);
    assert_eq!(tree.close(app).len(), 0);
}

#[test]
fn get_after_get_is_cached() {
    let (mut tree, app) = ContainerTree::new(finalizer_registry(false, &new_log()));
    let first = get(&mut tree, app, &ti_2()).unwrap().downcast::<((), ())>().unwrap();
    let second = get(&mut tree, app, &ti_2()).unwrap().downcast::<((), ())>().unwrap();
    assert!(Arc::ptr_eq(&first, &second));
    assert!(matches!(tree.resolve(app, &ti_2()), ResolveStep::Cached(_)));
}

#[test]
fn transient_get_is_never_cached() {
    let (mut tree, app) = ContainerTree::new(finalizer_registry(false, &new_log()));
    let _ = get_transient(&mut tree, app, &ti_2()).unwrap();
    assert!(matches!(tree.resolve(app, &ti_2()), ResolveStep::Instantiate(_)));
    assert!(matches!(tree.resolve_transient(app, &ti_2()), ResolveStep::Instantiate(_)));
}

#[test]
fn unknown_type_has_no_instantiator() {
    let (tree, app) = ContainerTree::new(finalizer_registry(false, &new_log()));
    assert!(matches!(tree.resolve(app, &ti_6()), ResolveStep::Failed(ResolveErrorKind::NoInstantiator { .. })));
}

#[test]
fn wider_scope_delegates_to_its_container() {
    let (mut tree, app) = ContainerTree::new(finalizer_registry(false, &new_log()));
    let request = tree.enter_build(app, None).unwrap();
    let runtime = tree.inner(app).parent.unwrap();
    assert!(matches!(tree.resolve(request, &ti_2()), ResolveStep::Delegate(c) if c == app));
    assert!(matches!(tree.resolve(request, &ti_1()), ResolveStep::Delegate(c) if c == runtime));
}

#[test]
fn enter_build_past_the_last_scope_fails() {
    let (mut tree, app) = ContainerTree::new(finalizer_registry(false, &new_log()));
    let step = tree.enter(app).with_scope(DefaultScope::Step).build(&mut tree).unwrap();
    assert!(tree.enter_build(step, None).is_err());
    let action = tree.inner(step).parent.unwrap();
    assert!(tree.enter(action).with_scope(DefaultScope::App).build(&mut tree).is_err());
}

#[test]
fn delegated_value_is_cached_in_the_asking_container() {
    let (mut tree, app) = ContainerTree::new(finalizer_registry(false, &new_log()));
    let request = tree.enter_build(app, None).unwrap();
    let v = get(&mut tree, request, &ti_2()).unwrap().downcast::<((), ())>().unwrap();
    assert!(matches!(tree.resolve(request, &ti_2()), ResolveStep::Cached(_)));
    let w = get(&mut tree, app, &ti_2()).unwrap().downcast::<((), ())>().unwrap();
    assert!(Arc::ptr_eq(&v, &w));
}

#[test]
fn failing_dependency_is_reported_through_the_instantiator() {
    let mut registry = finalizer_registry(false, &new_log());
    provide(&mut registry, ti_3(), DefaultScope::App, |t, c| get(t, c, &ti_6()), None);
    let (mut tree, app) = ContainerTree::new(registry);
    match get(&mut tree, app, &ti_3()) {
        Err(ResolveErrorKind::Instantiator(InstantiatorErrorKind::Deps(inner))) => {
            assert!(matches!(*inner, ResolveErrorKind::NoInstantiator { .. }));
        },
        _ => panic!("the dependency's error was expected"),
    }
    assert!(matches!(tree.resolve(app, &ti_3()), ResolveStep::Instantiate(_)));
}

#[test]
fn uncached_instantiator_builds_anew_each_time() {
    let mut registry = new_registry();
    registry.provide(
        ti_2(),
        InstantiatorData {
            instantiator: Inst(|_, _| ok(((), ()))),
            dependencies: Vec::new(),
            finalizer: None,
            config: Config { cache_provides: false },
            scope_data: ScopeData::of(&DefaultScope::App),
        },
    );
    let (mut tree, app) = ContainerTree::new(registry);
    let v = get(&mut tree, app, &ti_2()).unwrap().downcast::<((), ())>().unwrap();
    let w = get(&mut tree, app, &ti_2()).unwrap().downcast::<((), ())>().unwrap();
    assert!(!Arc::ptr_eq(&v, &w));
}

#[test]
fn start_needs_two_scopes_one_unskipped_and_known_scopes() {
    let log = new_log();
    assert!(froodi::can_start(&finalizer_registry(true, &log)));
    assert!(froodi::can_start_at(&finalizer_registry(true, &log), DefaultScope::Runtime.priority()));
    assert!(!froodi::can_start_at(&finalizer_registry(true, &log), 7));

    let single: Registry<Inst, Fin> = Registry::new(
        froodi::TypeMap::new(),
        vec![ScopeData::of(&DefaultScope::App)],
        TypeInfo::new::<ContainerHandle>("container::ContainerHandle"),
        Inst(container_instantiator),
    );
    assert!(!froodi::can_start(&single));
    assert!(froodi::can_start_at(&single, DefaultScope::App.priority()));

    let skipped: Registry<Inst, Fin> = Registry::new(
        froodi::TypeMap::new(),
        vec![ScopeData::of(&DefaultScope::Runtime), ScopeData::of(&DefaultScope::Session)],
        TypeInfo::new::<ContainerHandle>("container::ContainerHandle"),
        Inst(container_instantiator),
    );
    assert!(!froodi::can_start(&skipped));

    let mut stray = new_registry();
    stray.provide(
        ti_2(),
        InstantiatorData {
            instantiator: Inst(|_, _| ok(((), ()))),
            dependencies: Vec::new(),
            finalizer: None,
            config: Config::default(),
            scope_data: ScopeData { name: "Elsewhere", priority: 42, is_skipped_by_default: false },
        },
    );
    assert!(!froodi::entries_fit_scopes(&stray));
    assert!(!froodi::can_start(&stray));
    assert!(froodi::entries_fit_scopes(&new_registry()));
}

#[test]
fn container_knows_its_scope_and_the_narrower_ones() {
    let (tree, app) = ContainerTree::new(finalizer_registry(false, &new_log()));
    let s = tree.inner(app).get_scope_with_child_scopes();
    assert_eq!(s.scope_data.unwrap().priority, DefaultScope::App.priority());
    let children: Vec<u8> = s.child_scopes_data.iter().map(|d| d.priority).collect();
    assert_eq!(children, vec![2, 3, 4, 5]);
}

#[test]
fn wider_scope_value_is_kept_for_finalization_in_its_own_container() {
    let (mut tree, app) = ContainerTree::new(finalizer_registry(true, &new_log()));
    let request = tree.enter_build(app, None).unwrap();
    let _ = get(&mut tree, request, &ti_2()).unwrap();
    assert_eq!(tree.inner(app).cache.resolved.0.len(), 1);
    assert_eq!(tree.inner(request).cache.resolved.0.len(), 0);
    assert!(matches!(tree.resolve(app, &ti_2()), ResolveStep::Cached(_)));
}

#[test]
fn with_scope_keeps_the_scope_asked_for() {
    let (tree, app) = ContainerTree::new(finalizer_registry(false, &new_log()));
    let b = tree.enter(app).with_scope(DefaultScope::Action);
    assert_eq!(b.scope.priority, DefaultScope::Action.priority());
    assert_eq!(b.scope.name, "Action");
    let c = tree.enter(app).with_context(froodi::Context::new()).with_scope(DefaultScope::Step);
    assert_eq!(c.scope.priority, DefaultScope::Step.priority());
}

#[test]
fn async_fallback_only_for_missing_instantiators() {
    assert!(froodi::falls_back_to_sync(&ResolveErrorKind::NoInstantiator { type_info: ti_1() }));
    let s = ScopeData::of(&DefaultScope::App);
    assert!(!froodi::falls_back_to_sync(&ResolveErrorKind::NoAccessible { expected_scope_data: s, actual_scope_data: s }));
    assert!(matches!(
        froodi::instantiator_outcome(Err(ResolveErrorKind::NoInstantiator { type_info: ti_1() })),
        Err(InstantiatorErrorKind::Deps(ResolveErrorKind::NoInstantiator { .. }))
    ));
    assert!(froodi::instantiator_outcome(Ok(Ok(RcAny::erase(Arc::new(()))))).is_ok());
}
