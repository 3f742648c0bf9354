use froodi::{
    AutoRegistries, AutoRegistriesWithSync, Config, DefaultScope, Dependency, InstantiatorData, Registry, RegistryWithSync, Scope, ScopeData, TypeInfo,
    ValidationErrorKind,
};

struct Container;

fn container() -> TypeInfo {
    TypeInfo::new::<Container>("registry::Container")
}

fn default_registry() -> Registry<&'static str, ()> {
    Registry::new_with_default_entries(container(), "container")
}

fn data(deps: &[TypeInfo], scope: DefaultScope) -> InstantiatorData<&'static str, ()> {
    InstantiatorData {
        instantiator: "inst",
        dependencies: deps.iter().map(|t| Dependency { type_info: *t }).collect(),
        finalizer: None,
        config: Config::default(),
        scope_data: ScopeData::of(&scope),
    }
}

#[test]
fn test_registry_empty_scope() {
    let registry = RegistryWithSync { registry: default_registry(), sync: default_registry() };

    assert_eq!(registry.registry.entries.len(), 1);
    assert_eq!(registry.sync.entries.len(), 1);
}

#[test]
fn test_registry_get() {
    let a = TypeInfo::new::<()>("()");
    let b = TypeInfo::new::<((), ())>("((), ())");
    let c = TypeInfo::new::<((), (), ())>("((), (), ())");
    let d = TypeInfo::new::<((), (), (), ())>("((), (), (), ())");
    let e = TypeInfo::new::<((), (), (), (), ())>("((), (), (), (), ())");
    let f = TypeInfo::new::<((), (), (), (), (), ())>("((), (), (), (), (), ())");
    let g = TypeInfo::new::<((), (), (), (), (), (), ())>("((), (), (), (), (), (), ())");
    let mut registry = default_registry();
    for (t, s) in [
        (a, DefaultScope::Session),
        (b, DefaultScope::Session),
        (c, DefaultScope::Session),
        (d, DefaultScope::Request),
        (e, DefaultScope::Request),
        (f, DefaultScope::Request),
    ] {
        registry.provide(t, data(&[], s));
    }
    let sync = default_registry();

    assert_eq!(registry.entries.len(), 7);
    assert_eq!(sync.entries.len(), 1);

    assert!(registry.get(&a).is_some());
    assert!(registry.get(&b).is_some());
    assert!(registry.get(&c).is_some());
    assert!(registry.get(&d).is_some());
    assert!(registry.get(&e).is_some());
    assert!(registry.get(&f).is_some());
    assert!(registry.get(&g).is_none());
}

struct A;
struct B;
struct C;

fn a() -> TypeInfo {
    TypeInfo::new::<A>("registry::A")
}
fn b() -> TypeInfo {
    TypeInfo::new::<B>("registry::B")
}
fn c() -> TypeInfo {
    TypeInfo::new::<C>("registry::C")
}

#[test]
fn test_registry_dfs_detect_ok() {
    let mut registry = default_registry();
    registry.provide(a(), data(&[], DefaultScope::App));
    registry.provide(b(), data(&[a()], DefaultScope::Session));
    registry.provide(c(), data(&[b(), a()], DefaultScope::Request));
    let sync = default_registry();

    registry.dfs_detect().unwrap();

    assert_eq!(registry.entries.len(), 4);
    assert_eq!(sync.entries.len(), 1);
}

#[test]
#[should_panic]
fn test_registry_dfs_detect_single() {
    let mut registry = default_registry();
    registry.provide(a(), data(&[a()], DefaultScope::App));
    RegistryWithSync { registry, sync: default_registry() }.dfs_detect().unwrap();
}

#[test]
#[should_panic]
fn test_registry_dfs_detect_many() {
    let mut registry = default_registry();
    registry.provide(a(), data(&[b()], DefaultScope::App));
    registry.provide(b(), data(&[a()], DefaultScope::Session));
    RegistryWithSync { registry, sync: default_registry() }.dfs_detect().unwrap();
}

#[test]
fn dfs_reports_the_walk_that_closes_a_cycle() {
    let mut registry = default_registry();
    registry.provide(a(), data(&[b()], DefaultScope::App));
    registry.provide(b(), data(&[c()], DefaultScope::App));
    registry.provide(c(), data(&[b()], DefaultScope::App));
    match registry.dfs_detect() {
        Err(ValidationErrorKind::CyclicDependency { graph: (first, rest) }) => {
            let mut walk = vec![first];
            walk.extend(rest);
            // The walk runs along dependencies and its last type depends on one in it.
            assert!(walk.len() >= 2);
            assert!(walk.contains(&b()) && walk.contains(&c()));
        },
        _ => panic!("a cycle was expected"),
    }
}

#[test]
fn dependencies_without_instantiator_are_not_followed() {
    let mut registry = default_registry();
    registry.provide(a(), data(&[b()], DefaultScope::App));
    assert!(registry.dfs_detect().is_ok());
}

#[test]
fn default_entries_hold_the_container_in_the_last_scope() {
    let registry = default_registry();
    let entry = registry.get(&container()).unwrap();
    assert_eq!(entry.instantiator, "container");
    assert_eq!(entry.scope_data.priority, DefaultScope::Step.priority());
    assert!(entry.config.cache_provides);
    assert!(entry.finalizer.is_none());
    assert_eq!(registry.scopes_data.len(), 6);
}

#[test]
fn scopes_are_sorted_widest_first() {
    let mut registry: Registry<&'static str, ()> = Registry::new(
        froodi::TypeMap::new(),
        vec![
            ScopeData::of(&DefaultScope::Request),
            ScopeData::of(&DefaultScope::Runtime),
            ScopeData::of(&DefaultScope::App),
        ],
        container(),
        "container",
    );
    registry.provide(a(), data(&[], DefaultScope::App));
    let s = registry.get_scope_with_child_scopes();
    assert_eq!(s.scope_data.unwrap().priority, 0);
    let children: Vec<u8> = s.child_scopes_data.iter().map(|d| d.priority).collect();
    assert_eq!(children, vec![1, 3]);
    let next = s.child();
    assert_eq!(next.scope_data.unwrap().priority, 1);
    assert_eq!(next.child_scopes_data.len(), 1);
}

#[test]
fn cycle_message_lists_the_walk() {
    let e = ValidationErrorKind::CyclicDependency { graph: (a(), vec![b(), c()]) };
    assert_eq!(
        e.message(),
        "Cyclic dependency detected:\nA \n↳ depends on B (registry::B)\n↳ depends on C (registry::C)\n ↳ depends on A (registry::A)\n"
    );
}

#[test]
fn unreachable_message_names_both_scopes() {
    let e = ValidationErrorKind::UnreachableDependency {
        dependent: a(),
        dependent_scope: ScopeData::of(&DefaultScope::App),
        dependency: b(),
        dependency_scope: ScopeData { name: "Wide", priority: 120, is_skipped_by_default: false },
    };
    assert_eq!(
        e.message(),
        "Unreachable dependency: `A` (scope `App`, priority 1) depends on `B` (scope `Wide`, priority 120), \
         which is a narrower scope and can never be resolved from it. A dependency must live in an equal or wider scope."
    );
}

fn tuple(n: usize) -> TypeInfo {
    match n {
        1 => TypeInfo::new::<()>("()"),
        2 => TypeInfo::new::<((), ())>("((), ())"),
        3 => TypeInfo::new::<((), (), ())>("((), (), ())"),
        4 => TypeInfo::new::<((), (), (), ())>("((), (), (), ())"),
        5 => TypeInfo::new::<((), (), (), (), ())>("((), (), (), (), ())"),
        _ => TypeInfo::new::<((), (), (), (), (), ())>("((), (), (), (), (), ())"),
    }
}

fn registry_with(provides: &[(usize, DefaultScope)]) -> RegistryWithSync<&'static str, (), &'static str, ()> {
    let mut registry = default_registry();
    for (n, scope) in provides {
        registry.provide(tuple(*n), data(&[], *scope));
    }
    RegistryWithSync { registry, sync: default_registry() }
}

#[test]
fn test_registry_entries_in_scope() {
    let app = DefaultScope::App;
    let registry = registry_with(&[(1, app), (2, app), (3, app), (4, app), (5, app)]);

    assert_eq!(registry.registry.entries.len(), 6);
    assert_eq!(registry.sync.entries.len(), 1);
}

#[test]
fn test_registry_entries_with_scope() {
    let app = DefaultScope::App;
    let registry = registry_with(&[(1, app), (2, app), (3, app), (4, app), (5, app)]);

    assert_eq!(registry.registry.entries.len(), 6);
    assert_eq!(registry.sync.entries.len(), 1);
}

#[test]
fn test_registry_entries_in_scope_multiple_scopes() {
    let (app, request) = (DefaultScope::App, DefaultScope::Request);
    let registry = registry_with(&[(1, app), (2, app), (3, request), (4, request)]);

    assert_eq!(registry.registry.entries.len(), 5);
    assert_eq!(registry.sync.entries.len(), 1);
}

#[test]
fn test_registry_entries_with_scope_multiple_scopes() {
    let (app, request) = (DefaultScope::App, DefaultScope::Request);
    let registry = registry_with(&[(1, app), (2, app), (3, request), (4, request)]);

    assert_eq!(registry.registry.entries.len(), 5);
    assert_eq!(registry.sync.entries.len(), 1);
}

#[test]
fn test_registry_trailing_commas_and_spacing() {
    let (app, request) = (DefaultScope::App, DefaultScope::Request);
    let registry = registry_with(&[(1, app), (2, app), (3, request)]);

    assert_eq!(registry.registry.entries.len(), 4);
    assert_eq!(registry.sync.entries.len(), 1);
}

#[test]
fn test_registry_mixed_entries() {
    let (app, request) = (DefaultScope::App, DefaultScope::Request);
    let registry_a = registry_with(&[(1, request), (1, app), (2, app), (3, app), (4, app), (5, app), (6, app)]);
    let registry_b = registry_with(&[(1, app), (2, app), (3, app), (4, app), (5, app), (6, app), (1, request)]);

    assert_eq!(registry_a.registry.entries.len(), 7);
    assert_eq!(registry_a.sync.entries.len(), 1);
    assert_eq!(registry_b.registry.entries.len(), 7);
    assert_eq!(registry_b.sync.entries.len(), 1);
    assert_eq!(registry_a.registry.get(&tuple(1)).unwrap().scope_data.priority, app.priority());
    assert_eq!(registry_b.registry.get(&tuple(1)).unwrap().scope_data.priority, request.priority());
}

fn entries(provides: &[(usize, DefaultScope)]) -> Vec<(TypeInfo, InstantiatorData<&'static str, ()>)> {
    provides.iter().map(|(n, scope)| (tuple(*n), data(&[], *scope))).collect()
}

#[test]
fn test_registry_extend_entries() {
    let (app, session) = (DefaultScope::App, DefaultScope::Session);
    let base = registry_with(&[(1, app), (2, session), (3, app)]);
    let RegistryWithSync { registry, sync } = base.provide_all_with_sync(
        entries(&[(4, app), (5, session), (6, session)]),
        entries(&[(3, app), (2, session)]),
    );

    assert_eq!(registry.entries.len(), 7);
    assert_eq!(sync.entries.len(), 3);
}

#[test]
fn auto_registries_add_their_entries() {
    let app = DefaultScope::App;
    let registry = default_registry().provide_auto_registries(entries(&[(1, app), (2, app)]));
    assert_eq!(registry.entries.len(), 3);
    let both = registry_with(&[]).provide_auto_registries_with_sync(entries(&[(1, app)]), entries(&[(2, app), (3, app)]));
    assert_eq!(both.registry.entries.len(), 2);
    assert_eq!(both.sync.entries.len(), 3);
}

#[test]
fn equal_priorities_keep_their_order() {
    let a = ScopeData { name: "a", priority: 4, is_skipped_by_default: false };
    let b = ScopeData { name: "b", priority: 1, is_skipped_by_default: false };
    let c = ScopeData { name: "c", priority: 4, is_skipped_by_default: true };
    let d = ScopeData { name: "d", priority: 1, is_skipped_by_default: true };
    let s = froodi::ScopeDataWithChildScopesData::new_with_sort(vec![a, b, c, d]);
    let mut names = vec![s.scope_data.unwrap().name];
    names.extend(s.child_scopes_data.iter().map(|x| x.name));
    assert_eq!(names, vec!["b", "d", "a", "c"]);
}

#[test]
fn cycle_report_walks_distinct_registered_names() {
    let mut registry = default_registry();
    registry.provide(a(), data(&[b()], DefaultScope::App));
    registry.provide(b(), data(&[a()], DefaultScope::App));
    match registry.dfs_detect() {
        Err(ValidationErrorKind::CyclicDependency { graph: (first, rest) }) => {
            assert_eq!(first.name, "registry::A");
            assert_eq!(rest.len(), 1);
            assert_eq!(rest[0].name, "registry::B");
        },
        _ => panic!("a cycle was expected"),
    }
}
