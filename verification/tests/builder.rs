use froodi::{Config, DefaultScope, RegistriesBuilder, ScopeData, TypeInfo};

type Builder = RegistriesBuilder<&'static str, &'static str, &'static str, &'static str>;

fn scope(s: DefaultScope) -> ScopeData {
    ScopeData::of(&s)
}

fn unit() -> TypeInfo {
    TypeInfo::new::<()>("()")
}

fn pair() -> TypeInfo {
    TypeInfo::new::<((), ())>("((), ())")
}

#[test]
fn test_build_empty() {
    let (registries, sync_registries) = Builder::new().build();
    assert!(!registries.is_empty());
    assert!(!sync_registries.is_empty());
}

#[test]
fn test_build_equal_provides() {
    let (registries, sync_registries) = Builder::new()
        .provide(unit(), "sync", scope(DefaultScope::Runtime))
        .provide(unit(), "sync", scope(DefaultScope::Runtime))
        .provide(unit(), "sync", scope(DefaultScope::App))
        .provide(unit(), "sync", scope(DefaultScope::App))
        .provide_async(pair(), "async", scope(DefaultScope::Runtime))
        .provide_async(pair(), "async", scope(DefaultScope::Runtime))
        .provide_async(pair(), "async", scope(DefaultScope::App))
        .provide_async(pair(), "async", scope(DefaultScope::App))
        .build();
    assert_eq!(registries.len(), DefaultScope::all().len());
    assert_eq!(sync_registries.len(), DefaultScope::all().len());

    for registry in registries {
        if registry.scope.priority == 1 {
            assert_eq!(registry.instantiators.len(), 1);
        } else {
            assert_eq!(registry.instantiators.len(), 0);
        }
    }
    for registry in sync_registries {
        if registry.scope.priority == 1 {
            assert_eq!(registry.instantiators.len(), 1);
        } else {
            assert_eq!(registry.instantiators.len(), 0);
        }
    }
}

fn several_scopes() -> Builder {
    Builder::new()
        .provide(TypeInfo::new::<i8>("i8"), "i8", scope(DefaultScope::Runtime))
        .provide(TypeInfo::new::<i16>("i16"), "i16", scope(DefaultScope::Runtime))
        .provide(TypeInfo::new::<i32>("i32"), "i32", scope(DefaultScope::App))
        .provide(TypeInfo::new::<i64>("i64"), "i64", scope(DefaultScope::App))
        .provide_async(TypeInfo::new::<u8>("u8"), "u8", scope(DefaultScope::Runtime))
        .provide_async(TypeInfo::new::<u16>("u16"), "u16", scope(DefaultScope::Runtime))
        .provide_async(TypeInfo::new::<u32>("u32"), "u32", scope(DefaultScope::App))
        .provide_async(TypeInfo::new::<u64>("u64"), "u64", scope(DefaultScope::App))
}

#[test]
fn test_build_several_scopes() {
    let (registries, sync_registries) = several_scopes().build();
    assert_eq!(registries.len(), DefaultScope::all().len());
    assert_eq!(sync_registries.len(), DefaultScope::all().len());

    for registry in registries {
        if registry.scope.priority == 0 || registry.scope.priority == 1 {
            assert_eq!(registry.instantiators.len(), 2);
        } else {
            assert_eq!(registry.instantiators.len(), 0);
        }
    }
    for registry in sync_registries {
        if registry.scope.priority == 0 || registry.scope.priority == 1 {
            assert_eq!(registry.instantiators.len(), 2);
        } else {
            assert_eq!(registry.instantiators.len(), 0);
        }
    }
}

#[test]
fn test_add_finalizer() {
    let (registries, sync_registries) = several_scopes()
        .add_finalizer(TypeInfo::new::<i8>("i8"), "fin i8")
        .add_finalizer(TypeInfo::new::<i32>("i32"), "fin i32")
        .add_async_finalizer(TypeInfo::new::<u8>("u8"), "fin u8")
        .add_async_finalizer(TypeInfo::new::<u32>("u32"), "fin u32")
        .build();

    let i8_type = TypeInfo::new::<i8>("i8");
    let i16_type = TypeInfo::new::<i16>("i16");
    let i32_type = TypeInfo::new::<i32>("i32");
    let i64_type = TypeInfo::new::<i64>("i64");
    let u8_type = TypeInfo::new::<u8>("u8");
    let u16_type = TypeInfo::new::<u16>("u16");
    let u32_type = TypeInfo::new::<u32>("u32");
    let u64_type = TypeInfo::new::<u64>("u64");

    for registry in registries {
        if let Some(data) = registry.instantiators.get(&u8_type) {
            assert!(data.finalizer.is_some());
            continue;
        }
        if let Some(data) = registry.instantiators.get(&u16_type) {
            assert!(data.finalizer.is_none());
            continue;
        }
        if let Some(data) = registry.instantiators.get(&u32_type) {
            assert!(data.finalizer.is_some());
            continue;
        }
        if let Some(data) = registry.instantiators.get(&u64_type) {
            assert!(data.finalizer.is_none());
        }
    }
    for registry in sync_registries {
        if let Some(data) = registry.instantiators.get(&i8_type) {
            assert!(data.finalizer.is_some());
            continue;
        }
        if let Some(data) = registry.instantiators.get(&i16_type) {
            assert!(data.finalizer.is_none());
            continue;
        }
        if let Some(data) = registry.instantiators.get(&i32_type) {
            assert!(data.finalizer.is_some());
            continue;
        }
        if let Some(data) = registry.instantiators.get(&i64_type) {
            assert!(data.finalizer.is_none());
        }
    }
}

#[test]
fn build_orders_registries_by_priority() {
    let (registries, sync_registries) = several_scopes().build();
    let priorities: Vec<u8> = registries.iter().map(|r| r.scope.priority).collect();
    assert_eq!(priorities, vec![0, 1, 2, 3, 4, 5]);
    let skipped: Vec<bool> = sync_registries.iter().map(|r| r.scope.is_skipped_by_default).collect();
    assert_eq!(skipped, vec![true, false, true, false, false, false]);
}

#[test]
fn build_places_instantiators_with_their_finalizers() {
    let (registries, sync_registries) = several_scopes()
        .add_finalizer(TypeInfo::new::<i32>("i32"), "fin i32")
        .add_async_finalizer(TypeInfo::new::<u8>("u8"), "fin u8")
        .build();
    let app = &sync_registries[1];
    let data = app.instantiators.get(&TypeInfo::new::<i32>("i32")).unwrap();
    assert_eq!(data.instantiator, "i32");
    assert_eq!(data.finalizer, Some("fin i32"));
    assert!(data.config.cache_provides);
    let runtime = &registries[0];
    let data = runtime.instantiators.get(&TypeInfo::new::<u8>("u8")).unwrap();
    assert_eq!(data.instantiator, "u8");
    assert_eq!(data.finalizer, Some("fin u8"));
    assert!(runtime.instantiators.get(&TypeInfo::new::<i8>("i8")).is_none());
}

#[test]
fn build_adds_a_registry_for_a_scope_outside_the_builder() {
    let extra = ScopeData { name: "Extra", priority: 9, is_skipped_by_default: false };
    let (registries, sync_registries) = Builder::new_with_scopes(vec![scope(DefaultScope::App)])
        .provide_with_config(unit(), "unit", Config { cache_provides: false }, extra)
        .build();
    assert_eq!(registries.len(), 1);
    assert_eq!(sync_registries.len(), 2);
    assert_eq!(sync_registries[0].scope.priority, 1);
    assert_eq!(sync_registries[1].scope.priority, 9);
    let data = sync_registries[1].instantiators.get(&unit()).unwrap();
    assert!(!data.config.cache_provides);
}

#[test]
fn later_provide_replaces_earlier() {
    let (registries, sync_registries) = Builder::new()
        .provide(unit(), "first", scope(DefaultScope::App))
        .provide_async(unit(), "second", scope(DefaultScope::Request))
        .build();
    assert!(sync_registries.iter().all(|r| r.instantiators.len() == 0));
    let request = &registries[3];
    assert_eq!(request.instantiators.get(&unit()).unwrap().instantiator, "second");
}

#[test]
fn scope_registry_hands_out_its_instantiators() {
    let (_, sync_registries) = several_scopes().add_finalizer(TypeInfo::new::<i8>("i8"), "fin i8").build();
    let runtime = &sync_registries[0];
    assert_eq!(runtime.get_instantiator(&TypeInfo::new::<i16>("i16")), Some(&"i16"));
    assert!(runtime.get_instantiator(&TypeInfo::new::<i32>("i32")).is_none());
    let data = runtime.get_instantiator_data(&TypeInfo::new::<i8>("i8")).unwrap();
    assert_eq!(data.finalizer, Some("fin i8"));
}

#[test]
fn default_builder_has_the_default_scopes() {
    let (registries, _) = Builder::default().build();
    assert_eq!(registries.len(), 6);
    assert!(registries.iter().all(|r| r.instantiators.len() == 0));
}

#[test]
fn each_instantiator_stands_in_exactly_one_registry() {
    let (registries, sync_registries) = several_scopes().build();
    for t in [TypeInfo::new::<u8>("u8"), TypeInfo::new::<u16>("u16"), TypeInfo::new::<u32>("u32"), TypeInfo::new::<u64>("u64")] {
        assert_eq!(registries.iter().filter(|r| r.instantiators.contains_key(&t)).count(), 1);
        assert_eq!(sync_registries.iter().filter(|r| r.instantiators.contains_key(&t)).count(), 0);
    }
    for t in [TypeInfo::new::<i8>("i8"), TypeInfo::new::<i16>("i16"), TypeInfo::new::<i32>("i32"), TypeInfo::new::<i64>("i64")] {
        assert_eq!(sync_registries.iter().filter(|r| r.instantiators.contains_key(&t)).count(), 1);
    }
}

#[test]
fn distinct_scopes_of_one_priority_get_a_registry_each() {
    let first = ScopeData { name: "First", priority: 3, is_skipped_by_default: false };
    let second = ScopeData { name: "Second", priority: 3, is_skipped_by_default: false };
    let wide = ScopeData { name: "Wide", priority: 1, is_skipped_by_default: false };
    let (_, sync_registries) = Builder::new_with_scopes(vec![first, wide, second, first])
        .provide(unit(), "unit", second)
        .provide(pair(), "pair", first)
        .build();
    assert_eq!(sync_registries.len(), 3);
    assert_eq!(sync_registries[0].scope.priority, 1);
    assert_eq!(sync_registries[1].scope.priority, 3);
    assert_eq!(sync_registries[2].scope.priority, 3);
    // Here scopes of equal priority come in the order they were first given.
    assert!(sync_registries[1].instantiators.contains_key(&pair()));
    assert!(sync_registries[2].instantiators.contains_key(&unit()));
    assert_eq!(sync_registries[1].instantiators.len(), 1);
    assert_eq!(sync_registries[2].instantiators.len(), 1);
}
