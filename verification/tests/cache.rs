use froodi::{Cache, Context, RcAny, Resolved, TypeInfo};
use std::sync::Arc;

#[derive(Debug, PartialEq, Eq)]
struct Foo(u32);

#[derive(Debug, PartialEq, Eq)]
struct Bar(u32);

fn foo() -> TypeInfo {
    TypeInfo::new::<Foo>("cache::Foo")
}
fn bar() -> TypeInfo {
    TypeInfo::new::<Bar>("cache::Bar")
}

fn resolved_of<T: Send + Sync + 'static>(type_info: TypeInfo, value: T) -> Resolved {
    let rc = Arc::new(value);
    Resolved { type_info, dependency: RcAny::erase(rc) }
}

#[test]
fn new_get_insert_and_replace() {
    let mut cache = Cache::new();
    let ti = foo();

    assert!(cache.get::<Foo>(&ti).is_none());

    let first = Arc::new(Foo(1));
    let prev = cache.insert_rc::<Foo>(ti, first.clone());
    assert!(prev.is_none());

    let got = cache.get::<Foo>(&ti).expect("value must be present after insert");
    assert!(Arc::ptr_eq(&first, &got));
    assert_eq!(*got, Foo(1));

    let second = Arc::new(Foo(2));
    let returned = cache.insert_rc::<Foo>(ti, second.clone()).expect("previous value expected");
    assert!(Arc::ptr_eq(&first, &returned));
    assert_eq!(*returned, Foo(1));

    let got2 = cache.get::<Foo>(&ti).expect("replacement must be present");
    assert!(Arc::ptr_eq(&second, &got2));
    assert_eq!(*got2, Foo(2));
}

#[test]
fn child_clones_map_but_not_resolved() {
    let mut parent = Cache::new();
    let ti = foo();
    let value = Arc::new(Foo(7));
    parent.insert_rc::<Foo>(ti, value.clone());

    parent.push_resolved(resolved_of(bar(), Bar(1)));
    assert_eq!(parent.resolved.0.len(), 1);

    let child = parent.child();

    let got = child.get::<Foo>(&ti).expect("child should see parent's cached value");
    assert!(Arc::ptr_eq(&value, &got));

    assert_eq!(child.resolved.0.len(), 0);
    assert_eq!(parent.resolved.0.len(), 1);
}

#[test]
fn extend_context_copies_entries() {
    let mut ctx = Context::new();
    assert!(ctx.insert(bar(), Bar(5)).is_none());

    let mut cache = Cache::new();
    let ti = bar();
    assert!(cache.get::<Bar>(&ti).is_none());

    cache.extend_context(&ctx);

    let got = cache.get::<Bar>(&ti).expect("context entry must be present after extend_context");
    assert_eq!(*got, Bar(5));
}

#[test]
fn push_and_take_resolved_set() {
    let mut cache = Cache::new();
    assert_eq!(cache.resolved.0.len(), 0);

    cache.push_resolved(resolved_of(foo(), Foo(1)));
    cache.push_resolved(resolved_of(bar(), Bar(2)));
    assert_eq!(cache.resolved.0.len(), 2);

    let taken = cache.take_resolved_set();
    assert_eq!(taken.0.len(), 2);
    assert_eq!(cache.resolved.0.len(), 0);

    let taken_again = cache.take_resolved_set();
    assert_eq!(taken_again.0.len(), 0);
}

#[test]
fn extend_context_prefers_the_context() {
    let mut ctx = Context::new();
    ctx.insert(foo(), Foo(2));
    let mut cache = Cache::new();
    cache.insert_rc::<Foo>(foo(), Arc::new(Foo(1)));
    cache.insert_rc::<Bar>(bar(), Arc::new(Bar(3)));
    cache.extend_context(&ctx);
    assert_eq!(*cache.get::<Foo>(&foo()).unwrap(), Foo(2));
    assert_eq!(*cache.get::<Bar>(&bar()).unwrap(), Bar(3));
    assert_eq!(cache.map.len(), 2);
}
