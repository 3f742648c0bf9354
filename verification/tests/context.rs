use froodi::{Context, TypeInfo};
use std::sync::Arc;

#[derive(Debug, PartialEq, Eq)]
struct Foo(u32);

#[derive(Debug, PartialEq, Eq)]
struct Bar(u32);

fn foo() -> TypeInfo {
    TypeInfo::new::<Foo>("context::Foo")
}
fn bar() -> TypeInfo {
    TypeInfo::new::<Bar>("context::Bar")
}

#[test]
fn new_and_default_are_empty() {
    assert_eq!(Context::new().map.len(), 0);
    assert_eq!(Context::default().map.len(), 0);
}

#[test]
fn insert_returns_previous_and_keeps_one_entry() {
    let mut ctx = Context::new();

    assert!(ctx.insert(foo(), Foo(1)).is_none());
    assert_eq!(ctx.map.len(), 1);

    let prev = ctx.insert(foo(), Foo(2)).expect("previous value expected");
    assert_eq!(*prev, Foo(1));
    assert_eq!(ctx.map.len(), 1);
}

#[test]
fn insert_rc_behaves_like_insert() {
    let mut ctx = Context::new();

    let first = Arc::new(Foo(10));
    assert!(ctx.insert_rc::<Foo>(foo(), first.clone()).is_none());
    assert_eq!(ctx.map.len(), 1);

    let second = Arc::new(Foo(20));
    let prev = ctx.insert_rc::<Foo>(foo(), second).expect("previous value expected");
    assert!(Arc::ptr_eq(&first, &prev));
    assert_eq!(*prev, Foo(10));
    assert_eq!(ctx.map.len(), 1);
}

#[test]
fn different_types_grow_the_map() {
    let mut ctx = Context::new();
    assert!(ctx.insert(foo(), Foo(1)).is_none());
    assert!(ctx.insert(bar(), Bar(2)).is_none());
    assert_eq!(ctx.map.len(), 2);
}

#[test]
fn a_previous_value_of_another_type_is_not_handed_out() {
    let mut ctx = Context::new();
    assert!(ctx.insert(foo(), Foo(1)).is_none());
    // Stored under the same type, but of another type: no value of type `Bar` comes back.
    assert!(ctx.insert(foo(), Bar(2)).is_none());
    assert_eq!(ctx.map.len(), 1);
}
