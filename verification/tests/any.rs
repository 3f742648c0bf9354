use froodi::TypeInfo;
use std::cmp::Ordering;
use std::collections::BTreeMap;
use std::hash::{Hash, Hasher};

struct Foo;
struct Bar;
struct Baz(#[allow(dead_code)] u32);

// The names are those the compiler gives these types in this test crate.
fn foo() -> TypeInfo {
    TypeInfo::new::<Foo>("any::Foo")
}
fn bar() -> TypeInfo {
    TypeInfo::new::<Bar>("any::Bar")
}
fn baz() -> TypeInfo {
    TypeInfo::new::<Baz>("any::Baz")
}

#[test]
fn test_of_same_type_equal() {
    let a = foo();
    let b = foo();

    assert_eq!(a, b);
    assert_eq!(a.cmp(&b), Ordering::Equal);
    assert_eq!(a.partial_cmp(&b), Some(Ordering::Equal));
    assert_eq!(a.id, b.id);
}

#[test]
fn test_of_different_types_not_equal() {
    let a = foo();
    let b = bar();

    assert_ne!(a, b);
    assert_ne!(a.id, b.id);
    assert_ne!(a.cmp(&b), Ordering::Equal);
    assert_eq!(a.cmp(&b), b.cmp(&a).reverse());
}

#[test]
fn test_ord_consistent_with_partial_cmp() {
    let a = foo();
    let b = bar();
    let c = baz();

    for (x, y) in [(&a, &b), (&b, &c), (&a, &c), (&a, &a)] {
        assert_eq!(x.partial_cmp(y), Some(x.cmp(y)));
    }
}

#[test]
fn test_btreemap_key_distinct_types() {
    let mut map = BTreeMap::new();
    map.insert(foo(), 1_u32);
    map.insert(bar(), 2_u32);

    assert_eq!(map.len(), 2);
    assert_eq!(map.get(&foo()), Some(&1));
    assert_eq!(map.get(&bar()), Some(&2));
    assert_eq!(map.get(&baz()), None);
}

#[test]
fn test_btreemap_same_type_overwrites() {
    let mut map = BTreeMap::new();
    map.insert(foo(), 1_u32);
    let previous = map.insert(foo(), 42_u32);

    assert_eq!(previous, Some(1));
    assert_eq!(map.len(), 1);
    assert_eq!(map.get(&foo()), Some(&42));
}

#[test]
fn test_hash_equal_for_equal_values() {
    #[derive(Default)]
    struct CountingHasher(u64);
    impl Hasher for CountingHasher {
        fn finish(&self) -> u64 {
            self.0
        }
        fn write(&mut self, bytes: &[u8]) {
            for &b in bytes {
                self.0 = self.0.wrapping_mul(31).wrapping_add(u64::from(b));
            }
        }
    }

    fn hash_of(ti: &TypeInfo) -> u64 {
        let mut h = CountingHasher::default();
        ti.hash(&mut h);
        h.finish()
    }

    let a = foo();
    let b = foo();
    let c = bar();

    assert_eq!(a, b);
    assert_eq!(hash_of(&a), hash_of(&b));
    assert_ne!(a, c);
}

#[test]
fn test_display_contains_type_name() {
    let display = foo().to_string();
    assert_eq!(display, foo().name);
    assert!(display.contains("Foo"), "display = {display}");
    let other = bar().to_string();
    assert!(other.contains("Bar"), "other = {other}");
    assert_ne!(display, other);
}

#[test]
fn test_of_val_matches_of() {
    let value = Baz(7);
    let from_val = TypeInfo::of_val(&value, "any::Baz");
    let from_type = baz();

    assert_eq!(from_val, from_type);
    assert_eq!(from_val.id, from_type.id);
    assert_eq!(from_val.name, from_type.name);
    assert_ne!(from_val, foo());
}

#[test]
fn test_short_name_is_last_segment() {
    let ti = foo();
    let short = ti.short_name();

    assert!(ti.name.contains("::"), "name = {}", ti.name);
    assert_eq!(short, "Foo");
    assert!(!short.contains("::"), "short = {short}");
    assert!(ti.name.ends_with(short), "name = {}, short = {short}", ti.name);
}

#[test]
fn test_short_name_no_path() {
    let ti = TypeInfo::new::<u32>("u32");
    assert_eq!(ti.name, "u32");
    assert_eq!(ti.short_name(), "u32");
}

#[test]
fn short_name_takes_the_last_separator() {
    assert_eq!(TypeInfo::new::<u8>("a::b::c").short_name(), "c");
    assert_eq!(TypeInfo::new::<u8>("a:::b").short_name(), "b");
    assert_eq!(TypeInfo::new::<u8>("a::").short_name(), "");
    assert_eq!(TypeInfo::new::<u8>(":").short_name(), ":");
    assert_eq!(TypeInfo::new::<u8>("").short_name(), "");
}

#[test]
fn same_type_ignores_the_name() {
    let a = TypeInfo::new::<Foo>("one");
    let b = TypeInfo::new::<Foo>("two");
    assert!(a.same_type(&b));
    assert_eq!(a, b);
    assert!(!a.same_type(&bar()));
}
