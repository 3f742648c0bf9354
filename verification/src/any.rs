use std::any::TypeId;
use std::sync::Arc;
use vstd::prelude::*;

verus! {

#[verifier::external_type_specification]
#[verifier::external_body]
pub struct ExTypeId(TypeId);

/// The identity of a type together with its name.
///
/// Two values denote the same type exactly when their `id`s are equal; the name is
/// informative only.
#[derive(Clone, Copy, Debug, Hash, PartialOrd, Ord)]
pub struct TypeInfo {
    pub id: TypeId,
    pub name: &'static str,
}

/// Whether the two-character separator `::` starts at position `i` of `s`.
pub open spec fn is_path_sep_at(s: Seq<char>, i: int) -> bool {
    0 <= i && i + 1 < s.len() && s[i] == ':' && s[i + 1] == ':'
}

/// The largest `i < k` at which `::` starts in `s`, or `-1` when there is none.
pub open spec fn last_path_sep_before(s: Seq<char>, k: int) -> int
    decreases k,
{
    if k <= 0 {
        -1
    } else if is_path_sep_at(s, k - 1) {
        k - 1
    } else {
        last_path_sep_before(s, k - 1)
    }
}

/// What follows the last `::` in a type path, or the whole path when it holds no `::`.
pub open spec fn spec_short_name(s: Seq<char>) -> Seq<char> {
    let i = last_path_sep_before(s, s.len() as int);
    if i >= 0 {
        s.subrange(i + 2, s.len() as int)
    } else {
        s
    }
}

/// Identifier of the type `T` (calls `std::any::TypeId::of`; nothing is promised of the
/// value, which the compiler chooses per type).
#[verifier::external_body]
fn type_id_of<T: ?Sized + 'static>() -> TypeId {
    TypeId::of::<T>()
}

/// Equality of type identifiers (calls `<TypeId as PartialEq>::eq`, which std documents as
/// "same type"): true exactly when the two identifiers are the same value.
#[verifier::external_body]
fn type_id_eq(a: &TypeId, b: &TypeId) -> (r: bool)
    ensures
        r == (*a == *b),
{
    *a == *b
}

impl PartialEq for TypeInfo {
    fn eq(&self, other: &Self) -> (r: bool) {
        type_id_eq(&self.id, &other.id)
    }
}

impl vstd::std_specs::cmp::PartialEqSpecImpl for TypeInfo {
    open spec fn obeys_eq_spec() -> bool {
        true
    }

    open spec fn eq_spec(&self, other: &Self) -> bool {
        self.id == other.id
    }
}

impl Eq for TypeInfo {
}

impl TypeInfo {
    /// Type information for `T` under a name chosen by the caller.
    pub fn new<T: ?Sized + 'static>(name: &'static str) -> (r: Self)
        ensures
            r.name == name,
    {
        TypeInfo { id: type_id_of::<T>(), name }
    }

    /// Type information for the type of the referenced value, under the given name.
    pub fn of_val<T: ?Sized + 'static>(_val: &T, name: &'static str) -> (r: Self)
        ensures
            r.name == name,
    {
        TypeInfo { id: type_id_of::<T>(), name }
    }

    /// Whether both values denote the same type.
    pub fn same_type(&self, other: &Self) -> (r: bool)
        ensures
            r == (self.id == other.id),
    {
        type_id_eq(&self.id, &other.id)
    }

    /// The last segment of the type's path: what follows the last `::`, or the whole name.
    pub fn short_name(&self) -> (r: &'static str)
        ensures
            r@ == spec_short_name(self.name@),
    {
        let name: &'static str = self.name;
        let len = name.unicode_len();
        if len < 2 {
            proof {
                assert(!is_path_sep_at(name@, len - 1));
                assert(len == 1 ==> !is_path_sep_at(name@, 0));
                assert(last_path_sep_before(name@, 0) == -1);
            }
            return name;
        }
        let mut k: usize = len - 1;
        proof {
            assert(!is_path_sep_at(name@, len - 1));
        }
        // Every start position at or above `k` has been ruled out.
        while k >= 1
            invariant
                len == name@.len(),
                name@ == self.name@,
                k < len,
                last_path_sep_before(name@, len as int) == last_path_sep_before(name@, k as int),
            decreases k,
        {
            let a = name.get_char(k - 1);
            let b = name.get_char(k);
            if a == ':' && b == ':' {
                proof {
                    assert(is_path_sep_at(name@, k - 1));
                    assert(last_path_sep_before(name@, k as int) == k - 1);
                }
                return name.substring_char(k + 1, len);
            }
            k = k - 1;
        }
        name
    }

    /// The type's name as an owned string.
    pub fn to_string(&self) -> (r: String)
        ensures
            r@ == self.name@,
    {
        String::from_str(self.name)
    }
}

/// A shared value whose type has been erased, as the caches and contexts hold them.
///
/// The value is opaque to the proofs: a trait object of `Any` together with `Send` and
/// `Sync` cannot be declared to Verus, so nothing is stated of what a value holds, only
/// that a shared handle is the same value.
#[verifier::external_body]
pub struct RcAny {
    inner: Arc<dyn std::any::Any + Send + Sync>,
}

impl RcAny {
    /// Erases the type of a shared value (an unsizing coercion of `Arc<T>`).
    #[verifier::external_body]
    pub fn erase<T: Send + Sync + 'static>(value: Arc<T>) -> RcAny {
        RcAny { inner: value }
    }

    /// Recovers a shared value of type `T` (calls `Arc::downcast`): `Some` when the value
    /// is of type `T`.
    #[verifier::external_body]
    pub fn downcast<T: Send + Sync + 'static>(self) -> Option<Arc<T>> {
        self.inner.downcast::<T>().ok()
    }

    /// Another handle to the same value (calls `Arc::clone`, which shares the allocation).
    #[verifier::external_body]
    pub fn share(&self) -> (r: RcAny)
        ensures
            r == *self,
    {
        RcAny { inner: Arc::clone(&self.inner) }
    }
}

} // verus!
