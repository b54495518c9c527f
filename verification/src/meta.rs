//! Descriptive data attached to every node of a graph.
use vstd::prelude::*;
use std::any::TypeId;

verus! {

/// A type whose values may tag a node of a task graph.
pub trait Marker: 'static {}

impl<T: 'static> Marker for T {}

#[verifier::external_type_specification]
#[verifier::external_body]
pub struct ExTypeId(std::any::TypeId);

/// Descriptive data about a node: the type that tags it and that type's short name.
#[derive(Clone, Copy)]
pub struct Meta {
    pub(crate) type_id: TypeId,
    pub(crate) name: &'static str,
}

/// Calls `std::any::TypeId::of::<T>()`, the identifier of `T`. Nothing is stated
/// of the result: it depends on the type argument alone, which no spec function
/// of this crate can take.
#[verifier::external_body]
pub(crate) fn type_id_of<T: ?Sized + 'static>() -> TypeId {
    TypeId::of::<T>()
}

/// Whether two type identifiers are equal. Calls `<TypeId as PartialEq>::eq`,
/// which the documentation of `TypeId` gives as equality of the identifiers.
#[verifier::external_body]
pub(crate) fn same_type(a: &TypeId, b: &TypeId) -> (r: bool)
    ensures
        r == (*a == *b),
{
    *a == *b
}

pub proof fn lemma_push_contains_type(t: Seq<TypeId>, y: TypeId, x: TypeId)
    ensures
        t.push(y).contains(x) <==> t.contains(x) || x == y,
{
    if t.push(y).contains(x) && x != y {
        let k = choose|k: int| 0 <= k < t.push(y).len() && t.push(y)[k] == x;
        assert(t[k] == x);
    }
    if t.contains(x) {
        let k = choose|k: int| 0 <= k < t.len() && t[k] == x;
        assert(t.push(y)[k] == x);
    }
    if x == y {
        assert(t.push(y)[t.len() as int] == x);
    }
}

/// `s` holds the separator `::` starting at char position `i`.
pub open spec fn separator_at(s: Seq<char>, i: int) -> bool {
    0 <= i && i + 1 < s.len() && s[i] == ':' && s[i + 1] == ':'
}

/// The part of a type path after its last `::` separator, or the whole path when
/// it holds none.
pub open spec fn short_name(s: Seq<char>) -> Seq<char> {
    if exists|i: int| separator_at(s, i) {
        let i = choose|i: int| separator_at(s, i) && forall|j: int| separator_at(s, j) ==> j <= i;
        s.subrange(i + 2, s.len() as int)
    } else {
        s
    }
}

/// The short name of a type path: what follows its last `::`.
pub fn short_type_name(path: &'static str) -> (r: &'static str)
    ensures
        r@ == short_name(path@),
{
    let len = path.unicode_len();
    let mut last: Option<usize> = None;
    let mut i: usize = 0;
    while len > 0 && i < len - 1
        invariant
            len == path@.len(),
            i <= len || len == 0,
            last matches Some(k) ==> separator_at(path@, k as int) && k < i,
            last matches Some(k) ==> forall|j: int| separator_at(path@, j) && j < i ==> j <= k,
            last is None ==> forall|j: int| separator_at(path@, j) ==> j >= i,
        decreases len - i,
    {
        if path.get_char(i) == ':' && path.get_char(i + 1) == ':' {
            last = Some(i);
        }
        i += 1;
    }
    match last {
        Some(k) => {
            proof {
                let c = choose|c: int|
                    separator_at(path@, c) && forall|j: int| separator_at(path@, j) ==> j <= c;
                assert(separator_at(path@, k as int) && forall|j: int|
                    separator_at(path@, j) ==> j <= k);
                assert(c == k);
            }
            path.substring_char(k + 2, len)
        },
        None => path,
    }
}

impl Meta {
    /// The identifier of the type that tags the node.
    pub closed spec fn type_key(&self) -> TypeId {
        self.type_id
    }

    /// The short name of the type that tags the node.
    pub closed spec fn label(&self) -> Seq<char> {
        self.name@
    }

    /// The metadata of type `T`, whose full path `path` is as
    /// `std::any::type_name::<T>()` gives it.
    pub fn new<T: Marker>(path: &'static str) -> (m: Meta)
        ensures
            m.label() == short_name(path@),
    {
        Meta { type_id: type_id_of::<T>(), name: short_type_name(path) }
    }

    pub fn type_id(&self) -> (r: &TypeId)
        ensures
            *r == self.type_key(),
    {
        &self.type_id
    }

    /// The short name of the type that tags the node.
    pub fn name(&self) -> (r: &'static str)
        ensures
            r@ == self.label(),
    {
        self.name
    }
}

} // verus!
