//! The three ordering strategies a merge can be built with: the natural total
//! order of the element type, an explicit comparator value, or a derived sort
//! key. Exactly one strategy is fixed per merge instance at construction and
//! used for every comparison it performs.

use vstd::prelude::*;

verus! {

/// A type with a decidable natural total order.
///
/// `le_spec` is the mathematical order; `le` decides it. The three proof
/// obligations make `le_spec` a total order that respects spec equality.
pub trait Ordered: Sized {
    spec fn le_spec(self, other: Self) -> bool;

    proof fn le_total(a: Self, b: Self)
        ensures
            a.le_spec(b) || b.le_spec(a),
    ;

    proof fn le_trans(a: Self, b: Self, c: Self)
        requires
            a.le_spec(b),
            b.le_spec(c),
        ensures
            a.le_spec(c),
    ;

    proof fn le_antisym(a: Self, b: Self)
        requires
            a.le_spec(b),
            b.le_spec(a),
        ensures
            a == b,
    ;

    fn le(&self, other: &Self) -> (r: bool)
        ensures
            r == self.le_spec(*other),
    ;
}

/// The natural order of `T`, as a spec-level relation.
pub open spec fn natural_le<T: Ordered>() -> spec_fn(T, T) -> bool {
    |a: T, b: T| a.le_spec(b)
}

/// The natural order is total (strongly connected) and transitive.
pub proof fn lemma_natural_le_ordering<T: Ordered>()
    ensures
        vstd::relations::strongly_connected(natural_le::<T>()),
        vstd::relations::transitive(natural_le::<T>()),
        vstd::relations::antisymmetric(natural_le::<T>()),
{
    let leq = natural_le::<T>();
    assert forall|a: T, b: T| #[trigger] leq(a, b) || #[trigger] leq(b, a) by {
        T::le_total(a, b);
    }
    assert forall|a: T, b: T, c: T| #[trigger] leq(a, b) && #[trigger] leq(b, c) implies leq(
        a,
        c,
    ) by {
        T::le_trans(a, b, c);
    }
    assert forall|a: T, b: T| #[trigger] leq(a, b) && #[trigger] leq(b, a) implies a == b by {
        T::le_antisym(a, b);
    }
}

/// An explicit comparison strategy: a value that decides a total preorder
/// over `T`. Unlike `Ordered`, distinct elements may compare as equal, so
/// no antisymmetry is demanded.
pub trait Comparator<T>: Sized {
    spec fn le_spec(self, a: T, b: T) -> bool;

    proof fn le_total(&self, a: T, b: T)
        ensures
            self.le_spec(a, b) || self.le_spec(b, a),
    ;

    proof fn le_trans(&self, a: T, b: T, c: T)
        requires
            self.le_spec(a, b),
            self.le_spec(b, c),
        ensures
            self.le_spec(a, c),
    ;

    fn le(&self, a: &T, b: &T) -> (r: bool)
        ensures
            r == self.le_spec(*a, *b),
    ;
}

/// The order a comparator value decides, as a spec-level relation.
pub open spec fn comparator_le<T, C: Comparator<T>>(c: C) -> spec_fn(T, T) -> bool {
    |a: T, b: T| c.le_spec(a, b)
}

/// A comparator's order is total (strongly connected) and transitive.
pub proof fn lemma_comparator_le_ordering<T, C: Comparator<T>>(c: C)
    ensures
        vstd::relations::strongly_connected(comparator_le(c)),
        vstd::relations::transitive(comparator_le(c)),
{
    let leq = comparator_le(c);
    assert forall|a: T, b: T| #[trigger] leq(a, b) || #[trigger] leq(b, a) by {
        c.le_total(a, b);
    }
    assert forall|a: T, b: T, d: T| #[trigger] leq(a, b) && #[trigger] leq(b, d) implies leq(
        a,
        d,
    ) by {
        c.le_trans(a, b, d);
    }
}

/// The natural order of `T`, packaged as a comparator value.
pub struct NaturalComparator;

impl<T: Ordered> Comparator<T> for NaturalComparator {
    open spec fn le_spec(self, a: T, b: T) -> bool {
        a.le_spec(b)
    }

    proof fn le_total(&self, a: T, b: T) {
        T::le_total(a, b);
    }

    proof fn le_trans(&self, a: T, b: T, c: T) {
        T::le_trans(a, b, c);
    }

    fn le(&self, a: &T, b: &T) -> (r: bool) {
        a.le(b)
    }
}

/// The natural order of `T` reversed, so that merges built with it stream
/// descending inputs into one descending output.
pub struct ReverseComparator;

impl<T: Ordered> Comparator<T> for ReverseComparator {
    open spec fn le_spec(self, a: T, b: T) -> bool {
        b.le_spec(a)
    }

    proof fn le_total(&self, a: T, b: T) {
        T::le_total(b, a);
    }

    proof fn le_trans(&self, a: T, b: T, c: T) {
        T::le_trans(c, b, a);
    }

    fn le(&self, a: &T, b: &T) -> (r: bool) {
        b.le(a)
    }
}

/// A derived-key strategy: a value that maps each element to a sort key,
/// and the keys carry the order.
pub trait KeyExtractor<T>: Sized {
    type Key: Ordered;

    spec fn key_spec(self, t: T) -> Self::Key;

    fn key(&self, t: &T) -> (r: Self::Key)
        ensures
            r == self.key_spec(*t),
    ;
}

/// The element order a key extractor derives, as a spec-level relation.
pub open spec fn key_le<T, F: KeyExtractor<T>>(f: F) -> spec_fn(T, T) -> bool {
    |a: T, b: T| f.key_spec(a).le_spec(f.key_spec(b))
}

/// A derived-key order is total (strongly connected) and transitive.
pub proof fn lemma_key_le_ordering<T, F: KeyExtractor<T>>(f: F)
    ensures
        vstd::relations::strongly_connected(key_le(f)),
        vstd::relations::transitive(key_le(f)),
{
    let leq = key_le(f);
    assert forall|a: T, b: T| #[trigger] leq(a, b) || #[trigger] leq(b, a) by {
        F::Key::le_total(f.key_spec(a), f.key_spec(b));
    }
    assert forall|a: T, b: T, d: T| #[trigger] leq(a, b) && #[trigger] leq(b, d) implies leq(
        a,
        d,
    ) by {
        F::Key::le_trans(f.key_spec(a), f.key_spec(b), f.key_spec(d));
    }
}

/// The identity key: each element is its own sort key.
pub struct IdentityKey;

impl<T: Ordered + Copy> KeyExtractor<T> for IdentityKey {
    type Key = T;

    open spec fn key_spec(self, t: T) -> T {
        t
    }

    fn key(&self, t: &T) -> (r: T) {
        *t
    }
}

/// Keys a pair by its first component.
pub struct PairFirstKey;

impl<A: Ordered + Copy, B> KeyExtractor<(A, B)> for PairFirstKey {
    type Key = A;

    open spec fn key_spec(self, t: (A, B)) -> A {
        t.0
    }

    fn key(&self, t: &(A, B)) -> (r: A) {
        t.0
    }
}

impl Ordered for u32 {
    open spec fn le_spec(self, other: Self) -> bool {
        self <= other
    }

    proof fn le_total(a: Self, b: Self) {
    }

    proof fn le_trans(a: Self, b: Self, c: Self) {
    }

    proof fn le_antisym(a: Self, b: Self) {
    }

    fn le(&self, other: &Self) -> (r: bool) {
        *self <= *other
    }
}

impl Ordered for u64 {
    open spec fn le_spec(self, other: Self) -> bool {
        self <= other
    }

    proof fn le_total(a: Self, b: Self) {
    }

    proof fn le_trans(a: Self, b: Self, c: Self) {
    }

    proof fn le_antisym(a: Self, b: Self) {
    }

    fn le(&self, other: &Self) -> (r: bool) {
        *self <= *other
    }
}

impl Ordered for i32 {
    open spec fn le_spec(self, other: Self) -> bool {
        self <= other
    }

    proof fn le_total(a: Self, b: Self) {
    }

    proof fn le_trans(a: Self, b: Self, c: Self) {
    }

    proof fn le_antisym(a: Self, b: Self) {
    }

    fn le(&self, other: &Self) -> (r: bool) {
        *self <= *other
    }
}

impl Ordered for i64 {
    open spec fn le_spec(self, other: Self) -> bool {
        self <= other
    }

    proof fn le_total(a: Self, b: Self) {
    }

    proof fn le_trans(a: Self, b: Self, c: Self) {
    }

    proof fn le_antisym(a: Self, b: Self) {
    }

    fn le(&self, other: &Self) -> (r: bool) {
        *self <= *other
    }
}

impl Ordered for usize {
    open spec fn le_spec(self, other: Self) -> bool {
        self <= other
    }

    proof fn le_total(a: Self, b: Self) {
    }

    proof fn le_trans(a: Self, b: Self, c: Self) {
    }

    proof fn le_antisym(a: Self, b: Self) {
    }

    fn le(&self, other: &Self) -> (r: bool) {
        *self <= *other
    }
}

} // verus!
