use vstd::prelude::*;

verus! {

/// A value type with a total order, as the tree needs it: a spec-level
/// relation `le` with the laws of a total order, an executable three-way
/// comparison that agrees with it, and a way to copy a value out of a node.
pub trait OrderedValue: Sized {
    /// `self` comes before `other` or equals it.
    spec fn le(self, other: Self) -> bool;

    proof fn lemma_reflexive(x: Self)
        ensures
            x.le(x),
    ;

    proof fn lemma_transitive(x: Self, y: Self, z: Self)
        requires
            x.le(y),
            y.le(z),
        ensures
            x.le(z),
    ;

    proof fn lemma_antisymmetric(x: Self, y: Self)
        requires
            x.le(y),
            y.le(x),
        ensures
            x == y,
    ;

    proof fn lemma_total(x: Self, y: Self)
        ensures
            x.le(y) || y.le(x),
    ;

    /// Three-way comparison of `self` against `other`.
    fn compare(&self, other: &Self) -> (c: std::cmp::Ordering)
        ensures
            c == std::cmp::Ordering::Less <==> (self.le(*other) && *self != *other),
            c == std::cmp::Ordering::Equal <==> *self == *other,
            c == std::cmp::Ordering::Greater <==> (other.le(*self) && *self != *other),
    ;

    /// A copy of `self`.
    fn duplicate(&self) -> (r: Self)
        ensures
            r == *self,
    ;
}

/// `a` comes strictly before `b`.
pub open spec fn lt<T: OrderedValue>(a: T, b: T) -> bool {
    a.le(b) && a != b
}

/// Strict order is transitive.
pub proof fn lemma_lt_transitive<T: OrderedValue>(a: T, b: T, c: T)
    requires
        lt(a, b),
        lt(b, c),
    ensures
        lt(a, c),
{
    T::lemma_transitive(a, b, c);
    if a == c {
        T::lemma_antisymmetric(a, b);
    }
}

/// Two distinct values are ordered one way or the other.
pub proof fn lemma_lt_total<T: OrderedValue>(a: T, b: T)
    ensures
        a == b || lt(a, b) || lt(b, a),
{
    T::lemma_total(a, b);
}

/// No value comes strictly before itself, and strict order is asymmetric.
pub proof fn lemma_lt_asymmetric<T: OrderedValue>(a: T, b: T)
    requires
        lt(a, b),
    ensures
        !lt(b, a),
{
    if lt(b, a) {
        T::lemma_antisymmetric(a, b);
    }
}

impl OrderedValue for i32 {
    open spec fn le(self, other: Self) -> bool {
        self <= other
    }

    proof fn lemma_reflexive(x: Self) {
    }

    proof fn lemma_transitive(x: Self, y: Self, z: Self) {
    }

    proof fn lemma_antisymmetric(x: Self, y: Self) {
    }

    proof fn lemma_total(x: Self, y: Self) {
    }

    fn compare(&self, other: &Self) -> (c: std::cmp::Ordering) {
        if *self < *other {
            std::cmp::Ordering::Less
        } else if *self == *other {
            std::cmp::Ordering::Equal
        } else {
            std::cmp::Ordering::Greater
        }
    }

    fn duplicate(&self) -> (r: Self) {
        *self
    }
}

impl OrderedValue for i64 {
    open spec fn le(self, other: Self) -> bool {
        self <= other
    }

    proof fn lemma_reflexive(x: Self) {
    }

    proof fn lemma_transitive(x: Self, y: Self, z: Self) {
    }

    proof fn lemma_antisymmetric(x: Self, y: Self) {
    }

    proof fn lemma_total(x: Self, y: Self) {
    }

    fn compare(&self, other: &Self) -> (c: std::cmp::Ordering) {
        if *self < *other {
            std::cmp::Ordering::Less
        } else if *self == *other {
            std::cmp::Ordering::Equal
        } else {
            std::cmp::Ordering::Greater
        }
    }

    fn duplicate(&self) -> (r: Self) {
        *self
    }
}

impl OrderedValue for u64 {
    open spec fn le(self, other: Self) -> bool {
        self <= other
    }

    proof fn lemma_reflexive(x: Self) {
    }

    proof fn lemma_transitive(x: Self, y: Self, z: Self) {
    }

    proof fn lemma_antisymmetric(x: Self, y: Self) {
    }

    proof fn lemma_total(x: Self, y: Self) {
    }

    fn compare(&self, other: &Self) -> (c: std::cmp::Ordering) {
        if *self < *other {
            std::cmp::Ordering::Less
        } else if *self == *other {
            std::cmp::Ordering::Equal
        } else {
            std::cmp::Ordering::Greater
        }
    }

    fn duplicate(&self) -> (r: Self) {
        *self
    }
}

impl OrderedValue for char {
    open spec fn le(self, other: Self) -> bool {
        self <= other
    }

    proof fn lemma_reflexive(x: Self) {
    }

    proof fn lemma_transitive(x: Self, y: Self, z: Self) {
    }

    proof fn lemma_antisymmetric(x: Self, y: Self) {
    }

    proof fn lemma_total(x: Self, y: Self) {
    }

    fn compare(&self, other: &Self) -> (c: std::cmp::Ordering) {
        if *self < *other {
            std::cmp::Ordering::Less
        } else if *self == *other {
            std::cmp::Ordering::Equal
        } else {
            std::cmp::Ordering::Greater
        }
    }

    fn duplicate(&self) -> (r: Self) {
        *self
    }
}

} // verus!
