//! Laws that relate the operations of `Tree`, stated over the set of values
//! that their contracts speak of.
use vstd::prelude::*;

use crate::order::OrderedValue;
use crate::tree::{is_max_of, is_min_of, Tree};

verus! {

/// Adding a value twice leaves the same values as adding it once, so every
/// membership query answers alike after the first and the second `add`.
pub proof fn lemma_add_idempotent<T: OrderedValue>(t: Tree<T>, v: T)
    requires
        t.well_formed(),
    ensures
        t@.insert(v).insert(v) == t@.insert(v),
        forall|x: T| #[trigger] t@.insert(v).insert(v).contains(x) == t@.insert(v).contains(x),
{
    assert(t@.insert(v).insert(v) =~= t@.insert(v));
}

/// After `add(v)` the tree holds `v`, and every other value is held exactly
/// when it was held before.
pub proof fn lemma_add_membership<T: OrderedValue>(t: Tree<T>, v: T)
    requires
        t.well_formed(),
    ensures
        t@.insert(v).contains(v),
        forall|x: T| x != v ==> (#[trigger] t@.insert(v).contains(x) == t@.contains(x)),
{
}

/// In a tree of one value, the smallest and the largest value are that value.
pub proof fn lemma_single_min_max<T: OrderedValue>(v: T, lo: T, hi: T)
    requires
        is_min_of(set![v], lo),
        is_max_of(set![v], hi),
    ensures
        lo == v,
        hi == v,
{
}

/// After `remove(v)` the tree no longer holds `v` and every other value is
/// held exactly when it was held before; removing an absent value changes
/// nothing.
pub proof fn lemma_remove_membership<T: OrderedValue>(t: Tree<T>, v: T)
    requires
        t.well_formed(),
    ensures
        !t@.remove(v).contains(v),
        forall|x: T| x != v ==> (#[trigger] t@.remove(v).contains(x) == t@.contains(x)),
        !t@.contains(v) ==> t@.remove(v) == t@,
{
    assert(!t@.contains(v) ==> t@.remove(v) =~= t@);
}

} // verus!
