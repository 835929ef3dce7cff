use vstd::prelude::*;

use crate::order::{lt, lemma_lt_asymmetric, lemma_lt_transitive, OrderedValue};

verus! {

/// A link from a node to one of its children: empty, or owning the child.
type ChildNode<T> = Option<Box<Node<T>>>;

/// A node of the tree. A node without a value is the sentinel that stands
/// for the root of an empty tree; it never has children.
pub struct Node<T: OrderedValue> {
    value: Option<T>,
    left: ChildNode<T>,
    right: ChildNode<T>,
}

/// The values held in the subtree that a link leads to.
spec fn link_values<T: OrderedValue>(link: ChildNode<T>) -> Set<T>
    decreases link,
{
    match link {
        None => Set::empty(),
        Some(n) => n.values(),
    }
}

/// The values of the subtree that a link leads to, in in-order sequence.
spec fn link_in_order<T: OrderedValue>(link: ChildNode<T>) -> Seq<T>
    decreases link,
{
    match link {
        None => Seq::empty(),
        Some(n) => n.in_order(),
    }
}

/// A link is well formed when it is empty or leads to a well-formed node
/// that holds a value.
spec fn link_well_formed<T: OrderedValue>(link: ChildNode<T>) -> bool
    decreases link,
{
    match link {
        None => true,
        Some(n) => n.value.is_some() && n.well_formed(),
    }
}

impl<T: OrderedValue> Node<T> {
    /// The value this node holds; `None` for the sentinel.
    pub closed spec fn spec_value(self) -> Option<T> {
        self.value
    }

    /// The left child, if any.
    pub closed spec fn spec_left(self) -> Option<Node<T>> {
        match self.left {
            Some(n) => Some(*n),
            None => None,
        }
    }

    /// The right child, if any.
    pub closed spec fn spec_right(self) -> Option<Node<T>> {
        match self.right {
            Some(n) => Some(*n),
            None => None,
        }
    }

    /// The set of values held in the subtree rooted here.
    pub closed spec fn values(self) -> Set<T>
        decreases self,
    {
        match self.value {
            None => Set::empty(),
            Some(v) => link_values(self.left).union(link_values(self.right)).insert(v),
        }
    }

    /// The values of the subtree rooted here, left subtree first, then this
    /// node's value, then the right subtree.
    pub closed spec fn in_order(self) -> Seq<T>
        decreases self,
    {
        match self.value {
            None => Seq::empty(),
            Some(v) => link_in_order(self.left) + seq![v] + link_in_order(self.right),
        }
    }

    /// The ordering invariant: a sentinel has no children; otherwise every
    /// value on the left comes strictly before this node's value, every value
    /// on the right strictly after it, and both children are well formed.
    pub closed spec fn well_formed(self) -> bool
        decreases self,
    {
        match self.value {
            None => self.left.is_none() && self.right.is_none(),
            Some(v) => {
                &&& forall|x: T| #[trigger] link_values(self.left).contains(x) ==> lt(x, v)
                &&& forall|x: T| #[trigger] link_values(self.right).contains(x) ==> lt(v, x)
                &&& link_well_formed(self.left)
                &&& link_well_formed(self.right)
            },
        }
    }

    /// A leaf holding `val`.
    fn new(val: T) -> (n: Self)
        ensures
            n.well_formed(),
            n.spec_value() == Some(val),
            n.spec_left().is_none(),
            n.spec_right().is_none(),
            n.values() == set![val],
    {
        let n = Node { value: Some(val), left: None, right: None };
        assert(n.values() =~= set![val]);
        n
    }

    /// Whether `val` is held in the subtree rooted at `n`.
    fn contains_in(n: &Node<T>, val: &T) -> (r: bool)
        requires
            n.well_formed(),
        ensures
            r == n.values().contains(*val),
        decreases n,
    {
        match &n.value {
            None => false,
            Some(v) => match val.compare(v) {
                std::cmp::Ordering::Equal => true,
                std::cmp::Ordering::Less => {
                    proof {
                        if link_values(n.right).contains(*val) {
                            lemma_lt_asymmetric(*v, *val);
                        }
                    }
                    match &n.left {
                        None => false,
                        Some(l) => Self::contains_in(l, val),
                    }
                },
                std::cmp::Ordering::Greater => {
                    proof {
                        if link_values(n.left).contains(*val) {
                            lemma_lt_asymmetric(*val, *v);
                        }
                    }
                    match &n.right {
                        None => false,
                        Some(r) => Self::contains_in(r, val),
                    }
                },
            },
        }
    }

    /// The values of a well-formed subtree form a finite set.
    proof fn lemma_values_finite(self)
        ensures
            self.values().finite(),
        decreases self,
    {
        if let Some(l) = self.left {
            l.lemma_values_finite();
        }
        if let Some(r) = self.right {
            r.lemma_values_finite();
        }
    }

    /// Adds `val` below the non-sentinel node `n`, keeping the order. Returns
    /// whether a node was created; when `val` was already present, `n` is left
    /// exactly as it was.
    fn add_into(n: &mut Node<T>, val: T) -> (inserted: bool)
        requires
            old(n).well_formed(),
            old(n).spec_value().is_some(),
        ensures
            final(n).well_formed(),
            final(n).spec_value() == old(n).spec_value(),
            final(n).values() == old(n).values().insert(val),
            inserted == !old(n).values().contains(val),
            old(n).values().contains(val) ==> *final(n) == *old(n),
        decreases *old(n),
    {
        let ord = match &n.value {
            Some(v) => val.compare(v),
            None => std::cmp::Ordering::Equal,
        };
        let ghost v = n.value.unwrap();
        match ord {
            std::cmp::Ordering::Equal => {
                false
            },
            std::cmp::Ordering::Less => {
                proof {
                    if link_values(n.right).contains(val) {
                        lemma_lt_asymmetric(v, val);
                    }
                }
                let inserted = match n.left.take() {
                    None => {
                        n.left = Some(Box::new(Node::new(val)));
                        true
                    },
                    Some(mut l) => {
                        let inserted = Self::add_into(&mut *l, val);
                        n.left = Some(l);
                        inserted
                    },
                };
                assert(link_values(n.left) =~= link_values(old(n).left).insert(val));
                assert(n.values() =~= old(n).values().insert(val));
                inserted
            },
            std::cmp::Ordering::Greater => {
                proof {
                    if link_values(n.left).contains(val) {
                        lemma_lt_asymmetric(val, v);
                    }
                }
                let inserted = match n.right.take() {
                    None => {
                        n.right = Some(Box::new(Node::new(val)));
                        true
                    },
                    Some(mut r) => {
                        let inserted = Self::add_into(&mut *r, val);
                        n.right = Some(r);
                        inserted
                    },
                };
                assert(link_values(n.right) =~= link_values(old(n).right).insert(val));
                assert(n.values() =~= old(n).values().insert(val));
                inserted
            },
        }
    }

    /// The in-order sequence of a well-formed subtree holds exactly its
    /// values, each strictly before the next.
    proof fn lemma_in_order(self)
        requires
            self.well_formed(),
        ensures
            forall|x: T| #[trigger] self.in_order().contains(x) <==> self.values().contains(x),
            strictly_increasing(self.in_order()),
        decreases self,
    {
        if let Some(v) = self.value {
            if let Some(l) = self.left {
                l.lemma_in_order();
            }
            if let Some(r) = self.right {
                r.lemma_in_order();
            }
            let ls = link_in_order(self.left);
            let rs = link_in_order(self.right);
            let s = self.in_order();
            assert(s == ls + seq![v] + rs);
            assert forall|x: T| ls.contains(x) <==> link_values(self.left).contains(x) by {
                if self.left.is_none() {
                    assert(!ls.contains(x));
                }
            }
            assert forall|x: T| rs.contains(x) <==> link_values(self.right).contains(x) by {
                if self.right.is_none() {
                    assert(!rs.contains(x));
                }
            }
            assert forall|k: int| 0 <= k < s.len() implies #[trigger] s[k] == (if k < ls.len() {
                ls[k]
            } else if k == ls.len() {
                v
            } else {
                rs[k - ls.len() - 1]
            }) by {}
            assert forall|x: T| #[trigger] s.contains(x) <==> self.values().contains(x) by {
                if s.contains(x) {
                    let k = choose|k: int| 0 <= k < s.len() && s[k] == x;
                    if k < ls.len() {
                        assert(ls.contains(x));
                    } else if k > ls.len() {
                        assert(rs.contains(x));
                    }
                }
                if self.values().contains(x) {
                    if ls.contains(x) {
                        let k = choose|k: int| 0 <= k < ls.len() && ls[k] == x;
                        assert(s[k] == x);
                    } else if rs.contains(x) {
                        let k = choose|k: int| 0 <= k < rs.len() && rs[k] == x;
                        assert(s[k + ls.len() + 1] == x);
                    } else {
                        assert(s[ls.len() as int] == x);
                    }
                }
            }
            assert forall|i: int, j: int| 0 <= i < j < s.len() implies #[trigger] lt(s[i], s[j]) by {
                let a = s[i];
                let b = s[j];
                if i < ls.len() {
                    assert(ls.contains(a));
                    assert(lt(a, v));
                }
                if j > ls.len() {
                    assert(rs.contains(b));
                    assert(lt(v, b));
                }
                if i < ls.len() && j > ls.len() {
                    lemma_lt_transitive(a, v, b);
                }
                if i > ls.len() {
                    assert(rs[i - ls.len() - 1] == a && rs[j - ls.len() - 1] == b);
                }
            }
        }
    }

    /// Unlinks the node holding the smallest value of the non-empty subtree
    /// that `link` leads to, and returns that value.
    fn remove_min(link: &mut ChildNode<T>) -> (m: T)
        requires
            old(link).is_some(),
            link_well_formed(*old(link)),
        ensures
            link_well_formed(*final(link)),
            link_values(*old(link)).contains(m),
            forall|x: T| #[trigger] link_values(*old(link)).contains(x) ==> m.le(x),
            link_values(*final(link)) == link_values(*old(link)).remove(m),
        decreases *old(link),
    {
        let mut b = link.take().unwrap();
        let ghost v = b.value.unwrap();
        if b.left.is_none() {
            proof {
                T::lemma_reflexive(v);
                assert(!link_values(b.right).contains(v));
                assert(link_values(b.right) =~= b.values().remove(v));
            }
            *link = b.right;
            b.value.unwrap()
        } else {
            let ghost whole = b.values();
            let m = Self::remove_min(&mut b.left);
            proof {
                assert forall|x: T| #[trigger] whole.contains(x) implies m.le(x) by {
                    if x == v || link_values(b.right).contains(x) {
                        assert(lt(m, v));
                        if x != v {
                            lemma_lt_transitive(m, v, x);
                        }
                    }
                }
                assert(!link_values(b.right).contains(m)) by {
                    if link_values(b.right).contains(m) {
                        lemma_lt_asymmetric(m, v);
                    }
                }
                assert(m != v);
            }
            *link = Some(b);
            assert(link_values(*link) =~= link_values(*old(link)).remove(m));
            m
        }
    }

    /// Removes `val` from the subtree that `link` leads to, if it is there.
    /// A node with two children takes the value of its in-order successor,
    /// which is unlinked from the right subtree. Returns whether `val` was
    /// there; when it was not, `link` is left exactly as it was.
    fn remove_from(link: &mut ChildNode<T>, val: &T) -> (removed: bool)
        requires
            link_well_formed(*old(link)),
        ensures
            link_well_formed(*final(link)),
            link_values(*final(link)) == link_values(*old(link)).remove(*val),
            removed == link_values(*old(link)).contains(*val),
            !removed ==> *final(link) == *old(link),
        decreases *old(link),
    {
        match link.take() {
            None => {
                assert(link_values(*old(link)) =~= link_values(*old(link)).remove(*val));
                false
            },
            Some(mut b) => {
                let ord = match &b.value {
                    Some(v) => val.compare(v),
                    None => std::cmp::Ordering::Equal,
                };
                let ghost v = b.value.unwrap();
                let ghost left = link_values(b.left);
                let ghost right = link_values(b.right);
                match ord {
                    std::cmp::Ordering::Equal => {
                        proof {
                            assert(!left.contains(v));
                            assert(!right.contains(v));
                        }
                        if b.left.is_none() {
                            *link = b.right;
                            assert(link_values(*link) =~= b.values().remove(v));
                        } else if b.right.is_none() {
                            *link = b.left;
                            assert(link_values(*link) =~= b.values().remove(v));
                        } else {
                            let succ = Self::remove_min(&mut b.right);
                            proof {
                                assert forall|x: T| #[trigger] link_values(b.left).contains(x) implies lt(x, succ) by {
                                    lemma_lt_transitive(x, v, succ);
                                }
                                assert forall|x: T| #[trigger] link_values(b.right).contains(x) implies lt(succ, x) by {
                                    assert(right.contains(x));
                                }
                            }
                            b.value = Some(succ);
                            *link = Some(b);
                            assert(link_values(*link) =~= link_values(*old(link)).remove(v));
                        }
                        true
                    },
                    std::cmp::Ordering::Less => {
                        proof {
                            if right.contains(*val) {
                                lemma_lt_asymmetric(v, *val);
                            }
                        }
                        let removed = Self::remove_from(&mut b.left, val);
                        *link = Some(b);
                        assert(link_values(*link) =~= link_values(*old(link)).remove(*val));
                        removed
                    },
                    std::cmp::Ordering::Greater => {
                        proof {
                            if left.contains(*val) {
                                lemma_lt_asymmetric(*val, v);
                            }
                        }
                        let removed = Self::remove_from(&mut b.right, val);
                        *link = Some(b);
                        assert(link_values(*link) =~= link_values(*old(link)).remove(*val));
                        removed
                    },
                }
            },
        }
    }

    /// The largest value of the subtree rooted at the non-sentinel node `n`:
    /// the value of the node reached by following right children.
    fn max_of(n: &Node<T>) -> (r: T)
        requires
            n.well_formed(),
            n.spec_value().is_some(),
        ensures
            is_max_of(n.values(), r),
        decreases n,
    {
        let ghost v = n.value.unwrap();
        match &n.right {
            None => {
                proof {
                    T::lemma_reflexive(v);
                    assert forall|x: T| #[trigger] n.values().contains(x) implies x.le(v) by {
                        if x != v {
                            assert(link_values(n.left).contains(x));
                        }
                    }
                }
                n.value.as_ref().unwrap().duplicate()
            },
            Some(c) => {
                let m = Self::max_of(c);
                proof {
                    assert(link_values(n.right).contains(m));
                    assert forall|x: T| #[trigger] n.values().contains(x) implies x.le(m) by {
                        if x == v || link_values(n.left).contains(x) {
                            assert(lt(v, m));
                            if x != v {
                                lemma_lt_transitive(x, v, m);
                            }
                        } else {
                            assert(c.values().contains(x));
                        }
                    }
                }
                m
            },
        }
    }

    /// The smallest value of the subtree rooted at the non-sentinel node `n`:
    /// the value of the node reached by following left children.
    fn min_of(n: &Node<T>) -> (r: T)
        requires
            n.well_formed(),
            n.spec_value().is_some(),
        ensures
            is_min_of(n.values(), r),
        decreases n,
    {
        let ghost v = n.value.unwrap();
        match &n.left {
            None => {
                proof {
                    T::lemma_reflexive(v);
                    assert forall|x: T| #[trigger] n.values().contains(x) implies v.le(x) by {
                        if x != v {
                            assert(link_values(n.right).contains(x));
                        }
                    }
                }
                n.value.as_ref().unwrap().duplicate()
            },
            Some(c) => {
                let m = Self::min_of(c);
                proof {
                    assert(link_values(n.left).contains(m));
                    assert forall|x: T| #[trigger] n.values().contains(x) implies m.le(x) by {
                        if x == v || link_values(n.right).contains(x) {
                            assert(lt(m, v));
                            if x != v {
                                lemma_lt_transitive(m, v, x);
                            }
                        } else {
                            assert(c.values().contains(x));
                        }
                    }
                }
                m
            },
        }
    }

    /// The value this node holds; `None` for the sentinel of an empty tree.
    pub fn value(&self) -> (r: Option<&T>)
        ensures
            match r {
                Some(v) => self.spec_value() == Some(*v),
                None => self.spec_value().is_none(),
            },
    {
        self.value.as_ref()
    }

    /// The left child, if any.
    pub fn left(&self) -> (r: Option<&Node<T>>)
        ensures
            match r {
                Some(c) => self.spec_left() == Some(*c),
                None => self.spec_left().is_none(),
            },
    {
        match &self.left {
            Some(c) => Some(&**c),
            None => None,
        }
    }

    /// The right child, if any.
    pub fn right(&self) -> (r: Option<&Node<T>>)
        ensures
            match r {
                Some(c) => self.spec_right() == Some(*c),
                None => self.spec_right().is_none(),
            },
    {
        match &self.right {
            Some(c) => Some(&**c),
            None => None,
        }
    }
}

/// Each element of `s` comes strictly before every later one.
pub open spec fn strictly_increasing<T: OrderedValue>(s: Seq<T>) -> bool {
    forall|i: int, j: int| 0 <= i < j < s.len() ==> #[trigger] lt(s[i], s[j])
}

/// `m` is held in `s` and comes before or equals every value of `s`.
pub open spec fn is_min_of<T: OrderedValue>(s: Set<T>, m: T) -> bool {
    &&& s.contains(m)
    &&& forall|x: T| #[trigger] s.contains(x) ==> m.le(x)
}

/// `m` is held in `s` and comes after or equals every value of `s`.
pub open spec fn is_max_of<T: OrderedValue>(s: Set<T>, m: T) -> bool {
    &&& s.contains(m)
    &&& forall|x: T| #[trigger] s.contains(x) ==> x.le(m)
}

impl<T: OrderedValue> Default for Node<T> {
    /// The sentinel: no value and no children.
    fn default() -> (n: Self)
        ensures
            n.well_formed(),
            n.spec_value().is_none(),
            n.spec_left().is_none(),
            n.spec_right().is_none(),
            n.values() == Set::<T>::empty(),
    {
        Node { value: None, left: None, right: None }
    }
}

impl<T: OrderedValue> View for Node<T> {
    type V = Set<T>;

    /// The values held in the subtree rooted at this node.
    closed spec fn view(&self) -> Set<T> {
        self.values()
    }
}

/// A binary search tree of distinct values. An empty tree has a sentinel
/// root; `length` counts the values the tree holds.
pub struct Tree<T: OrderedValue> {
    root: Node<T>,
    pub length: usize,
}

impl<T: OrderedValue> View for Tree<T> {
    type V = Set<T>;

    /// The set of values the tree holds.
    closed spec fn view(&self) -> Set<T> {
        self.root.values()
    }
}

impl<T: OrderedValue> Tree<T> {
    /// The root satisfies the ordering invariant and `length` is the number
    /// of values held.
    pub closed spec fn well_formed(self) -> bool {
        &&& self.root.well_formed()
        &&& self.length == self@.len()
    }

    /// The value of the `length` field.
    pub closed spec fn spec_length(self) -> usize {
        self.length
    }

    /// The root node: the sentinel when the tree is empty.
    pub closed spec fn spec_root(self) -> Node<T> {
        self.root
    }

    /// The values of the tree in in-order sequence.
    pub closed spec fn in_order(self) -> Seq<T> {
        self.root.in_order()
    }

    /// An empty tree.
    pub fn new() -> (t: Self)
        ensures
            t.well_formed(),
            t@ == Set::<T>::empty(),
            t.spec_length() == 0,
    {
        Tree { root: Node::default(), length: 0 }
    }

    /// A tree whose root holds `val`.
    pub fn new_with(val: T) -> (t: Self)
        ensures
            t.well_formed(),
            t@ == set![val],
            t.spec_length() == 1,
            t.spec_root().spec_value() == Some(val),
            t.spec_root().spec_left().is_none(),
            t.spec_root().spec_right().is_none(),
    {
        let root = Node::new(val);
        proof {
            assert(root.values().len() == 1) by {
                assert(root.values() =~= Set::<T>::empty().insert(val));
            }
        }
        Tree { root, length: 1 }
    }

    /// Whether the tree holds `val`.
    pub fn contains(&self, val: T) -> (r: bool)
        requires
            self.well_formed(),
        ensures
            r == self@.contains(val),
    {
        Node::contains_in(&self.root, &val)
    }

    /// Adds `val`, keeping the ordering. A value already held is not added
    /// again: then the tree is left exactly as it was.
    pub fn add(&mut self, val: T)
        requires
            old(self).well_formed(),
            !old(self)@.contains(val) ==> old(self).spec_length() < usize::MAX,
        ensures
            final(self).well_formed(),
            final(self)@ == old(self)@.insert(val),
            final(self).spec_length() == if old(self)@.contains(val) {
                old(self).spec_length()
            } else {
                (old(self).spec_length() + 1) as usize
            },
            old(self)@.contains(val) ==> *final(self) == *old(self),
            old(self)@ == Set::<T>::empty() ==> {
                &&& final(self).spec_root().spec_value() == Some(val)
                &&& final(self).spec_root().spec_left().is_none()
                &&& final(self).spec_root().spec_right().is_none()
            },
            old(self)@ != Set::<T>::empty() ==> final(self).spec_root().spec_value()
                == old(self).spec_root().spec_value(),
    {
        proof {
            self.root.lemma_values_finite();
        }
        if self.root.value.is_none() {
            assert(self@ =~= Set::<T>::empty());
            self.root = Node::new(val);
            self.length = 1;
            proof {
                assert(self.root.values() =~= Set::<T>::empty().insert(val));
            }
        } else {
            assert(self@.contains(self.root.value.unwrap()));
            let inserted = Node::add_into(&mut self.root, val);
            if inserted {
                self.length = self.length + 1;
            }
        }
    }

    /// The largest value held.
    pub fn max(&self) -> (r: T)
        requires
            self.well_formed(),
            self@ != Set::<T>::empty(),
        ensures
            is_max_of(self@, r),
    {
        proof {
            if self.root.value.is_none() {
                assert(self@ =~= Set::<T>::empty());
            }
        }
        Node::max_of(&self.root)
    }

    /// The smallest value held.
    pub fn min(&self) -> (r: T)
        requires
            self.well_formed(),
            self@ != Set::<T>::empty(),
        ensures
            is_min_of(self@, r),
    {
        proof {
            if self.root.value.is_none() {
                assert(self@ =~= Set::<T>::empty());
            }
        }
        Node::min_of(&self.root)
    }

    /// The root node: the sentinel when the tree is empty.
    pub fn root(&self) -> (r: &Node<T>)
        ensures
            *r == self.spec_root(),
    {
        &self.root
    }

    /// Whether `n` has no children.
    pub fn is_leaf(&self, n: &Node<T>) -> (r: bool)
        ensures
            r == (n.spec_left().is_none() && n.spec_right().is_none()),
    {
        n.left.is_none() && n.right.is_none()
    }

    /// The left child of the root, which the caller knows to exist. It holds
    /// exactly the values of the tree that come before the root's value.
    pub fn get_left_child(&self) -> (r: &Node<T>)
        requires
            self.well_formed(),
            self.spec_root().spec_left().is_some(),
        ensures
            Some(*r) == self.spec_root().spec_left(),
            r@ == self@.filter(|x: T| lt(x, self.spec_root().spec_value().unwrap())),
    {
        proof {
            self.lemma_children_split();
        }
        match &self.root.left {
            Some(c) => &**c,
            None => &self.root,
        }
    }

    /// The right child of the root, which the caller knows to exist. It holds
    /// exactly the values of the tree that come after the root's value.
    pub fn get_right_child(&self) -> (r: &Node<T>)
        requires
            self.well_formed(),
            self.spec_root().spec_right().is_some(),
        ensures
            Some(*r) == self.spec_root().spec_right(),
            r@ == self@.filter(|x: T| lt(self.spec_root().spec_value().unwrap(), x)),
    {
        proof {
            self.lemma_children_split();
        }
        match &self.root.right {
            Some(c) => &**c,
            None => &self.root,
        }
    }

    /// The left child of the root, if any.
    pub fn try_get_left_child(&self) -> (r: Option<&Node<T>>)
        ensures
            match r {
                Some(c) => self.spec_root().spec_left() == Some(*c),
                None => self.spec_root().spec_left().is_none(),
            },
    {
        self.root.left()
    }

    /// The right child of the root, if any.
    pub fn try_get_right_child(&self) -> (r: Option<&Node<T>>)
        ensures
            match r {
                Some(c) => self.spec_root().spec_right() == Some(*c),
                None => self.spec_root().spec_right().is_none(),
            },
    {
        self.root.right()
    }

    /// The in-order sequence of a tree holds exactly the tree's values, each
    /// strictly before the next: every tree that `new`, `new_with`, `add` and
    /// `remove` produce is a binary search tree.
    pub proof fn lemma_in_order_sorted(self)
        requires
            self.well_formed(),
        ensures
            strictly_increasing(self.in_order()),
            forall|x: T| #[trigger] self.in_order().contains(x) <==> self@.contains(x),
    {
        self.root.lemma_in_order();
    }

    /// `length` is the number of values the tree holds.
    pub proof fn lemma_length_counts_values(self)
        requires
            self.well_formed(),
        ensures
            self@.finite(),
            self.spec_length() == self@.len(),
    {
        self.root.lemma_values_finite();
    }

    /// A root whose tree holds a value before the root's and one after it
    /// has both a left and a right child, so it is no leaf.
    pub proof fn lemma_root_with_both_sides(self, lo: T, hi: T)
        requires
            self.well_formed(),
            self.spec_root().spec_value().is_some(),
            self@.contains(lo),
            self@.contains(hi),
            lt(lo, self.spec_root().spec_value().unwrap()),
            lt(self.spec_root().spec_value().unwrap(), hi),
        ensures
            self.spec_root().spec_left().is_some(),
            self.spec_root().spec_right().is_some(),
    {
        self.lemma_children_split();
        let v = self.root.value.unwrap();
        assert(self@.filter(|x: T| lt(x, v)).contains(lo));
        assert(self@.filter(|x: T| lt(v, x)).contains(hi));
    }

    /// In a well-formed tree with a value at the root, the left child holds
    /// exactly the values before the root's and the right child exactly the
    /// values after it.
    proof fn lemma_children_split(self)
        requires
            self.well_formed(),
        ensures
            self.spec_root().spec_value().is_some() ==> {
                let v = self.spec_root().spec_value().unwrap();
                &&& link_values(self.root.left) == self@.filter(|x: T| lt(x, v))
                &&& link_values(self.root.right) == self@.filter(|x: T| lt(v, x))
            },
    {
        if let Some(v) = self.root.value {
            let l = link_values(self.root.left);
            let r = link_values(self.root.right);
            assert forall|x: T| #[trigger] self@.contains(x) && lt(x, v) implies l.contains(x) by {
                if r.contains(x) {
                    lemma_lt_asymmetric(x, v);
                }
            }
            assert forall|x: T| #[trigger] self@.contains(x) && lt(v, x) implies r.contains(x) by {
                if l.contains(x) {
                    lemma_lt_asymmetric(v, x);
                }
            }
            assert(l =~= self@.filter(|x: T| lt(x, v)));
            assert(r =~= self@.filter(|x: T| lt(v, x)));
        }
    }

    /// Removes `val` if the tree holds it, and says whether it did. A node
    /// with two children takes the value of its in-order successor. When
    /// `val` is absent the tree is left exactly as it was.
    pub fn remove(&mut self, val: T) -> (removed: bool)
        requires
            old(self).well_formed(),
        ensures
            final(self).well_formed(),
            final(self)@ == old(self)@.remove(val),
            removed == old(self)@.contains(val),
            final(self).spec_length() == if removed {
                (old(self).spec_length() - 1) as usize
            } else {
                old(self).spec_length()
            },
            !removed ==> *final(self) == *old(self),
    {
        proof {
            self.root.lemma_values_finite();
        }
        if self.root.value.is_none() {
            return false;
        }
        let mut root = Node::default();
        std::mem::swap(&mut root, &mut self.root);
        let mut link = Some(Box::new(root));
        let removed = Node::remove_from(&mut link, &val);
        if let Some(b) = link {
            self.root = *b;
        }
        if removed {
            self.length = self.length - 1;
        }
        removed
    }
}

} // verus!
