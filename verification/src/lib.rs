//! An unbalanced binary search tree over `i64` values.
//!
//! The tree keeps duplicates: an inserted value equal to a node's value goes
//! to the right subtree. Every public operation carries a contract stated
//! over the tree's in-order view (a `Seq<i64>`) and its multiset of values.

use vstd::prelude::*;
use vstd::multiset::Multiset;

verus! {

/// The error reported by `min` and `max` on an empty tree.
#[derive(Clone, Copy, Debug, PartialEq, Eq, Structural)]
pub struct NotFound;

struct Node {
    data: i64,
    left: Option<Box<Node>>,
    right: Option<Box<Node>>,
}

/// A binary search tree: lesser values to the left, greater-or-equal values
/// to the right of every node.
pub struct Tree {
    root: Option<Box<Node>>,
}

impl Node {
    /// The in-order traversal of an optional subtree.
    spec fn in_order_of(node: Option<Box<Node>>) -> Seq<i64>
        decreases node,
    {
        match node {
            None => Seq::empty(),
            Some(n) => n.in_order(),
        }
    }

    /// The in-order traversal of the subtree rooted at this node.
    spec fn in_order(self) -> Seq<i64>
        decreases self,
    {
        Node::in_order_of(self.left) + seq![self.data] + Node::in_order_of(self.right)
    }

    /// The multiset of values held by an optional subtree.
    spec fn values_of(node: Option<Box<Node>>) -> Multiset<i64>
        decreases node,
    {
        match node {
            None => Multiset::empty(),
            Some(n) => n.values(),
        }
    }

    /// The multiset of values held by the subtree rooted at this node.
    spec fn values(self) -> Multiset<i64>
        decreases self,
    {
        Node::values_of(self.left).insert(self.data).add(Node::values_of(self.right))
    }

    /// The search invariant: every value on the left is strictly less than
    /// this node's value, every value on the right is greater or equal
    /// (duplicates live to the right), and both subtrees are themselves
    /// well-formed.
    spec fn well_formed(self) -> bool
        decreases self,
    {
        &&& (forall|x: i64| #[trigger] Node::values_of(self.left).contains(x) ==> x < self.data)
        &&& (forall|x: i64| #[trigger] Node::values_of(self.right).contains(x) ==> x >= self.data)
        &&& (match self.left {
            Some(l) => l.well_formed(),
            None => true,
        })
        &&& (match self.right {
            Some(r) => r.well_formed(),
            None => true,
        })
    }

    /// The search invariant lifted to an optional subtree.
    spec fn wf_of(node: Option<Box<Node>>) -> bool {
        match node {
            None => true,
            Some(n) => n.well_formed(),
        }
    }
}

impl Tree {
    /// The search invariant over the whole tree.
    pub closed spec fn well_formed(self) -> bool {
        Node::wf_of(self.root)
    }
}

impl View for Tree {
    type V = Seq<i64>;

    /// A tree is viewed as its in-order traversal.
    closed spec fn view(&self) -> Seq<i64> {
        Node::in_order_of(self.root)
    }
}

/// The multiset of a subtree is exactly the multiset of its in-order
/// traversal.
proof fn lemma_values_are_in_order_multiset(node: Option<Box<Node>>)
    ensures
        Node::values_of(node) == Node::in_order_of(node).to_multiset(),
    decreases node,
{
    broadcast use vstd::multiset::group_multiset_axioms;
    broadcast use vstd::seq_lib::group_to_multiset_ensures;

    match node {
        None => {
            assert(Seq::<i64>::empty().to_multiset() =~= Multiset::<i64>::empty());
        }
        Some(n) => {
            lemma_values_are_in_order_multiset(n.left);
            lemma_values_are_in_order_multiset(n.right);
            let l = Node::in_order_of(n.left);
            let r = Node::in_order_of(n.right);
            vstd::seq_lib::lemma_multiset_commutative(l + seq![n.data], r);
            vstd::seq_lib::lemma_multiset_commutative(l, seq![n.data]);
            assert(seq![n.data] =~= Seq::<i64>::empty().push(n.data));
            assert(Seq::<i64>::empty().to_multiset() =~= Multiset::<i64>::empty());
            assert(seq![n.data].to_multiset() =~= Multiset::<i64>::empty().insert(n.data));
            assert((l + seq![n.data] + r).to_multiset() =~= l.to_multiset().insert(n.data).add(
                r.to_multiset(),
            ));
        }
    }
}

/// The in-order traversal of a well-formed subtree is non-decreasing.
proof fn lemma_wf_in_order_sorted(node: Option<Box<Node>>)
    requires
        Node::wf_of(node),
    ensures
        forall|i: int, j: int|
            0 <= i <= j < Node::in_order_of(node).len() ==> Node::in_order_of(node)[i]
                <= Node::in_order_of(node)[j],
    decreases node,
{
    broadcast use vstd::multiset::group_multiset_axioms;
    broadcast use vstd::seq_lib::group_to_multiset_ensures;

    match node {
        None => {}
        Some(n) => {
            lemma_wf_in_order_sorted(n.left);
            lemma_wf_in_order_sorted(n.right);
            lemma_values_are_in_order_multiset(n.left);
            lemma_values_are_in_order_multiset(n.right);
            let l = Node::in_order_of(n.left);
            let r = Node::in_order_of(n.right);
            let s = Node::in_order_of(node);
            assert(s == l + seq![n.data] + r);
            assert forall|k: int| 0 <= k < l.len() implies l[k] < n.data by {
                assert(l.contains(l[k]));
                assert(l.to_multiset().count(l[k]) > 0);
                assert(Node::values_of(n.left).contains(l[k]));
            }
            assert forall|k: int| 0 <= k < r.len() implies r[k] >= n.data by {
                assert(r.contains(r[k]));
                assert(r.to_multiset().count(r[k]) > 0);
                assert(Node::values_of(n.right).contains(r[k]));
            }
            assert forall|i: int, j: int| 0 <= i <= j < s.len() implies s[i] <= s[j] by {
                if i < l.len() {
                    assert(s[i] == l[i]);
                } else if i == l.len() {
                    assert(s[i] == n.data);
                } else {
                    assert(s[i] == r[i - l.len() - 1]);
                }
                if j < l.len() {
                    assert(s[j] == l[j]);
                } else if j == l.len() {
                    assert(s[j] == n.data);
                } else {
                    assert(s[j] == r[j - l.len() - 1]);
                }
            }
        }
    }
}

impl Tree {
    /// Creates an empty tree.
    pub fn new() -> (t: Tree)
        ensures
            t.well_formed(),
            t@ == Seq::<i64>::empty(),
    {
        Tree { root: None }
    }

    /// Inserts `value`, keeping duplicates: exactly one occurrence is added
    /// to the tree's multiset of values, and the search invariant is kept.
    pub fn insert(&mut self, value: i64)
        requires
            old(self).well_formed(),
        ensures
            final(self).well_formed(),
            final(self)@.to_multiset() == old(self)@.to_multiset().insert(value),
            final(self)@.len() == old(self)@.len() + 1,
    {
        Node::insert_into(&mut self.root, value);
        proof {
            broadcast use vstd::multiset::group_multiset_axioms;
            broadcast use vstd::seq_lib::group_to_multiset_ensures;

            lemma_values_are_in_order_multiset(old(self).root);
            lemma_values_are_in_order_multiset(self.root);
            vstd::multiset::lemma_insert_len(old(self)@.to_multiset(), value);
            vstd::seq_lib::to_multiset_len(old(self)@);
            vstd::seq_lib::to_multiset_len(self@);
        }
    }

    /// Reports whether `value` occurs anywhere in the tree. The tree itself
    /// is left unchanged.
    pub fn find(&mut self, value: i64) -> (r: bool)
        requires
            old(self).well_formed(),
        ensures
            *final(self) == *old(self),
            r == old(self)@.contains(value),
    {
        let r = Node::find_in(&self.root, value);
        proof {
            broadcast use vstd::seq_lib::group_to_multiset_ensures;
            broadcast use vstd::multiset::group_multiset_axioms;

            lemma_values_are_in_order_multiset(self.root);
            assert(self@.contains(value) == (self@.to_multiset().count(value) > 0));
        }
        r
    }

    /// Returns the greatest value held by the tree, or `NotFound` on an
    /// empty tree. The tree itself is left unchanged.
    pub fn max(&mut self) -> (r: Result<i64, NotFound>)
        requires
            old(self).well_formed(),
        ensures
            *final(self) == *old(self),
            old(self)@.len() == 0 ==> r == Err::<i64, NotFound>(NotFound),
            old(self)@.len() > 0 ==> (r matches Ok(m) && old(self)@.contains(m) && (forall|x: i64|
                old(self)@.contains(x) ==> x <= m)),
    {
        match &self.root {
            None => Err(NotFound),
            Some(n) => {
                let m = n.max_in();
                proof {
                    broadcast use vstd::seq_lib::group_to_multiset_ensures;
                    broadcast use vstd::multiset::group_multiset_axioms;

                    lemma_values_are_in_order_multiset(self.root);
                    assert(self@.to_multiset().count(m) > 0);
                    assert forall|x: i64| self@.contains(x) implies x <= m by {
                        assert(self@.to_multiset().count(x) > 0);
                        assert(n.values().contains(x));
                    }
                }
                Ok(m)
            }
        }
    }

    /// Returns the least value held by the tree, or `NotFound` on an empty
    /// tree. The tree itself is left unchanged.
    pub fn min(&mut self) -> (r: Result<i64, NotFound>)
        requires
            old(self).well_formed(),
        ensures
            *final(self) == *old(self),
            old(self)@.len() == 0 ==> r == Err::<i64, NotFound>(NotFound),
            old(self)@.len() > 0 ==> (r matches Ok(m) && old(self)@.contains(m) && (forall|x: i64|
                old(self)@.contains(x) ==> m <= x)),
    {
        match &self.root {
            None => Err(NotFound),
            Some(n) => {
                let m = n.min_in();
                proof {
                    broadcast use vstd::seq_lib::group_to_multiset_ensures;
                    broadcast use vstd::multiset::group_multiset_axioms;

                    lemma_values_are_in_order_multiset(self.root);
                    assert(self@.to_multiset().count(m) > 0);
                    assert forall|x: i64| self@.contains(x) implies m <= x by {
                        assert(self@.to_multiset().count(x) > 0);
                        assert(n.values().contains(x));
                    }
                }
                Ok(m)
            }
        }
    }

    /// Deletes one occurrence of `value`: the first node holding it on the
    /// search path is spliced out, so exactly one occurrence leaves the
    /// tree's multiset of values; deleting an absent value changes nothing.
    /// The tree must not be empty.
    pub fn delete(&mut self, value: i64)
        requires
            old(self).well_formed(),
            old(self)@.len() > 0,
        ensures
            final(self).well_formed(),
            final(self)@.to_multiset() == old(self)@.to_multiset().remove(value),
    {
        Node::delete_from(&mut self.root, value);
        proof {
            lemma_values_are_in_order_multiset(old(self).root);
            lemma_values_are_in_order_multiset(self.root);
        }
    }
}

impl Node {
    /// Inserts `value` as a new leaf below `node`: descend left on strictly
    /// lesser values, right otherwise, and fill the first empty slot.
    fn insert_into(node: &mut Option<Box<Node>>, value: i64)
        requires
            Node::wf_of(*old(node)),
        ensures
            Node::wf_of(*final(node)),
            Node::values_of(*final(node)) == Node::values_of(*old(node)).insert(value),
        decreases *old(node),
    {
        broadcast use vstd::multiset::group_multiset_axioms;

        match node.take() {
            None => {
                *node = Some(Box::new(Node { data: value, left: None, right: None }));
                proof {
                    assert(Node::values_of(*node) =~= Multiset::<i64>::empty().insert(value));
                }
            }
            Some(mut boxed) => {
                if value < boxed.data {
                    Self::insert_into(&mut boxed.left, value);
                } else {
                    Self::insert_into(&mut boxed.right, value);
                }
                *node = Some(boxed);
                proof {
                    let prev = old(node)->Some_0;
                    assert forall|x: i64| #[trigger] Node::values_of(boxed.left).contains(x)
                        implies x < boxed.data by {
                        if x != value || boxed.data <= value {
                            assert(Node::values_of(prev.left).contains(x));
                        }
                    }
                    assert forall|x: i64| #[trigger] Node::values_of(boxed.right).contains(x)
                        implies x >= boxed.data by {
                        if x != value || value < boxed.data {
                            assert(Node::values_of(prev.right).contains(x));
                        }
                    }
                    assert(Node::values_of(*node) =~= Node::values_of(*old(node)).insert(value));
                }
            }
        }
    }

    /// Looks `value` up below `node`: equal values stop the descent, lesser
    /// ones go left, greater ones go right.
    fn find_in(node: &Option<Box<Node>>, value: i64) -> (r: bool)
        requires
            Node::wf_of(*node),
        ensures
            r == Node::values_of(*node).contains(value),
        decreases node,
    {
        broadcast use vstd::multiset::group_multiset_axioms;

        match node {
            None => false,
            Some(n) => {
                if n.data == value {
                    true
                } else if value < n.data {
                    proof {
                        assert(!Node::values_of(n.right).contains(value));
                    }
                    Self::find_in(&n.left, value)
                } else {
                    proof {
                        assert(!Node::values_of(n.left).contains(value));
                    }
                    Self::find_in(&n.right, value)
                }
            }
        }
    }

    /// Follows `right` links to the rightmost node and returns its value:
    /// the maximum of this subtree.
    fn max_in(&self) -> (r: i64)
        requires
            self.well_formed(),
        ensures
            self.values().contains(r),
            forall|x: i64| #[trigger] self.values().contains(x) ==> x <= r,
        decreases self,
    {
        broadcast use vstd::multiset::group_multiset_axioms;

        match &self.right {
            None => {
                proof {
                    assert forall|x: i64| #[trigger] self.values().contains(x)
                        implies x <= self.data by {
                        if !Node::values_of(self.left).contains(x) {
                            assert(x == self.data);
                        }
                    }
                }
                self.data
            }
            Some(r_child) => {
                let m = r_child.max_in();
                proof {
                    assert(Node::values_of(self.right).contains(m));
                    assert forall|x: i64| #[trigger] self.values().contains(x) implies x <= m by {
                        if Node::values_of(self.left).contains(x) {
                            assert(self.data <= m);
                        } else if Node::values_of(self.right).contains(x) {
                        } else {
                            assert(x == self.data);
                            assert(self.data <= m);
                        }
                    }
                }
                m
            }
        }
    }

    /// Follows `left` links to the leftmost node and returns its value: the
    /// minimum of this subtree.
    fn min_in(&self) -> (r: i64)
        requires
            self.well_formed(),
        ensures
            self.values().contains(r),
            forall|x: i64| #[trigger] self.values().contains(x) ==> r <= x,
        decreases self,
    {
        broadcast use vstd::multiset::group_multiset_axioms;

        match &self.left {
            None => {
                proof {
                    assert forall|x: i64| #[trigger] self.values().contains(x)
                        implies self.data <= x by {
                        if !Node::values_of(self.right).contains(x) {
                            assert(x == self.data);
                        }
                    }
                }
                self.data
            }
            Some(l) => {
                let m = l.min_in();
                proof {
                    assert(Node::values_of(self.left).contains(m));
                    assert forall|x: i64| #[trigger] self.values().contains(x) implies m <= x by {
                        if Node::values_of(self.left).contains(x) {
                        } else if Node::values_of(self.right).contains(x) {
                            assert(m < self.data);
                        } else {
                            assert(x == self.data);
                            assert(m < self.data);
                        }
                    }
                }
                m
            }
        }
    }

    /// Deletes one occurrence of `value` below `node`. The descent goes left
    /// past greater node values and right past lesser ones; at the first
    /// node holding `value`, a missing child lets the other child take the
    /// node's place, and a node with two children instead takes the least
    /// value of its right subtree (the in-order successor) and deletes that
    /// value from the right subtree.
    fn delete_from(node: &mut Option<Box<Node>>, value: i64)
        requires
            Node::wf_of(*old(node)),
        ensures
            Node::wf_of(*final(node)),
            Node::values_of(*final(node)) == Node::values_of(*old(node)).remove(value),
        decreases *old(node),
    {
        broadcast use vstd::multiset::group_multiset_axioms;

        match node.take() {
            None => {
                proof {
                    assert(Node::values_of(*node) =~= Node::values_of(*old(node)).remove(value));
                }
            }
            Some(mut boxed) => {
                let ghost prev = old(node)->Some_0;
                if boxed.data > value {
                    Self::delete_from(&mut boxed.left, value);
                    *node = Some(boxed);
                    proof {
                        assert forall|x: i64| #[trigger] Node::values_of(boxed.left).contains(x)
                            implies x < boxed.data by {
                            assert(Node::values_of(prev.left).contains(x));
                        }
                        assert(!Node::values_of(prev.right).contains(value));
                        assert(Node::values_of(*node) =~= Node::values_of(*old(node)).remove(
                            value,
                        ));
                    }
                } else if boxed.data < value {
                    Self::delete_from(&mut boxed.right, value);
                    *node = Some(boxed);
                    proof {
                        assert forall|x: i64| #[trigger] Node::values_of(boxed.right).contains(x)
                            implies x >= boxed.data by {
                            assert(Node::values_of(prev.right).contains(x));
                        }
                        assert(!Node::values_of(prev.left).contains(value));
                        assert(Node::values_of(*node) =~= Node::values_of(*old(node)).remove(
                            value,
                        ));
                    }
                } else {
                    if boxed.left.is_none() {
                        *node = boxed.right;
                        proof {
                            assert(Node::values_of(prev.left) =~= Multiset::<i64>::empty());
                            assert(Node::values_of(*node) =~= Node::values_of(*old(node)).remove(
                                value,
                            ));
                        }
                    } else if boxed.right.is_none() {
                        *node = boxed.left;
                        proof {
                            assert(Node::values_of(prev.right) =~= Multiset::<i64>::empty());
                            assert(Node::values_of(*node) =~= Node::values_of(*old(node)).remove(
                                value,
                            ));
                        }
                    } else {
                        let successor = boxed.right.as_ref().unwrap().min_in();
                        boxed.data = successor;
                        Self::delete_from(&mut boxed.right, successor);
                        *node = Some(boxed);
                        proof {
                            assert(Node::values_of(prev.right).contains(successor));
                            assert forall|x: i64| #[trigger] Node::values_of(
                                boxed.right,
                            ).contains(x) implies x >= boxed.data by {
                                assert(Node::values_of(prev.right).contains(x));
                            }
                            assert forall|x: i64| #[trigger] Node::values_of(
                                boxed.left,
                            ).contains(x) implies x < boxed.data by {
                                assert(x < prev.data);
                                assert(prev.data <= successor);
                            }
                            assert(Node::values_of(*node) =~= Node::values_of(*old(node)).remove(
                                value,
                            ));
                        }
                    }
                }
            }
        }
    }
}

/// Law: the in-order traversal of a well-formed tree is a non-decreasing
/// sequence.
pub proof fn lemma_in_order_sorted(t: Tree)
    requires
        t.well_formed(),
    ensures
        forall|i: int, j: int| 0 <= i <= j < t@.len() ==> t@[i] <= t@[j],
{
    lemma_wf_in_order_sorted(t.root);
}

/// Law: a value just inserted is present in the tree, so looking it up
/// succeeds.
pub proof fn lemma_inserted_value_is_found(pre: Tree, post: Tree, v: i64)
    requires
        post@.to_multiset() == pre@.to_multiset().insert(v),
    ensures
        post@.contains(v),
{
    broadcast use vstd::multiset::group_multiset_axioms;
    broadcast use vstd::seq_lib::group_to_multiset_ensures;

    assert(post@.to_multiset().count(v) > 0);
}

/// Law: a value the tree does not hold stays absent when a different value
/// is inserted or when any value is deleted, so looking it up keeps failing.
pub proof fn lemma_absent_value_stays_absent(pre: Tree, post: Tree, v: i64, w: i64)
    requires
        !pre@.contains(v),
        (post@.to_multiset() == pre@.to_multiset().insert(w) && w != v) || post@.to_multiset()
            == pre@.to_multiset().remove(w),
    ensures
        !post@.contains(v),
{
    broadcast use vstd::multiset::group_multiset_axioms;
    broadcast use vstd::seq_lib::group_to_multiset_ensures;

    assert(pre@.to_multiset().count(v) == 0);
    assert(post@.to_multiset().count(v) == 0);
}

/// Law: deletion removes exactly one occurrence. After inserting `v` twice
/// and deleting it once the value is still present; one more deletion
/// removes it entirely when the starting tree did not hold it.
pub proof fn lemma_delete_removes_one_occurrence(
    t0: Tree,
    t1: Tree,
    t2: Tree,
    t3: Tree,
    t4: Tree,
    v: i64,
)
    requires
        t1@.to_multiset() == t0@.to_multiset().insert(v),
        t2@.to_multiset() == t1@.to_multiset().insert(v),
        t3@.to_multiset() == t2@.to_multiset().remove(v),
        t4@.to_multiset() == t3@.to_multiset().remove(v),
    ensures
        t3@.contains(v),
        !t0@.contains(v) ==> !t4@.contains(v),
{
    broadcast use vstd::multiset::group_multiset_axioms;
    broadcast use vstd::seq_lib::group_to_multiset_ensures;

    assert(t3@.to_multiset().count(v) == t0@.to_multiset().count(v) + 1);
    assert(t4@.to_multiset().count(v) == t0@.to_multiset().count(v));
}

/// Law: deleting a value the tree does not hold leaves the in-order view
/// unchanged, so no lookup result changes.
pub proof fn lemma_delete_absent_is_no_op(pre: Tree, post: Tree, v: i64)
    requires
        pre.well_formed(),
        post.well_formed(),
        !pre@.contains(v),
        post@.to_multiset() == pre@.to_multiset().remove(v),
    ensures
        post@ == pre@,
{
    broadcast use vstd::multiset::group_multiset_axioms;
    broadcast use vstd::seq_lib::group_to_multiset_ensures;

    lemma_wf_in_order_sorted(pre.root);
    lemma_wf_in_order_sorted(post.root);
    assert(pre@.to_multiset().count(v) == 0);
    assert(post@.to_multiset() =~= pre@.to_multiset());
    let leq = |a: i64, b: i64| a <= b;
    assert(vstd::relations::total_ordering(leq)) by {
        assert(vstd::relations::reflexive(leq));
        assert(vstd::relations::antisymmetric(leq));
        assert(vstd::relations::transitive(leq));
        assert(vstd::relations::strongly_connected(leq));
    }
    assert(vstd::relations::sorted_by(pre@, leq)) by {
        assert forall|i: int, j: int| 0 <= i < j < pre@.len() implies #[trigger] leq(
            pre@[i],
            pre@[j],
        ) by {}
    }
    assert(vstd::relations::sorted_by(post@, leq)) by {
        assert forall|i: int, j: int| 0 <= i < j < post@.len() implies #[trigger] leq(
            post@[i],
            post@[j],
        ) by {}
    }
    vstd::seq_lib::lemma_sorted_unique(pre@, post@, leq);
    assert(post@ =~= pre@);
}

} // verus!
