//! A left-leaning red-black tree mapping `i64` keys to values.
//!
//! The tree is specified as the finite map it represents: every operation
//! is proved against `Map` insertion, removal and lookup.  The node colors
//! steer the balancing rotations; they do not change the map, and every
//! rotation and color flip is proved to preserve it.

use vstd::prelude::*;

verus! {

/// A node's color, for the left-leaning balancing scheme.
#[derive(Debug, Copy, Clone, PartialEq, Eq, Structural)]
pub enum Color {
    Black,
    Red,
}

impl Color {
    /// The opposite color.
    pub fn inverse(&self) -> (r: Color)
        ensures
            r == (if *self is Black {
                Color::Red
            } else {
                Color::Black
            }),
    {
        match *self {
            Color::Black => Color::Red,
            Color::Red => Color::Black,
        }
    }
}

struct Node<V> {
    key: i64,
    value: V,
    color: Color,
    left: Option<Box<Node<V>>>,
    right: Option<Box<Node<V>>>,
}

/// Left-leaning red-black tree.
pub struct RBTree<V> {
    root: Option<Box<Node<V>>>,
}

impl<V> Node<V> {
    spec fn optional_as_map(node_opt: Option<Box<Node<V>>>) -> Map<i64, V>
        decreases node_opt,
    {
        match node_opt {
            None => Map::empty(),
            Some(node) => node.as_map(),
        }
    }

    spec fn as_map(self) -> Map<i64, V>
        decreases self,
    {
        Node::<V>::optional_as_map(self.left).union_prefer_right(
            Node::<V>::optional_as_map(self.right),
        ).insert(self.key, self.value)
    }

    spec fn well_formed(self) -> bool
        decreases self,
    {
        &&& (forall|elem|
            Node::<V>::optional_as_map(self.left).dom().contains(elem) ==> elem < self.key)
        &&& (forall|elem|
            Node::<V>::optional_as_map(self.right).dom().contains(elem) ==> elem > self.key)
        &&& (match self.left {
            Some(left_node) => left_node.well_formed(),
            None => true,
        })
        &&& (match self.right {
            Some(right_node) => right_node.well_formed(),
            None => true,
        })
    }

    spec fn opt_well_formed(node_opt: Option<Box<Node<V>>>) -> bool {
        match node_opt {
            None => true,
            Some(node) => node.well_formed(),
        }
    }
}

/// The number of nodes in a subtree; colors never change it, so it
/// measures the descent of the insertion.
spec fn opt_size<V>(node_opt: Option<Box<Node<V>>>) -> nat
    decreases node_opt,
{
    match node_opt {
        None => 0nat,
        Some(node) => 1nat + opt_size(node.left) + opt_size(node.right),
    }
}

/// Whether an optional node is a red node.
spec fn spec_is_red<V>(node_opt: Option<Box<Node<V>>>) -> bool {
    match node_opt {
        None => false,
        Some(node) => node.color is Red,
    }
}

fn is_red<V>(node_opt: &Option<Box<Node<V>>>) -> (r: bool)
    ensures
        r == spec_is_red(*node_opt),
{
    match node_opt.as_ref() {
        Some(n) => match n.color {
            Color::Red => true,
            Color::Black => false,
        },
        None => false,
    }
}

impl<V> Node<V> {
    /// "Splits a 4-node": flips this node's color and its children's.
    /// Colors play no part in the map the tree represents.
    fn color_flip(&mut self)
        requires
            old(self).well_formed(),
        ensures
            final(self).well_formed(),
            final(self).as_map() == old(self).as_map(),
            final(self).key == old(self).key,
            Node::<V>::optional_as_map(final(self).left) == Node::<V>::optional_as_map(
                old(self).left,
            ),
            Node::<V>::optional_as_map(final(self).right) == Node::<V>::optional_as_map(
                old(self).right,
            ),
            final(self).left is Some <==> old(self).left is Some,
            final(self).right is Some <==> old(self).right is Some,
            opt_size(final(self).left) == opt_size(old(self).left),
            opt_size(final(self).right) == opt_size(old(self).right),
    {
        self.color = self.color.inverse();
        if let Some(mut l) = self.left.take() {
            l.color = l.color.inverse();
            proof {
                assert(l.as_map() =~= old(self).left->0.as_map());
                assert(l.well_formed()) by {
                    assert(old(self).left->0.well_formed());
                }
                assert(opt_size(Some(l)) == opt_size(old(self).left));
            }
            self.left = Some(l);
        }
        if let Some(mut r) = self.right.take() {
            r.color = r.color.inverse();
            proof {
                assert(r.as_map() =~= old(self).right->0.as_map());
                assert(r.well_formed()) by {
                    assert(old(self).right->0.well_formed());
                }
                assert(opt_size(Some(r)) == opt_size(old(self).right));
            }
            self.right = Some(r);
        }
        proof {
            assert(Node::<V>::optional_as_map(self.left) == Node::<V>::optional_as_map(
                old(self).left,
            ));
            assert(Node::<V>::optional_as_map(self.right) == Node::<V>::optional_as_map(
                old(self).right,
            ));
            assert forall|elem: i64|
                Node::<V>::optional_as_map(self.left).dom().contains(elem) implies elem
                < self.key by {
                assert(Node::<V>::optional_as_map(old(self).left).dom().contains(elem));
            }
            assert forall|elem: i64|
                Node::<V>::optional_as_map(self.right).dom().contains(elem) implies elem
                > self.key by {
                assert(Node::<V>::optional_as_map(old(self).right).dom().contains(elem));
            }
            assert(self.as_map() =~= old(self).as_map());
            assert(self.well_formed());
        }
    }
}

/// Whether `k` is the smallest key of the map.
pub open spec fn is_min_key<V>(m: Map<i64, V>, k: i64) -> bool {
    &&& m.dom().contains(k)
    &&& forall|j: i64| m.dom().contains(j) ==> k <= j
}

/// Whether `k` is the largest key of the map.
pub open spec fn is_max_key<V>(m: Map<i64, V>, k: i64) -> bool {
    &&& m.dom().contains(k)
    &&& forall|j: i64| m.dom().contains(j) ==> k >= j
}

impl<V> Node<V> {
    /// Rotates left to fix a right-leaning red link.  The map the subtree
    /// represents is unchanged.
    fn rotate_left(n: Box<Node<V>>) -> (r: Box<Node<V>>)
        requires
            n.well_formed(),
            n.right is Some,
        ensures
            r.well_formed(),
            r.as_map() == n.as_map(),
    {
        let mut a = n;
        let ghost a0 = *a;
        let mut b = a.right.take().unwrap();
        let ghost b0 = *b;
        a.right = b.left.take();
        b.color = a.color;
        a.color = Color::Red;
        proof {
            assert(Node::<V>::optional_as_map(a0.right) == b0.as_map());
            assert(b0.well_formed());
            assert(a.as_map() =~= Node::<V>::optional_as_map(a0.left).union_prefer_right(
                Node::<V>::optional_as_map(b0.left),
            ).insert(a0.key, a0.value));
            assert(b0.as_map().dom().contains(b0.key));
            assert(a0.key < b0.key);
            assert forall|e: i64|
                Node::<V>::optional_as_map(b0.left).dom().contains(e) implies e > a0.key by {
                assert(b0.as_map().dom().contains(e));
            }
            assert forall|e: i64|
                Node::<V>::optional_as_map(b0.right).dom().contains(e) implies e > a0.key by {
                assert(b0.as_map().dom().contains(e));
            }
            assert forall|e: i64|
                Node::<V>::optional_as_map(a0.left).dom().contains(e) implies e < b0.key by {
                assert(e < a0.key);
            }
            assert forall|e: i64|
                a.as_map().dom().contains(e) implies e < b0.key by {
                if e != a0.key {
                    assert(Node::<V>::optional_as_map(a0.left).dom().contains(e)
                        || Node::<V>::optional_as_map(b0.left).dom().contains(e));
                }
            }
            assert(a.well_formed());
        }
        b.left = Some(a);
        proof {
            assert(b0.as_map() =~= Node::<V>::optional_as_map(b0.left).union_prefer_right(
                Node::<V>::optional_as_map(b0.right),
            ).insert(b0.key, b0.value));
            assert(n.as_map() =~= Node::<V>::optional_as_map(a0.left).union_prefer_right(
                b0.as_map(),
            ).insert(a0.key, a0.value));
            assert(b.as_map() =~= a.as_map().union_prefer_right(
                Node::<V>::optional_as_map(b0.right),
            ).insert(b0.key, b0.value));
            assert(!Node::<V>::optional_as_map(b0.left).dom().contains(b0.key));
            assert(!Node::<V>::optional_as_map(b0.right).dom().contains(b0.key));
            assert(!Node::<V>::optional_as_map(a0.left).dom().contains(a0.key));
            assert(!Node::<V>::optional_as_map(b0.left).dom().contains(a0.key));
            assert(b.as_map() =~= n.as_map());
            assert(b.well_formed());
        }
        b
    }

    /// Rotates right to fix two red links in a row.  The map the subtree
    /// represents is unchanged.
    fn rotate_right(n: Box<Node<V>>) -> (r: Box<Node<V>>)
        requires
            n.well_formed(),
            n.left is Some,
        ensures
            r.well_formed(),
            r.as_map() == n.as_map(),
    {
        let mut a = n;
        let ghost a0 = *a;
        let mut b = a.left.take().unwrap();
        let ghost b0 = *b;
        a.left = b.right.take();
        b.color = a.color;
        a.color = Color::Red;
        proof {
            assert(Node::<V>::optional_as_map(a0.left) == b0.as_map());
            assert(b0.well_formed());
            assert(a.as_map() =~= Node::<V>::optional_as_map(b0.right).union_prefer_right(
                Node::<V>::optional_as_map(a0.right),
            ).insert(a0.key, a0.value));
            assert(b0.as_map().dom().contains(b0.key));
            assert(a0.key > b0.key);
            assert forall|e: i64|
                Node::<V>::optional_as_map(b0.left).dom().contains(e) implies e < a0.key by {
                assert(b0.as_map().dom().contains(e));
            }
            assert forall|e: i64|
                Node::<V>::optional_as_map(b0.right).dom().contains(e) implies e < a0.key by {
                assert(b0.as_map().dom().contains(e));
            }
            assert forall|e: i64|
                Node::<V>::optional_as_map(a0.right).dom().contains(e) implies e > b0.key by {
                assert(e > a0.key);
            }
            assert forall|e: i64|
                a.as_map().dom().contains(e) implies e > b0.key by {
                if e != a0.key {
                    assert(Node::<V>::optional_as_map(b0.right).dom().contains(e)
                        || Node::<V>::optional_as_map(a0.right).dom().contains(e));
                }
            }
            assert(a.well_formed());
        }
        b.right = Some(a);
        proof {
            assert(b.as_map() =~= n.as_map());
            assert(b.well_formed());
        }
        b
    }

    /// Whether this node's left child and that child's own left child are
    /// both red — the "two reds in a row" a right rotation fixes.
    fn left_left_red(&self) -> (r: bool)
        ensures
            r == (spec_is_red(self.left) && self.left is Some && spec_is_red(self.left->0.left)),
    {
        match self.left.as_ref() {
            Some(l) => match l.color {
                Color::Red => is_red(&l.left),
                Color::Black => false,
            },
            None => false,
        }
    }

    /// Inserts along the search path, splitting 4-nodes on the way down
    /// and fixing right-leaning and doubled red links on the way up.
    fn insert_node(node: Option<Box<Node<V>>>, key: i64, value: V) -> (r: (
        Option<Box<Node<V>>>,
        Option<V>,
    ))
        requires
            Node::<V>::opt_well_formed(node),
        ensures
            Node::<V>::opt_well_formed(r.0),
            Node::<V>::optional_as_map(r.0) == Node::<V>::optional_as_map(node).insert(key, value),
            r.1 == (if Node::<V>::optional_as_map(node).dom().contains(key) {
                Some(Node::<V>::optional_as_map(node)[key])
            } else {
                Option::<V>::None
            }),
        decreases opt_size(node),
    {
        match node {
            None => {
                let n = Box::new(
                    Node { key, value, color: Color::Red, left: None, right: None },
                );
                proof {
                    assert(n.as_map() =~= Map::<i64, V>::empty().insert(key, value));
                }
                (Some(n), None)
            },
            Some(mut n) => {
                let ghost n0 = *n;
                proof {
                    assert(opt_size(node) == 1 + opt_size(n0.left) + opt_size(n0.right));
                }
                if is_red(&n.left) && is_red(&n.right) {
                    n.color_flip();
                }
                proof {
                    assert(opt_size(n.left) == opt_size(n0.left));
                    assert(opt_size(n.right) == opt_size(n0.right));
                }
                let ret: Option<V>;
                if key == n.key {
                    let mut v = value;
                    core::mem::swap(&mut n.value, &mut v);
                    ret = Some(v);
                    proof {
                        assert(!Node::<V>::optional_as_map(n.left).dom().contains(key));
                        assert(!Node::<V>::optional_as_map(n.right).dom().contains(key));
                        assert(n0.as_map()[key] == n0.value);
                        assert(n.as_map() =~= n0.as_map().insert(key, value));
                        assert(n.well_formed());
                    }
                } else if key < n.key {
                    let (nl, r0) = Self::insert_node(n.left.take(), key, value);
                    n.left = nl;
                    ret = r0;
                    proof {
                        assert(!Node::<V>::optional_as_map(n0.right).dom().contains(key));
                        assert(n.as_map() =~= n0.as_map().insert(key, value));
                        assert(n.well_formed());
                        assert(n0.as_map().dom().contains(key)
                            == Node::<V>::optional_as_map(n0.left).dom().contains(key));
                        assert(n0.as_map().dom().contains(key) ==> n0.as_map()[key]
                            == Node::<V>::optional_as_map(n0.left)[key]);
                    }
                } else {
                    let (nr, r0) = Self::insert_node(n.right.take(), key, value);
                    n.right = nr;
                    ret = r0;
                    proof {
                        assert(!Node::<V>::optional_as_map(n0.left).dom().contains(key));
                        assert(n.as_map() =~= n0.as_map().insert(key, value));
                        assert(n.well_formed());
                        assert(n0.as_map().dom().contains(key)
                            == Node::<V>::optional_as_map(n0.right).dom().contains(key));
                        assert(n0.as_map().dom().contains(key) ==> n0.as_map()[key]
                            == Node::<V>::optional_as_map(n0.right)[key]);
                    }
                }
                if is_red(&n.right) {
                    n = Node::rotate_left(n);
                }
                if n.left_left_red() {
                    n = Node::rotate_right(n);
                }
                (Some(n), ret)
            },
        }
    }

    /// Finds a key along the search path.
    fn get_node<'a>(node: &'a Option<Box<Node<V>>>, key: i64) -> (r: Option<&'a V>)
        requires
            Node::<V>::opt_well_formed(*node),
        ensures
            r == (if Node::<V>::optional_as_map(*node).dom().contains(key) {
                Some(&Node::<V>::optional_as_map(*node)[key])
            } else {
                Option::<&'a V>::None
            }),
        decreases node,
    {
        match node {
            None => None,
            Some(n) => {
                if key == n.key {
                    Some(&n.value)
                } else if key < n.key {
                    proof {
                        assert(!Node::<V>::optional_as_map(n.right).dom().contains(key));
                    }
                    Self::get_node(&n.left, key)
                } else {
                    proof {
                        assert(!Node::<V>::optional_as_map(n.left).dom().contains(key));
                    }
                    Self::get_node(&n.right, key)
                }
            },
        }
    }

    /// The value under the smallest key: the leftmost node.
    fn min_node<'a>(n: &'a Node<V>) -> (r: (i64, &'a V))
        requires
            n.well_formed(),
        ensures
            is_min_key(n.as_map(), r.0),
            *r.1 == n.as_map()[r.0],
        decreases n,
    {
        match n.left.as_ref() {
            None => {
                proof {
                    assert(n.as_map().dom().contains(n.key));
                    assert(n.as_map()[n.key] == n.value);
                    assert forall|j: i64| n.as_map().dom().contains(j) implies n.key <= j by {
                        if j != n.key {
                            assert(Node::<V>::optional_as_map(n.right).dom().contains(j));
                        }
                    }
                }
                (n.key, &n.value)
            },
            Some(l) => {
                let (k, v) = Self::min_node(l);
                proof {
                    assert(Node::<V>::optional_as_map(n.left) == l.as_map());
                    assert(l.as_map().dom().contains(k));
                    assert(k < n.key);
                    assert(!Node::<V>::optional_as_map(n.right).dom().contains(k));
                    assert(n.as_map().dom().contains(k));
                    assert(n.as_map()[k] == l.as_map()[k]);
                    assert forall|j: i64| n.as_map().dom().contains(j) implies k <= j by {
                        if j != n.key && !l.as_map().dom().contains(j) {
                            assert(Node::<V>::optional_as_map(n.right).dom().contains(j));
                        }
                    }
                }
                (k, v)
            },
        }
    }

    /// The value under the largest key: the rightmost node.
    fn max_node<'a>(n: &'a Node<V>) -> (r: (i64, &'a V))
        requires
            n.well_formed(),
        ensures
            is_max_key(n.as_map(), r.0),
            *r.1 == n.as_map()[r.0],
        decreases n,
    {
        match n.right.as_ref() {
            None => {
                proof {
                    assert(n.as_map().dom().contains(n.key));
                    assert(n.as_map()[n.key] == n.value);
                    assert forall|j: i64| n.as_map().dom().contains(j) implies n.key >= j by {
                        if j != n.key {
                            assert(Node::<V>::optional_as_map(n.left).dom().contains(j));
                        }
                    }
                }
                (n.key, &n.value)
            },
            Some(rn) => {
                let (k, v) = Self::max_node(rn);
                proof {
                    assert(Node::<V>::optional_as_map(n.right) == rn.as_map());
                    assert(rn.as_map().dom().contains(k));
                    assert(k > n.key);
                    assert(!Node::<V>::optional_as_map(n.left).dom().contains(k));
                    assert(n.as_map().dom().contains(k));
                    assert(n.as_map()[k] == rn.as_map()[k]);
                    assert forall|j: i64| n.as_map().dom().contains(j) implies k >= j by {
                        if j != n.key && !rn.as_map().dom().contains(j) {
                            assert(Node::<V>::optional_as_map(n.left).dom().contains(j));
                        }
                    }
                }
                (k, v)
            },
        }
    }

    /// Removes the leftmost node, handing back its key and value.
    fn remove_min_node(node: Option<Box<Node<V>>>) -> (r: (
        Option<Box<Node<V>>>,
        Option<(i64, V)>,
    ))
        requires
            Node::<V>::opt_well_formed(node),
        ensures
            Node::<V>::opt_well_formed(r.0),
            node is None ==> r.0 is None && r.1 is None,
            node is Some ==> ({
                let popped = r.1->0;
                &&& r.1 is Some
                &&& is_min_key(Node::<V>::optional_as_map(node), popped.0)
                &&& Node::<V>::optional_as_map(node)[popped.0] == popped.1
                &&& Node::<V>::optional_as_map(r.0) == Node::<V>::optional_as_map(node).remove(
                    popped.0,
                )
            }),
        decreases node,
    {
        match node {
            None => (None, None),
            Some(n) => {
                let ghost n0 = *n;
                let inner = *n;
                if inner.left.is_none() {
                    proof {
                        assert(Node::<V>::optional_as_map(n0.left) =~= Map::<i64, V>::empty());
                        assert(n0.as_map().dom().contains(n0.key));
                        assert forall|j: i64| n0.as_map().dom().contains(j) implies n0.key <= j by {
                            if j != n0.key {
                                assert(Node::<V>::optional_as_map(n0.right).dom().contains(j));
                            }
                        }
                        assert(!Node::<V>::optional_as_map(n0.right).dom().contains(n0.key));
                        assert(Node::<V>::optional_as_map(n0.right) =~= n0.as_map().remove(n0.key));
                    }
                    (inner.right, Some((inner.key, inner.value)))
                } else {
                    let Node { key, value, color, left, right } = inner;
                    let (nl, popped) = Self::remove_min_node(left);
                    let ghost pk = popped->0;
                    let ghost k = pk.0;
                    let rebuilt = Box::new(Node { key, value, color, left: nl, right });
                    proof {
                        assert(Node::<V>::optional_as_map(n0.left).dom().contains(k));
                        assert(k < n0.key);
                        assert(!Node::<V>::optional_as_map(n0.right).dom().contains(k));
                        assert(n0.as_map().dom().contains(k));
                        assert(n0.as_map()[k] == Node::<V>::optional_as_map(n0.left)[k]);
                        assert(Node::<V>::optional_as_map(nl) == Node::<V>::optional_as_map(
                            n0.left,
                        ).remove(k));
                        assert forall|j: i64| n0.as_map().dom().contains(j) implies k <= j by {
                            if j != n0.key && !Node::<V>::optional_as_map(n0.left).dom().contains(
                                j,
                            ) {
                                assert(Node::<V>::optional_as_map(n0.right).dom().contains(j));
                            }
                        }
                        assert(rebuilt.as_map() =~= n0.as_map().remove(k));
                        assert(rebuilt.well_formed());
                    }
                    (Some(rebuilt), popped)
                }
            },
        }
    }

    /// Removes a key: a missing key leaves the subtree untouched; a node
    /// with two children is replaced by its successor, the minimum of its
    /// right subtree.  Removal does not recolor: deletion never deepens
    /// the tree, and later insertions restore the left-leaning shape.
    fn remove_node(node: Option<Box<Node<V>>>, key: i64) -> (r: (
        Option<Box<Node<V>>>,
        Option<V>,
    ))
        requires
            Node::<V>::opt_well_formed(node),
        ensures
            Node::<V>::opt_well_formed(r.0),
            Node::<V>::optional_as_map(r.0) == Node::<V>::optional_as_map(node).remove(key),
            r.1 == (if Node::<V>::optional_as_map(node).dom().contains(key) {
                Some(Node::<V>::optional_as_map(node)[key])
            } else {
                Option::<V>::None
            }),
        decreases node,
    {
        match node {
            None => {
                proof {
                    assert(Map::<i64, V>::empty().remove(key) =~= Map::<i64, V>::empty());
                }
                (None, None)
            },
            Some(n) => {
                let ghost n0 = *n;
                let inner = *n;
                let Node { key: nkey, value, color, left, right } = inner;
                if key < nkey {
                    let (nl, r0) = Self::remove_node(left, key);
                    let rebuilt = Box::new(Node { key: nkey, value, color, left: nl, right });
                    proof {
                        assert(!Node::<V>::optional_as_map(n0.right).dom().contains(key));
                        assert(rebuilt.as_map() =~= n0.as_map().remove(key));
                        assert(rebuilt.well_formed());
                        assert(n0.as_map().dom().contains(key)
                            == Node::<V>::optional_as_map(n0.left).dom().contains(key));
                        assert(n0.as_map().dom().contains(key) ==> n0.as_map()[key]
                            == Node::<V>::optional_as_map(n0.left)[key]);
                    }
                    (Some(rebuilt), r0)
                } else if key > nkey {
                    let (nr, r0) = Self::remove_node(right, key);
                    let rebuilt = Box::new(Node { key: nkey, value, color, left, right: nr });
                    proof {
                        assert(!Node::<V>::optional_as_map(n0.left).dom().contains(key));
                        assert(rebuilt.as_map() =~= n0.as_map().remove(key));
                        assert(rebuilt.well_formed());
                        assert(n0.as_map().dom().contains(key)
                            == Node::<V>::optional_as_map(n0.right).dom().contains(key));
                        assert(n0.as_map().dom().contains(key) ==> n0.as_map()[key]
                            == Node::<V>::optional_as_map(n0.right)[key]);
                    }
                    (Some(rebuilt), r0)
                } else {
                    proof {
                        assert(!Node::<V>::optional_as_map(n0.left).dom().contains(key));
                        assert(!Node::<V>::optional_as_map(n0.right).dom().contains(key));
                        assert(n0.as_map()[key] == n0.value);
                    }
                    match right {
                        None => {
                            proof {
                                assert(Node::<V>::optional_as_map(n0.right) =~= Map::<
                                    i64,
                                    V,
                                >::empty());
                                assert(Node::<V>::optional_as_map(n0.left) =~= n0.as_map().remove(
                                    key,
                                ));
                            }
                            (left, Some(value))
                        },
                        Some(rn) => {
                            let (nr, popped) = Self::remove_min_node(Some(rn));
                            proof {
                                assert(popped is Some);
                            }
                            let (mk, mv) = match popped {
                                Some(p) => p,
                                None => unreached(),  // the right subtree is nonempty
                            };
                            let rebuilt = Box::new(
                                Node { key: mk, value: mv, color, left, right: nr },
                            );
                            proof {
                                let rm = Node::<V>::optional_as_map(n0.right);
                                assert(rm.dom().contains(mk));
                                assert(mk > n0.key);
                                assert forall|e: i64|
                                    Node::<V>::optional_as_map(n0.left).dom().contains(
                                        e,
                                    ) implies e < mk by {
                                    assert(e < n0.key);
                                }
                                assert forall|e: i64|
                                    rm.remove(mk).dom().contains(e) implies e > mk by {
                                    assert(rm.dom().contains(e));
                                    assert(mk <= e);
                                }
                                assert(rebuilt.as_map() =~= n0.as_map().remove(key));
                                assert(rebuilt.well_formed());
                            }
                            (Some(rebuilt), Some(value))
                        },
                    }
                }
            },
        }
    }
}

impl<V> RBTree<V> {
    /// The finite map this tree represents.
    pub closed spec fn as_map(self) -> Map<i64, V> {
        Node::<V>::optional_as_map(self.root)
    }

    /// The search-order invariant every operation preserves.
    pub closed spec fn well_formed(self) -> bool {
        Node::<V>::opt_well_formed(self.root)
    }

    /// An empty tree.
    pub fn new() -> (r: Self)
        ensures
            r.well_formed(),
            r.as_map() == Map::<i64, V>::empty(),
    {
        RBTree { root: None }
    }

    /// Looks a key up.
    pub fn get(&self, key: i64) -> (r: Option<&V>)
        requires
            self.well_formed(),
        ensures
            r == (if self.as_map().dom().contains(key) {
                Some(&self.as_map()[key])
            } else {
                Option::<&V>::None
            }),
    {
        Node::<V>::get_node(&self.root, key)
    }

    /// The value under the smallest key, if any.
    pub fn min(&self) -> (r: Option<&V>)
        requires
            self.well_formed(),
        ensures
            r is Some <==> self.as_map().dom() != Set::<i64>::empty(),
            r is Some ==> exists|k: i64| is_min_key(self.as_map(), k) && *r->0 == self.as_map()[k],
    {
        match self.root.as_ref() {
            None => {
                proof {
                    assert(self.as_map().dom() =~= Set::<i64>::empty());
                }
                None
            },
            Some(n) => {
                let (k, v) = Node::<V>::min_node(n);
                proof {
                    assert(self.as_map().dom().contains(k));
                    assert(self.as_map().dom() != Set::<i64>::empty());
                }
                Some(v)
            },
        }
    }

    /// The value under the largest key, if any.
    pub fn max(&self) -> (r: Option<&V>)
        requires
            self.well_formed(),
        ensures
            r is Some <==> self.as_map().dom() != Set::<i64>::empty(),
            r is Some ==> exists|k: i64| is_max_key(self.as_map(), k) && *r->0 == self.as_map()[k],
    {
        match self.root.as_ref() {
            None => {
                proof {
                    assert(self.as_map().dom() =~= Set::<i64>::empty());
                }
                None
            },
            Some(n) => {
                let (k, v) = Node::<V>::max_node(n);
                proof {
                    assert(self.as_map().dom().contains(k));
                    assert(self.as_map().dom() != Set::<i64>::empty());
                }
                Some(v)
            },
        }
    }

    /// Inserts a key, returning the value it previously mapped to, if any.
    pub fn insert(&mut self, key: i64, value: V) -> (r: Option<V>)
        requires
            old(self).well_formed(),
        ensures
            final(self).well_formed(),
            final(self).as_map() == old(self).as_map().insert(key, value),
            r == (if old(self).as_map().dom().contains(key) {
                Some(old(self).as_map()[key])
            } else {
                Option::<V>::None
            }),
    {
        let root = self.root.take();
        let (nr, ret) = Node::<V>::insert_node(root, key, value);
        self.root = nr;
        ret
    }

    /// Removes a key, returning the value it mapped to, if any.
    pub fn remove(&mut self, key: i64) -> (r: Option<V>)
        requires
            old(self).well_formed(),
        ensures
            final(self).well_formed(),
            final(self).as_map() == old(self).as_map().remove(key),
            r == (if old(self).as_map().dom().contains(key) {
                Some(old(self).as_map()[key])
            } else {
                Option::<V>::None
            }),
    {
        let root = self.root.take();
        let (nr, ret) = Node::<V>::remove_node(root, key);
        self.root = nr;
        ret
    }

    /// Removes the smallest key, returning its value; an empty tree stays
    /// empty and yields nothing.
    pub fn remove_min(&mut self) -> (r: Option<V>)
        requires
            old(self).well_formed(),
        ensures
            final(self).well_formed(),
            old(self).as_map().dom() == Set::<i64>::empty() ==> r is None && final(self).as_map()
                == old(self).as_map(),
            old(self).as_map().dom() != Set::<i64>::empty() ==> r is Some && exists|k: i64|
                is_min_key(old(self).as_map(), k) && r->0 == old(self).as_map()[k] && final(self).as_map() == old(self).as_map().remove(k),
    {
        let root = self.root.take();
        proof {
            if root is None {
                assert(Node::<V>::optional_as_map(root).dom() =~= Set::<i64>::empty());
            } else {
                assert(Node::<V>::optional_as_map(root).dom().contains(root->0.key));
                assert(Node::<V>::optional_as_map(root).dom() != Set::<i64>::empty());
            }
        }
        let (nr, popped) = Node::<V>::remove_min_node(root);
        self.root = nr;
        match popped {
            Some(p) => Some(p.1),
            None => None,
        }
    }
}

} // verus!
