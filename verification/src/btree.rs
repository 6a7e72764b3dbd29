//! A B-tree with single-pass insertion and deletion, mapping `i64` keys to
//! values.
//!
//! A tree of order `m` lets an inner node hold at most `m` children.  Full
//! nodes are split on the way down during insertion; undersized nodes
//! borrow from or merge with a sibling on the way down during deletion.
//! The verified invariant is structural: keys and values stay paired, and
//! an inner node always holds exactly one more child than keys, at every
//! depth, which rules out any out-of-bounds access.

use vstd::prelude::*;

verus! {

/// A node: `keys[i]` maps to `values[i]`; an inner node's `children[i]`
/// holds the entries ordered before `keys[i]`.
struct BNode<V> {
    keys: Vec<i64>,
    values: Vec<V>,
    children: Vec<Box<BNode<V>>>,
}

/// Structural well-formedness to depth `h`: keys and values are paired,
/// an inner node has one more child than keys, and every child is well
/// formed to depth `h - 1`.  A leaf sits at depth zero.
spec fn wf_h<V>(node: BNode<V>, h: nat) -> bool
    decreases h,
{
    &&& node.keys@.len() == node.values@.len()
    &&& (node.children@.len() == 0 ==> h == 0)
    &&& (node.children@.len() > 0 ==> {
        &&& h >= 1
        &&& node.children@.len() == node.keys@.len() + 1
        &&& forall|i: int|
            0 <= i < node.children@.len() ==> wf_h(*#[trigger] node.children@[i], (h - 1) as nat)
    })
}

/// BTree root. `m` is the order.
pub struct BTree<V> {
    height: usize,
    m: usize,
    count: usize,
    root: Box<BNode<V>>,
}

/// An in-order borrowing cursor over a tree's entries.
pub struct Iter<'a, V> {
    items: Vec<(i64, &'a V)>,
    pos: usize,
}

/// An in-order consuming cursor over a tree's entries.
pub struct IntoIter<V> {
    items: Vec<(i64, V)>,
}

/// The position of a key within a node's key list: the index of the first
/// key not below it, and whether that key is the one looked for.
fn find_pos(keys: &Vec<i64>, key: i64) -> (r: (bool, usize))
    ensures
        r.1 <= keys@.len(),
        r.0 <==> (r.1 < keys@.len() && keys@[r.1 as int] == key),
        r.1 < keys@.len() ==> keys@[r.1 as int] >= key,
{
    let mut i: usize = 0;
    while i < keys.len()
        invariant
            i <= keys@.len(),
            forall|k: int| 0 <= k < i ==> keys@[k] < key,
        decreases keys@.len() - i,
    {
        if keys[i] >= key {
            return (keys[i] == key, i);
        }
        i = i + 1;
    }
    (false, i)
}

impl<V> BNode<V> {
    fn new_boxed() -> (r: Box<Self>)
        ensures
            wf_h(*r, 0),
            r.keys@.len() == 0,
            r.children@.len() == 0,
    {
        Box::new(BNode { keys: Vec::new(), values: Vec::new(), children: Vec::new() })
    }

    fn is_leaf(&self) -> (r: bool)
        ensures
            r == (self.children@.len() == 0),
    {
        self.children.is_empty()
    }

    fn is_full(&self, m: usize) -> (r: bool)
        requires
            m >= 1,
        ensures
            r == (self.keys@.len() == m - 1),
    {
        self.keys.len() == m - 1
    }

    fn is_too_small(&self, m: usize) -> (r: bool)
        ensures
            r == (self.keys@.len() < m / 2),
    {
        self.keys.len() < m / 2
    }

    /// Looks a key up, descending from this node.
    fn get_node<'a>(&'a self, key: i64, h: usize) -> (r: Option<&'a V>)
        requires
            wf_h(*self, h as nat),
        ensures
            self.keys@.len() == 0 && self.children@.len() == 0 ==> r is None,
        decreases h,
    {
        let (found, n) = find_pos(&self.keys, key);
        if found {
            Some(&self.values[n])
        } else if self.is_leaf() {
            None
        } else {
            self.children[n].get_node(key, h - 1)
        }
    }

    /// Splits a full child in two around its median, which moves up into
    /// this node.  Used on the way down so insertion makes a single pass.
    fn split_child(&mut self, m: usize, child_idx: usize, h: usize)
        requires
            wf_h(*old(self), h as nat),
            m >= 4,
            m < usize::MAX,
            child_idx < usize::MAX,
            h >= 1,
            old(self).children@.len() > 0,
            child_idx < old(self).children@.len(),
            old(self).children@[child_idx as int].keys@.len() == m - 1,
        ensures
            wf_h(*final(self), h as nat),
            final(self).keys@.len() == old(self).keys@.len() + 1,
            final(self).children@.len() == old(self).children@.len() + 1,
            final(self).children@[child_idx as int].keys@.len() < m - 1,
            final(self).children@[child_idx as int + 1].keys@.len() < m - 1,
    {
        let median = (m + 1) / 2;
        proof {
            assert(2 <= median < m - 1) by {
                assert(m >= 4);
            }
        }
        let mut child = self.children.remove(child_idx);
        proof {
            assert(wf_h(*child, (h - 1) as nat)) by {
                assert(wf_h(*old(self).children@[child_idx as int], (h - 1) as nat));
            }
        }
        let mut sibling = BNode::<V>::new_boxed();
        let sib_keys = child.keys.split_off(median);
        let sib_values = child.values.split_off(median);
        sibling.keys = sib_keys;
        sibling.values = sib_values;
        let mkey = match child.keys.pop() {
            Some(k) => k,
            None => unreached(),  // the child held m - 1 >= 3 keys
        };
        let mval = match child.values.pop() {
            Some(v) => v,
            None => unreached(),
        };
        if !child.children.is_empty() {
            let sib_children = child.children.split_off(median);
            sibling.children = sib_children;
            proof {
                assert forall|i: int|
                    0 <= i < sibling.children@.len() implies wf_h(
                    *#[trigger] sibling.children@[i],
                    (h - 2) as nat,
                ) by {
                    assert(sibling.children@[i]
                        == old(self).children@[child_idx as int].children@[i + median]);
                    assert(wf_h(
                        *old(self).children@[child_idx as int].children@[i + median],
                        (h - 2) as nat,
                    ));
                }
                assert forall|i: int|
                    0 <= i < child.children@.len() implies wf_h(
                    *#[trigger] child.children@[i],
                    (h - 2) as nat,
                ) by {
                    assert(child.children@[i]
                        == old(self).children@[child_idx as int].children@[i]);
                    assert(wf_h(
                        *old(self).children@[child_idx as int].children@[i],
                        (h - 2) as nat,
                    ));
                }
            }
        }
        proof {
            assert(wf_h(*child, (h - 1) as nat));
            assert(wf_h(*sibling, (h - 1) as nat));
        }
        self.keys.insert(child_idx, mkey);
        self.values.insert(child_idx, mval);
        self.children.insert(child_idx, child);
        self.children.insert(child_idx + 1, sibling);
        proof {
            assert forall|i: int|
                0 <= i < self.children@.len() implies wf_h(
                *#[trigger] self.children@[i],
                (h - 1) as nat,
            ) by {
                if i < child_idx as int {
                    assert(self.children@[i] == old(self).children@[i]);
                } else if i > child_idx as int + 1 {
                    assert(self.children@[i] == old(self).children@[i - 1]);
                }
            }
        }
    }

    /// Inserts along the search path, splitting any full child before
    /// descending into it; returns the value the key previously held.
    fn insert_node(&mut self, m: usize, key: i64, value: V, h: usize) -> (r: Option<V>)
        requires
            wf_h(*old(self), h as nat),
            m >= 4,
            m < usize::MAX,
        ensures
            wf_h(*final(self), h as nat),
            final(self).keys@.len() <= old(self).keys@.len() + 1,
        decreases h,
    {
        let (found, n) = find_pos(&self.keys, key);
        if found {
            let mut v = value;
            core::mem::swap(&mut self.values[n], &mut v);
            return Some(v);
        }
        if self.is_leaf() {
            self.keys.insert(n, key);
            self.values.insert(n, value);
            return None;
        }
        let mut n = n;
        let child_count = self.children.len();
        proof {
            assert(n < child_count);
        }
        if self.children[n].is_full(m) {
            self.split_child(m, n, h);
            // the raised median may be the key itself, or order before it
            let (found2, n2) = find_pos(&self.keys, key);
            if found2 {
                let mut v = value;
                core::mem::swap(&mut self.values[n2], &mut v);
                return Some(v);
            }
            n = n2;
        }
        let ghost snap = *self;
        let mut child = self.children.remove(n);
        let r = child.insert_node(m, key, value, h - 1);
        self.children.insert(n, child);
        proof {
            assert forall|i: int|
                0 <= i < self.children@.len() implies wf_h(
                *#[trigger] self.children@[i],
                (h - 1) as nat,
            ) by {
                if i != n as int {
                    assert(self.children@[i] == snap.children@[i]);
                }
            }
        }
        r
    }

    /// Removes and returns one entry of a child, recursing at `n`.
    fn remove_in_child(&mut self, m: usize, key: i64, n: usize, h: usize) -> (r: Option<(i64, V)>)
        requires
            wf_h(*old(self), h as nat),
            m >= 4,
            m < usize::MAX,
            h >= 1,
            old(self).children@.len() > 0,
            n < old(self).children@.len(),
        ensures
            wf_h(*final(self), h as nat),
            final(self).keys@.len() == old(self).keys@.len(),
            final(self).children@.len() == old(self).children@.len(),
        decreases h, 0int,
    {
        let ghost snap = *self;
        let mut child = self.children.remove(n);
        let rr = child.remove_node(m, key, h - 1);
        self.children.insert(n, child);
        proof {
            assert forall|i: int|
                0 <= i < self.children@.len() implies wf_h(
                *#[trigger] self.children@[i],
                (h - 1) as nat,
            ) by {
                if i != n as int {
                    assert(self.children@[i] == snap.children@[i]);
                }
            }
        }
        rr
    }

    /// Merges `children[n]`, the key between, and `children[n + 1]` into
    /// one node standing at `n`.
    fn merge_children(&mut self, m: usize, n: usize, h: usize)
        requires
            wf_h(*old(self), h as nat),
            m >= 4,
            h >= 1,
            old(self).children@.len() > 0,
            n + 1 < old(self).children@.len(),
        ensures
            wf_h(*final(self), h as nat),
            final(self).keys@.len() == old(self).keys@.len() - 1,
            final(self).children@.len() == old(self).children@.len() - 1,
            final(self).children@.len() > 0,
        decreases h,
    {
        let ghost snap = *self;
        let c_len = self.children.len();
        proof {
            assert(n + 1 < c_len);
        }
        let k = self.keys.remove(n);
        let v = self.values.remove(n);
        let mut right = self.children.remove(n + 1);
        let mut left = self.children.remove(n);
        proof {
            assert(wf_h(*snap.children@[n as int], (h - 1) as nat));
            assert(wf_h(*snap.children@[n as int + 1], (h - 1) as nat));
        }
        left.keys.push(k);
        left.values.push(v);
        left.keys.append(&mut right.keys);
        left.values.append(&mut right.values);
        left.children.append(&mut right.children);
        proof {
            assert forall|i: int|
                0 <= i < left.children@.len() implies wf_h(
                *#[trigger] left.children@[i],
                (h - 2) as nat,
            ) by {
                if i < snap.children@[n as int].children@.len() {
                    assert(left.children@[i] == snap.children@[n as int].children@[i]);
                } else {
                    assert(left.children@[i] == snap.children@[n as int + 1].children@[i
                        - snap.children@[n as int].children@.len()]);
                }
            }
            assert(wf_h(*left, (h - 1) as nat));
        }
        self.children.insert(n, left);
        proof {
            assert forall|i: int|
                0 <= i < self.children@.len() implies wf_h(
                *#[trigger] self.children@[i],
                (h - 1) as nat,
            ) by {
                if i < n as int {
                    assert(self.children@[i] == snap.children@[i]);
                } else if i > n as int {
                    assert(self.children@[i] == snap.children@[i + 1]);
                }
            }
        }
    }

    /// Removes a key, descending in a single pass: a key found in an inner
    /// node is replaced by its predecessor or successor when a neighbour
    /// child can spare one, else the two children merge around it; before
    /// recursing into a child at its minimum size, the child borrows an
    /// entry from a sibling or merges with one.
    #[verifier::spinoff_prover]
    #[verifier::rlimit(100)]
    fn remove_node(&mut self, m: usize, key: i64, h: usize) -> (r: Option<(i64, V)>)
        requires
            wf_h(*old(self), h as nat),
            m >= 4,
            m < usize::MAX,
        ensures
            wf_h(*final(self), h as nat),
        decreases h, 1int,
    {
        let (found, n) = find_pos(&self.keys, key);
        if found {
            if self.is_leaf() {
                let k = self.keys.remove(n);
                let v = self.values.remove(n);
                return Some((k, v));
            }
            if !self.children[n].is_too_small(m) {
                // replace by the predecessor, taken out of the left child
                let ghost snap = *self;
                let mut child = self.children.remove(n);
                let pred_key = child.keys[child.keys.len() - 1];
                let rr = child.remove_node(m, pred_key, h - 1);
                self.children.insert(n, child);
                proof {
                    assert forall|i: int|
                        0 <= i < self.children@.len() implies wf_h(
                        *#[trigger] self.children@[i],
                        (h - 1) as nat,
                    ) by {
                        if i != n as int {
                            assert(self.children@[i] == snap.children@[i]);
                        }
                    }
                }
                match rr {
                    Some(kv) => {
                        let (mut k, mut v) = kv;
                        core::mem::swap(&mut self.keys[n], &mut k);
                        core::mem::swap(&mut self.values[n], &mut v);
                        return Some((k, v));
                    },
                    None => {
                        return None;
                    },
                }
            }
            let key_count = self.keys.len();
            proof {
                assert(n < key_count);
            }
            if !self.children[n + 1].is_too_small(m) {
                // replace by the successor, taken out of the right child
                let ghost snap = *self;
                let mut child = self.children.remove(n + 1);
                let succ_key = child.keys[0];
                let rr = child.remove_node(m, succ_key, h - 1);
                self.children.insert(n + 1, child);
                proof {
                    assert forall|i: int|
                        0 <= i < self.children@.len() implies wf_h(
                        *#[trigger] self.children@[i],
                        (h - 1) as nat,
                    ) by {
                        if i != n as int + 1 {
                            assert(self.children@[i] == snap.children@[i]);
                        }
                    }
                }
                match rr {
                    Some(kv) => {
                        let (mut k, mut v) = kv;
                        core::mem::swap(&mut self.keys[n], &mut k);
                        core::mem::swap(&mut self.values[n], &mut v);
                        return Some((k, v));
                    },
                    None => {
                        return None;
                    },
                }
            }
            // both neighbours minimal: merge them around the key, then
            // remove it from the merged child
            self.merge_children(m, n, h);
            return self.remove_in_child(m, key, n, h);
        }
        if self.is_leaf() {
            return None;
        }
        let mut n = n;
        if self.children[n].is_too_small(m) {
            if n > 0 && !self.children[n - 1].is_too_small(m) {
                // borrow the separating key and the left sibling's last
                // entry (and child)
                let ghost snap = *self;
                let k = self.keys.remove(n - 1);
                let v = self.values.remove(n - 1);
                let mut left_sib = self.children.remove(n - 1);
                let mut child = self.children.remove(n - 1);
                proof {
                    assert(wf_h(*snap.children@[n as int - 1], (h - 1) as nat));
                    assert(wf_h(*snap.children@[n as int], (h - 1) as nat));
                }
                child.keys.insert(0, k);
                child.values.insert(0, v);
                let k2 = match left_sib.keys.pop() {
                    Some(x) => x,
                    None => unreached(),  // the sibling is above minimum size
                };
                let v2 = match left_sib.values.pop() {
                    Some(x) => x,
                    None => unreached(),
                };
                self.keys.insert(n - 1, k2);
                self.values.insert(n - 1, v2);
                if !left_sib.children.is_empty() {
                    let ghost lc = left_sib.children@;
                    let c = match left_sib.children.pop() {
                        Some(x) => x,
                        None => unreached(),
                    };
                    proof {
                        assert(wf_h(*snap.children@[n as int - 1], (h - 1) as nat));
                        assert(c == lc[lc.len() - 1]);
                        assert(wf_h(*c, (h - 2) as nat));
                        assert forall|i: int|
                            0 <= i < left_sib.children@.len() implies wf_h(
                            *#[trigger] left_sib.children@[i],
                            (h - 2) as nat,
                        ) by {
                            assert(left_sib.children@[i]
                                == snap.children@[n as int - 1].children@[i]);
                        }
                    }
                    child.children.insert(0, c);
                    proof {
                        assert forall|i: int|
                            0 <= i < child.children@.len() implies wf_h(
                            *#[trigger] child.children@[i],
                            (h - 2) as nat,
                        ) by {
                            if i > 0 {
                                assert(child.children@[i] == snap.children@[n as int].children@[i
                                    - 1]);
                            }
                        }
                    }
                }
                self.children.insert(n - 1, left_sib);
                self.children.insert(n, child);
                proof {
                    assert(wf_h(*left_sib, (h - 1) as nat));
                    assert(wf_h(*child, (h - 1) as nat));
                    assert forall|i: int|
                        0 <= i < self.children@.len() implies wf_h(
                        *#[trigger] self.children@[i],
                        (h - 1) as nat,
                    ) by {
                        if i != n as int && i != n as int - 1 {
                            assert(self.children@[i] == snap.children@[i]);
                        }
                    }
                }
            } else if n < self.keys.len() && !self.children[n + 1].is_too_small(m) {
                // borrow the separating key and the right sibling's first
                // entry (and child)
                let ghost snap = *self;
                let k = self.keys.remove(n);
                let v = self.values.remove(n);
                let mut right_sib = self.children.remove(n + 1);
                let mut child = self.children.remove(n);
                proof {
                    assert(wf_h(*snap.children@[n as int + 1], (h - 1) as nat));
                    assert(wf_h(*snap.children@[n as int], (h - 1) as nat));
                }
                child.keys.push(k);
                child.values.push(v);
                let k2 = right_sib.keys.remove(0);
                let v2 = right_sib.values.remove(0);
                self.keys.insert(n, k2);
                self.values.insert(n, v2);
                if !right_sib.children.is_empty() {
                    let ghost rc = right_sib.children@;
                    let c = right_sib.children.remove(0);
                    proof {
                        assert(wf_h(*snap.children@[n as int + 1], (h - 1) as nat));
                        assert(c == rc[0]);
                        assert(wf_h(*c, (h - 2) as nat));
                        assert forall|i: int|
                            0 <= i < right_sib.children@.len() implies wf_h(
                            *#[trigger] right_sib.children@[i],
                            (h - 2) as nat,
                        ) by {
                            assert(right_sib.children@[i] == snap.children@[n as int
                                + 1].children@[i + 1]);
                        }
                    }
                    child.children.push(c);
                    proof {
                        assert forall|i: int|
                            0 <= i < child.children@.len() implies wf_h(
                            *#[trigger] child.children@[i],
                            (h - 2) as nat,
                        ) by {
                            if i < child.children@.len() - 1 {
                                assert(child.children@[i] == snap.children@[n as int].children@[i]);
                            }
                        }
                    }
                }
                self.children.insert(n, child);
                self.children.insert(n + 1, right_sib);
                proof {
                    assert(wf_h(*right_sib, (h - 1) as nat));
                    assert(wf_h(*child, (h - 1) as nat));
                    assert forall|i: int|
                        0 <= i < self.children@.len() implies wf_h(
                        *#[trigger] self.children@[i],
                        (h - 1) as nat,
                    ) by {
                        if i != n as int && i != n as int + 1 {
                            assert(self.children@[i] == snap.children@[i]);
                        }
                    }
                }
            } else if n > 0 {
                // merge with the left sibling
                self.merge_children(m, n - 1, h);
                n = n - 1;
            } else if n + 1 < self.children.len() {
                // merge with the right sibling
                self.merge_children(m, n, h);
            }
        }
        proof {
            assert(n < self.children@.len());
        }
        self.remove_in_child(m, key, n, h)
    }

    /// Appends this subtree's entries to `out`, in key order, borrowing
    /// the values.
    fn collect_refs<'a>(&'a self, h: usize, out: &mut Vec<(i64, &'a V)>)
        requires
            wf_h(*self, h as nat),
        decreases h,
    {
        let mut i: usize = 0;
        while i < self.keys.len()
            invariant
                wf_h(*self, h as nat),
                i <= self.keys@.len(),
            decreases self.keys@.len() - i,
        {
            if self.children.len() > 0 {
                self.children[i].collect_refs(h - 1, out);
            }
            out.push((self.keys[i], &self.values[i]));
            i = i + 1;
        }
        if self.children.len() > 0 {
            self.children[self.keys.len()].collect_refs(h - 1, out);
        }
    }

    /// Appends this subtree's entries to `out`, in key order, consuming
    /// the subtree.
    fn depth_first_collect_into(node: Box<BNode<V>>, h: usize, out: &mut Vec<(i64, V)>)
        requires
            wf_h(*node, h as nat),
        decreases h,
    {
        let inner_node = *node;
        let BNode { mut keys, mut values, mut children } = inner_node;
        let inner = children.len() > 0;
        proof {
            assert(inner ==> h >= 1);
        }
        while keys.len() > 0
            invariant
                keys@.len() == values@.len(),
                inner ==> h >= 1 && children@.len() == keys@.len() + 1,
                !inner ==> children@.len() == 0,
                forall|i: int|
                    0 <= i < children@.len() ==> wf_h(*#[trigger] children@[i], (h - 1) as nat),
            decreases keys@.len(),
        {
            let ghost cs = children@;
            if inner {
                let c = children.remove(0);
                Self::depth_first_collect_into(c, h - 1, out);
                proof {
                    assert forall|i: int|
                        0 <= i < children@.len() implies wf_h(
                        *#[trigger] children@[i],
                        (h - 1) as nat,
                    ) by {
                        assert(children@[i] == cs[i + 1]);
                    }
                }
            }
            let k = keys.remove(0);
            let v = values.remove(0);
            out.push((k, v));
        }
        if inner {
            let c = children.remove(0);
            Self::depth_first_collect_into(c, h - 1, out);
        }
    }
}

impl<V> BTree<V> {
    /// The structural invariant: paired keys and values, one more child
    /// than keys in every inner node, and all leaves at the same depth.
    pub closed spec fn wf(self) -> bool {
        &&& self.m >= 4
        &&& self.m < usize::MAX
        &&& self.height >= 1
        &&& wf_h(*self.root, (self.height - 1) as nat)
    }

    /// How many distinct keys were inserted; removal does not lower it.
    pub closed spec fn spec_len(self) -> nat {
        self.count as nat
    }

    /// Whether the tree holds no entry at all: a single bare leaf.
    pub closed spec fn spec_is_empty(self) -> bool {
        self.root.keys@.len() == 0 && self.root.children@.len() == 0
    }

    /// Whether the root holds the most keys a node may: the next insertion
    /// splits it and the tree grows a level.
    pub closed spec fn spec_root_full(self) -> bool {
        self.root.keys@.len() == self.m - 1
    }

    /// The number of levels, a single-leaf tree having one.
    pub closed spec fn spec_height(self) -> nat {
        self.height as nat
    }

    /// The order: the most children an inner node may hold.
    pub closed spec fn spec_order(self) -> nat {
        self.m as nat
    }

    /// Empty tree with an order of 10.
    pub fn new() -> (r: Self)
        ensures
            r.wf(),
            r.spec_len() == 0,
            r.spec_height() == 1,
            r.spec_is_empty(),
            r.spec_order() == 10,
    {
        Self::new_with_order(10)
    }

    /// Empty tree of the given order.  The minimum order is 4 (a 2-3
    /// tree): anything lower is raised to it.
    pub fn new_with_order(m: usize) -> (r: Self)
        requires
            m < usize::MAX,
        ensures
            r.wf(),
            r.spec_len() == 0,
            r.spec_height() == 1,
            r.spec_is_empty(),
            r.spec_order() == (if m < 4 {
                4nat
            } else {
                m as nat
            }),
    {
        let m = if m < 4 {
            4
        } else {
            m
        };
        BTree { height: 1, m, count: 0, root: BNode::new_boxed() }
    }

    /// The configured order.
    pub fn order(&self) -> (r: usize)
        ensures
            r == self.spec_order(),
    {
        self.m
    }

    /// The number of levels.
    pub fn height(&self) -> (r: usize)
        ensures
            r == self.spec_height(),
    {
        self.height
    }

    /// How many distinct keys were inserted.
    pub fn len(&self) -> (r: usize)
        ensures
            r == self.spec_len(),
    {
        self.count
    }

    /// The value stored under a key, if any; an empty tree holds none.
    pub fn get(&self, key: i64) -> (r: Option<&V>)
        requires
            self.wf(),
        ensures
            self.spec_is_empty() ==> r is None,
    {
        self.root.get_node(key, self.height - 1)
    }

    /// Inserts an entry, returning the value the key held before, if any;
    /// a fresh key grows the count by one.  A full root is split first, so
    /// insertion makes a single downward pass.
    pub fn insert(&mut self, key: i64, value: V) -> (r: Option<V>)
        requires
            old(self).wf(),
            old(self).spec_len() < usize::MAX,
            old(self).spec_height() < usize::MAX,
        ensures
            final(self).wf(),
            final(self).spec_order() == old(self).spec_order(),
            final(self).spec_len() == old(self).spec_len() + (if r is Some {
                0int
            } else {
                1int
            }),
            final(self).spec_height() == old(self).spec_height() + (if old(self).spec_root_full() {
                1int
            } else {
                0int
            }),
    {
        if self.root.is_full(self.m) {
            self.height = self.height + 1;
            let mut r = BNode::new_boxed();
            core::mem::swap(&mut r, &mut self.root);
            self.root.children.push(r);
            self.root.split_child(self.m, 0, self.height - 1);
        }
        let h = self.height - 1;
        let r = self.root.insert_node(self.m, key, value, h);
        if r.is_none() {
            self.count = self.count + 1;
        }
        r
    }

    /// Removes a key, returning the value it held, if any.  A root left
    /// with no key and a single child is collapsed into that child.
    pub fn remove(&mut self, key: i64) -> (r: Option<V>)
        requires
            old(self).wf(),
        ensures
            final(self).wf(),
            final(self).spec_order() == old(self).spec_order(),
            final(self).spec_len() == old(self).spec_len(),
            final(self).spec_height() == old(self).spec_height() || final(self).spec_height() + 1
                == old(self).spec_height(),
    {
        let h = self.height - 1;
        let rr = self.root.remove_node(self.m, key, h);
        if self.root.keys.len() == 0 && self.root.children.len() > 0 {
            let c = match self.root.children.pop() {
                Some(c) => c,
                None => unreached(),
            };
            self.root = c;
            self.height = self.height - 1;
        }
        match rr {
            Some(kv) => Some(kv.1),
            None => None,
        }
    }

    /// A cursor over the entries in key order, borrowing the values.
    pub fn iter<'a>(&'a self) -> (r: Iter<'a, V>)
        requires
            self.wf(),
    {
        let mut items: Vec<(i64, &'a V)> = Vec::new();
        self.root.collect_refs(self.height - 1, &mut items);
        Iter { items, pos: 0 }
    }

    /// A cursor over the entries in key order, consuming the tree.
    pub fn into_iter(self) -> (r: IntoIter<V>)
        requires
            self.wf(),
    {
        let mut items: Vec<(i64, V)> = Vec::new();
        let h = self.height - 1;
        BNode::<V>::depth_first_collect_into(self.root, h, &mut items);
        IntoIter { items }
    }
}

impl<'a, V> Iter<'a, V> {
    /// How many entries are left.
    pub closed spec fn spec_remaining(self) -> nat {
        if self.pos <= self.items@.len() {
            (self.items@.len() - self.pos) as nat
        } else {
            0nat
        }
    }

    /// The next entry in key order, if any is left.
    pub fn next(&mut self) -> (r: Option<(i64, &'a V)>)
        ensures
            r is Some <==> old(self).spec_remaining() > 0,
            r is Some ==> final(self).spec_remaining() == old(self).spec_remaining() - 1,
    {
        if self.pos < self.items.len() {
            let kv = self.items[self.pos];
            self.pos = self.pos + 1;
            Some(kv)
        } else {
            None
        }
    }
}

impl<V> IntoIter<V> {
    /// How many entries are left.
    pub closed spec fn spec_remaining(self) -> nat {
        self.items@.len()
    }

    /// The next entry in key order, if any is left.
    pub fn next(&mut self) -> (r: Option<(i64, V)>)
        ensures
            r is Some <==> old(self).spec_remaining() > 0,
            r is Some ==> final(self).spec_remaining() == old(self).spec_remaining() - 1,
    {
        if self.items.len() > 0 {
            Some(self.items.remove(0))
        } else {
            None
        }
    }
}

} // verus!
