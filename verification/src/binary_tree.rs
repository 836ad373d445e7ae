//! An unbalanced binary search tree over `i64` elements.
//!
//! The tree stores a set of distinct elements; for every node, all elements
//! of the left subtree are strictly less than the node's element and all
//! elements of the right subtree are strictly greater.  The abstract view of
//! a tree is its in-order sequence of elements, which is strictly ascending
//! whenever the tree is well formed.

use vstd::prelude::*;

verus! {

/// One node of the tree: an element and up to two owned subtrees.
#[derive(Debug)]
pub(crate) struct Node {
    pub(crate) item: i64,
    pub(crate) left: Option<Box<Node>>,
    pub(crate) right: Option<Box<Node>>,
}

/// An ordered container of distinct `i64` elements, backed by an unbalanced
/// binary search tree.
#[derive(Debug)]
pub struct BinaryTree {
    root: Option<Box<Node>>,
    len: usize,
}

impl Clone for Node {
    /// Deep copy of the subtree; the copy is equal to the original.
    fn clone(&self) -> (res: Self)
        ensures
            res == *self,
        decreases *self,
    {
        Node {
            item: self.item,
            left: (match &self.left {
                Some(node) => Some(Box::new((&**node).clone())),
                None => None,
            }),
            right: (match &self.right {
                Some(node) => Some(Box::new((&**node).clone())),
                None => None,
            }),
        }
    }
}

impl Clone for BinaryTree {
    /// Deep copy of the tree; the copy is equal to the original.
    fn clone(&self) -> (res: Self)
        ensures
            res == *self,
    {
        BinaryTree {
            root: (match &self.root {
                Some(node) => Some(Box::new((&**node).clone())),
                None => None,
            }),
            len: self.len,
        }
    }
}

/// The in-order sequence of an optional subtree: left subtree first, then
/// the node's element, then the right subtree.
pub(crate) open spec fn opt_seq(o: Option<Box<Node>>) -> Seq<i64>
    decreases o,
{
    match o {
        None => Seq::empty(),
        Some(n) => n.to_seq(),
    }
}

/// The binary-search-tree ordering property for an optional subtree.
pub(crate) open spec fn opt_wf(o: Option<Box<Node>>) -> bool
    decreases o,
{
    match o {
        None => true,
        Some(n) => n.wf(),
    }
}

/// Height of an optional subtree: 0 when absent.
pub(crate) open spec fn opt_height(o: Option<Box<Node>>) -> nat
    decreases o,
{
    match o {
        None => 0,
        Some(n) => n.height_spec(),
    }
}

impl Node {
    /// In-order sequence of the subtree rooted at this node.
    pub(crate) open spec fn to_seq(self) -> Seq<i64>
        decreases self,
    {
        opt_seq(self.left) + seq![self.item] + opt_seq(self.right)
    }

    /// The ordering invariant: everything on the left is strictly less than
    /// the element here, everything on the right strictly greater, and both
    /// subtrees are themselves well formed.
    pub(crate) open spec fn wf(self) -> bool
        decreases self,
    {
        &&& (forall|y: i64| opt_seq(self.left).contains(y) ==> y < self.item)
        &&& (forall|y: i64| opt_seq(self.right).contains(y) ==> y > self.item)
        &&& opt_wf(self.left)
        &&& opt_wf(self.right)
    }

    /// Height of the subtree rooted at this node; a single node has height 1.
    pub(crate) open spec fn height_spec(self) -> nat
        decreases self,
    {
        1 + if opt_height(self.left) >= opt_height(self.right) {
            opt_height(self.left)
        } else {
            opt_height(self.right)
        }
    }
}

/// A sequence is strictly ascending.
pub open spec fn strictly_sorted(s: Seq<i64>) -> bool {
    forall|i: int, j: int| 0 <= i < j < s.len() ==> s[i] < s[j]
}

/// Membership in a node's in-order sequence splits over the left subtree,
/// the node's own element, and the right subtree.
pub(crate) broadcast proof fn lemma_node_seq_contains(n: Node, y: i64)
    ensures
        #[trigger] n.to_seq().contains(y) <==> (opt_seq(n.left).contains(y) || y == n.item
            || opt_seq(n.right).contains(y)),
{
    let l = opt_seq(n.left);
    let m = seq![n.item];
    let r = opt_seq(n.right);
    assert(n.to_seq() == l + m + r);
    if (l + m + r).contains(y) {
        let i = choose|i: int| 0 <= i < (l + m + r).len() && (l + m + r)[i] == y;
        if i < l.len() {
            assert(l[i] == y);
        } else if i == l.len() {
            assert(y == n.item);
        } else {
            assert(r[i - l.len() - 1] == y);
        }
    }
    if l.contains(y) {
        let i = choose|i: int| 0 <= i < l.len() && l[i] == y;
        assert((l + m + r)[i] == y);
    }
    if y == n.item {
        assert((l + m + r)[l.len() as int] == y);
    }
    if r.contains(y) {
        let i = choose|i: int| 0 <= i < r.len() && r[i] == y;
        assert((l + m + r)[l.len() + 1 + i] == y);
    }
}

/// Membership in a concatenation splits over the two halves.
pub(crate) proof fn lemma_concat_contains(a: Seq<i64>, b: Seq<i64>)
    ensures
        forall|y: i64| #[trigger] (a + b).contains(y) <==> (a.contains(y) || b.contains(y)),
{
    assert forall|y: i64| #[trigger] (a + b).contains(y) implies (a.contains(y) || b.contains(
        y,
    )) by {
        let i = choose|i: int| 0 <= i < (a + b).len() && (a + b)[i] == y;
        if i < a.len() {
            assert(a[i] == y);
        } else {
            assert(b[i - a.len()] == y);
        }
    }
    assert forall|y: i64| a.contains(y) || b.contains(y) implies #[trigger] (a + b).contains(
        y,
    ) by {
        if a.contains(y) {
            let i = choose|i: int| 0 <= i < a.len() && a[i] == y;
            assert((a + b)[i] == y);
        } else {
            let i = choose|i: int| 0 <= i < b.len() && b[i] == y;
            assert((a + b)[a.len() + i] == y);
        }
    }
}

/// A well-formed subtree reads out in strictly ascending order.
pub(crate) proof fn lemma_opt_wf_sorted(o: Option<Box<Node>>)
    requires
        opt_wf(o),
    ensures
        strictly_sorted(opt_seq(o)),
    decreases o,
{
    match o {
        None => {},
        Some(n) => {
            lemma_opt_wf_sorted(n.left);
            lemma_opt_wf_sorted(n.right);
            let l = opt_seq(n.left);
            let m = seq![n.item];
            let r = opt_seq(n.right);
            let s = n.to_seq();
            assert(s == l + m + r);
            assert forall|i: int, j: int| 0 <= i < j < s.len() implies s[i] < s[j] by {
                if i < l.len() {
                    assert(s[i] == l[i]);
                    assert(l.contains(l[i]));
                }
                if i > l.len() {
                    assert(s[i] == r[i - l.len() - 1]);
                    assert(r.contains(r[i - l.len() - 1]));
                }
                if j < l.len() {
                    assert(s[j] == l[j]);
                    assert(l.contains(l[j]));
                }
                if j > l.len() {
                    assert(s[j] == r[j - l.len() - 1]);
                    assert(r.contains(r[j - l.len() - 1]));
                }
            }
        },
    }
}

/// Insertion of `x` into an optional subtree, as a value: the tree that the
/// executable insertion produces.
pub(crate) open spec fn spec_insert_opt(o: Option<Box<Node>>, x: i64) -> Option<Box<Node>>
    decreases o,
{
    match o {
        None => Some(Box::new(Node { item: x, left: None, right: None })),
        Some(n) => Some(Box::new(n.spec_insert(x))),
    }
}

impl Node {
    /// Insertion of `x` below this node, as a value.
    pub(crate) open spec fn spec_insert(self, x: i64) -> Node
        decreases self,
    {
        if x == self.item {
            self
        } else if x < self.item {
            Node { item: self.item, left: spec_insert_opt(self.left, x), right: self.right }
        } else {
            Node { item: self.item, left: self.left, right: spec_insert_opt(self.right, x) }
        }
    }
}

/// What insertion does to the in-order sequence of a well-formed subtree:
/// it stays well formed, gains exactly the new element, and is untouched
/// when the element was already present.
pub(crate) proof fn lemma_spec_insert_opt(o: Option<Box<Node>>, x: i64)
    requires
        opt_wf(o),
    ensures
        opt_wf(spec_insert_opt(o, x)),
        forall|y: i64| #[trigger] opt_seq(spec_insert_opt(o, x)).contains(y) <==> (opt_seq(
            o,
        ).contains(y) || y == x),
        opt_seq(o).contains(x) ==> spec_insert_opt(o, x) == o,
        !opt_seq(o).contains(x) ==> opt_seq(spec_insert_opt(o, x)).len() == opt_seq(o).len() + 1,
    decreases o,
{
    broadcast use lemma_node_seq_contains;

    match o {
        None => {
            let leaf = Node { item: x, left: None, right: None };
            assert(leaf.to_seq() == Seq::<i64>::empty() + seq![x] + Seq::<i64>::empty());
            assert(leaf.to_seq() =~= seq![x]);
            assert(leaf.to_seq().contains(x));
        },
        Some(n) => {
            let ins = n.spec_insert(x);
            if x == n.item {
                assert(n.to_seq()[opt_seq(n.left).len() as int] == n.item);
                assert(n.to_seq().contains(x));
            } else if x < n.item {
                lemma_spec_insert_opt(n.left, x);
                assert(ins.to_seq() == opt_seq(spec_insert_opt(n.left, x)) + seq![n.item]
                    + opt_seq(n.right));
                if opt_seq(n.left).contains(x) {
                    assert(ins == *n);
                } else {
                    assert(!n.to_seq().contains(x));
                }
            } else {
                lemma_spec_insert_opt(n.right, x);
                assert(ins.to_seq() == opt_seq(n.left) + seq![n.item] + opt_seq(
                    spec_insert_opt(n.right, x),
                ));
                if opt_seq(n.right).contains(x) {
                    assert(ins == *n);
                } else {
                    assert(!n.to_seq().contains(x));
                }
            }
        },
    }
}

/// Detaching the least element of a subtree, as a value: the element and
/// what remains of the subtree.
pub(crate) open spec fn spec_remove_min(n: Node) -> (i64, Option<Box<Node>>)
    decreases n,
{
    match n.left {
        None => (n.item, n.right),
        Some(l) => {
            let (m, rest) = spec_remove_min(*l);
            (m, Some(Box::new(Node { item: n.item, left: rest, right: n.right })))
        },
    }
}

/// The subtree that takes a removed node's place, as a value: an only child
/// is promoted, and two children are bridged by the in-order successor.
pub(crate) open spec fn spec_remove_self(n: Node) -> Option<Box<Node>> {
    match (n.left, n.right) {
        (None, None) => None,
        (Some(l), None) => Some(l),
        (None, Some(r)) => Some(r),
        (Some(l), Some(r)) => {
            let (succ, new_right) = spec_remove_min(*r);
            Some(Box::new(Node { item: succ, left: Some(l), right: new_right }))
        },
    }
}

/// Removal of `target` from an optional subtree, as a value: the tree that
/// the executable removal produces.
pub(crate) open spec fn spec_remove_opt(o: Option<Box<Node>>, target: i64) -> Option<Box<Node>>
    decreases o,
{
    match o {
        None => None,
        Some(n) => {
            if target == n.item {
                spec_remove_self(*n)
            } else if target < n.item {
                Some(
                    Box::new(
                        Node {
                            item: n.item,
                            left: spec_remove_opt(n.left, target),
                            right: n.right,
                        },
                    ),
                )
            } else {
                Some(
                    Box::new(
                        Node {
                            item: n.item,
                            left: n.left,
                            right: spec_remove_opt(n.right, target),
                        },
                    ),
                )
            }
        },
    }
}

/// Detaching the minimum peels the first element off the in-order sequence.
pub(crate) proof fn lemma_spec_remove_min(n: Node)
    requires
        n.wf(),
    ensures
        ({
            let (m, rest) = spec_remove_min(n);
            &&& opt_wf(rest)
            &&& seq![m] + opt_seq(rest) == n.to_seq()
        }),
    decreases n,
{
    match n.left {
        None => {
            assert(seq![n.item] + opt_seq(n.right) =~= n.to_seq());
        },
        Some(l) => {
            lemma_spec_remove_min(*l);
            let (m, rest) = spec_remove_min(*l);
            lemma_concat_contains(seq![m], opt_seq(rest));
            assert forall|y: i64| #[trigger] opt_seq(rest).contains(y) implies y < n.item by {
                assert((seq![m] + opt_seq(rest)).contains(y));
                assert(opt_seq(n.left).contains(y));
            }
            let nn = Node { item: n.item, left: rest, right: n.right };
            assert(seq![m] + nn.to_seq() =~= (seq![m] + opt_seq(rest)) + seq![n.item] + opt_seq(
                n.right,
            ));
            assert((seq![m] + opt_seq(rest)) + seq![n.item] + opt_seq(n.right) =~= n.to_seq());
        },
    }
}

/// The splice replacing a removed node holds exactly the node's two former
/// subtrees, in order.
pub(crate) proof fn lemma_spec_remove_self(n: Node)
    requires
        n.wf(),
    ensures
        opt_wf(spec_remove_self(n)),
        opt_seq(spec_remove_self(n)) == opt_seq(n.left) + opt_seq(n.right),
{
    match (n.left, n.right) {
        (None, None) => {
            assert(opt_seq(spec_remove_self(n)) =~= opt_seq(n.left) + opt_seq(n.right));
        },
        (Some(l), None) => {
            assert(l.to_seq() =~= opt_seq(n.left) + opt_seq(n.right));
        },
        (None, Some(r)) => {
            assert(r.to_seq() =~= opt_seq(n.left) + opt_seq(n.right));
        },
        (Some(l), Some(r)) => {
            lemma_opt_wf_sorted(n.right);
            lemma_spec_remove_min(*r);
            let (succ, new_right) = spec_remove_min(*r);
            let r_seq = r.to_seq();
            assert(r_seq[0] == succ);
            assert(r_seq.contains(succ));
            assert(opt_seq(n.right).contains(succ));
            assert forall|y: i64| #[trigger] opt_seq(new_right).contains(y) implies y > succ by {
                let i = choose|i: int|
                    0 <= i < opt_seq(new_right).len() && opt_seq(new_right)[i] == y;
                assert(r_seq[i + 1] == y);
            }
            let repl = Node { item: succ, left: n.left, right: new_right };
            assert forall|y: i64| #[trigger] opt_seq(repl.left).contains(y) implies y < succ by {
                assert(y < n.item);
            }
            assert(repl.to_seq() =~= l.to_seq() + (seq![succ] + opt_seq(new_right)));
            assert(repl.to_seq() =~= opt_seq(n.left) + opt_seq(n.right));
        },
    }
}

/// What removal does to the in-order sequence of a well-formed subtree: it
/// stays well formed, loses exactly the target, and is untouched when the
/// target was absent.
pub(crate) proof fn lemma_spec_remove_opt(o: Option<Box<Node>>, target: i64)
    requires
        opt_wf(o),
    ensures
        opt_wf(spec_remove_opt(o, target)),
        forall|y: i64| #[trigger] opt_seq(spec_remove_opt(o, target)).contains(y) <==> (opt_seq(
            o,
        ).contains(y) && y != target),
        !opt_seq(o).contains(target) ==> spec_remove_opt(o, target) == o,
        opt_seq(spec_remove_opt(o, target)).len() == opt_seq(o).len() - (if opt_seq(o).contains(
            target,
        ) {
            1int
        } else {
            0int
        }),
    decreases o,
{
    broadcast use lemma_node_seq_contains;

    match o {
        None => {},
        Some(n) => {
            assert(opt_seq(o) == n.to_seq());
            if target == n.item {
                lemma_spec_remove_self(*n);
                lemma_concat_contains(opt_seq(n.left), opt_seq(n.right));
                assert(n.to_seq()[opt_seq(n.left).len() as int] == target);
                assert(n.to_seq().contains(target));
                assert(opt_seq(spec_remove_opt(o, target)).len() == opt_seq(n.left).len()
                    + opt_seq(n.right).len());
            } else if target < n.item {
                lemma_spec_remove_opt(n.left, target);
                assert(!opt_seq(n.right).contains(target));
                let nn = Node {
                    item: n.item,
                    left: spec_remove_opt(n.left, target),
                    right: n.right,
                };
                assert(nn.to_seq() == opt_seq(spec_remove_opt(n.left, target)) + seq![n.item]
                    + opt_seq(n.right));
                if !opt_seq(n.left).contains(target) {
                    assert(nn == *n);
                    assert(spec_remove_opt(o, target) == Some(Box::new(nn)));
                    assert(spec_remove_opt(o, target) == o);
                }
            } else {
                lemma_spec_remove_opt(n.right, target);
                assert(!opt_seq(n.left).contains(target));
                let nn = Node {
                    item: n.item,
                    left: n.left,
                    right: spec_remove_opt(n.right, target),
                };
                assert(nn.to_seq() == opt_seq(n.left) + seq![n.item] + opt_seq(
                    spec_remove_opt(n.right, target),
                ));
                if !opt_seq(n.right).contains(target) {
                    assert(nn == *n);
                    assert(spec_remove_opt(o, target) == Some(Box::new(nn)));
                    assert(spec_remove_opt(o, target) == o);
                }
            }
        },
    }
}

impl Node {
    /// A leaf node holding `item`.
    fn new(item: i64) -> (n: Self)
        ensures
            n == (Node { item, left: None, right: None }),
    {
        Node { item, left: None, right: None }
    }

    /// Whether `target` occurs in the subtree rooted at this node.
    fn find(&self, target: i64) -> (found: bool)
        requires
            self.wf(),
        ensures
            found == self.to_seq().contains(target),
        decreases *self,
    {
        proof {
            broadcast use lemma_node_seq_contains;

        }
        if target == self.item {
            true
        } else if target < self.item {
            proof {
                assert(!opt_seq(self.right).contains(target));
            }
            match &self.left {
                None => false,
                Some(l) => l.find(target),
            }
        } else {
            proof {
                assert(!opt_seq(self.left).contains(target));
            }
            match &self.right {
                None => false,
                Some(r) => r.find(target),
            }
        }
    }

    /// Insert `x` into the subtree held by `node`, growing a fresh leaf when
    /// the slot is empty.
    fn insert_opt(node: &mut Option<Box<Node>>, x: i64) -> (inserted: bool)
        requires
            opt_wf(*old(node)),
        ensures
            *final(node) == spec_insert_opt(*old(node), x),
            inserted == !opt_seq(*old(node)).contains(x),
        decreases *old(node),
    {
        match node.take() {
            None => {
                *node = Some(Box::new(Node::new(x)));
                true
            },
            Some(mut boxed) => {
                let inserted = (&mut *boxed).insert(x);
                *node = Some(boxed);
                inserted
            },
        }
    }

    /// Insert `x` below this node; duplicates are rejected.
    fn insert(&mut self, x: i64) -> (inserted: bool)
        requires
            old(self).wf(),
        ensures
            *final(self) == old(self).spec_insert(x),
            inserted == !old(self).to_seq().contains(x),
        decreases *old(self),
    {
        proof {
            broadcast use lemma_node_seq_contains;

        }
        if x == self.item {
            false
        } else if x < self.item {
            proof {
                assert(!opt_seq(old(self).right).contains(x));
            }
            Self::insert_opt(&mut self.left, x)
        } else {
            proof {
                assert(!opt_seq(old(self).left).contains(x));
            }
            Self::insert_opt(&mut self.right, x)
        }
    }
}

/// Height never exceeds the number of elements.
pub(crate) proof fn lemma_opt_height_le_len(o: Option<Box<Node>>)
    ensures
        opt_height(o) <= opt_seq(o).len(),
    decreases o,
{
    match o {
        None => {},
        Some(n) => {
            lemma_opt_height_le_len(n.left);
            lemma_opt_height_le_len(n.right);
            assert(n.to_seq() == opt_seq(n.left) + seq![n.item] + opt_seq(n.right));
        },
    }
}

impl Node {
    /// Height of the subtree rooted at this node.
    fn height(&self) -> (h: usize)
        requires
            self.to_seq().len() <= usize::MAX,
        ensures
            h == self.height_spec(),
        decreases *self,
    {
        proof {
            lemma_opt_height_le_len(self.left);
            lemma_opt_height_le_len(self.right);
            assert(self.to_seq() == opt_seq(self.left) + seq![self.item] + opt_seq(self.right));
        }
        let left_h: usize = match &self.left {
            None => 0,
            Some(l) => l.height(),
        };
        let right_h: usize = match &self.right {
            None => 0,
            Some(r) => r.height(),
        };
        if left_h >= right_h {
            1 + left_h
        } else {
            1 + right_h
        }
    }

    /// The least element of the subtree rooted at this node.
    fn min(&self) -> (m: i64)
        requires
            self.wf(),
        ensures
            self.to_seq().contains(m),
            forall|y: i64| #[trigger] self.to_seq().contains(y) ==> m <= y,
        decreases *self,
    {
        proof {
            broadcast use lemma_node_seq_contains;

        }
        match &self.left {
            None => self.item,
            Some(l) => l.min(),
        }
    }

    /// The greatest element of the subtree rooted at this node.
    fn max(&self) -> (m: i64)
        requires
            self.wf(),
        ensures
            self.to_seq().contains(m),
            forall|y: i64| #[trigger] self.to_seq().contains(y) ==> m >= y,
        decreases *self,
    {
        proof {
            broadcast use lemma_node_seq_contains;

        }
        match &self.right {
            None => self.item,
            Some(r) => r.max(),
        }
    }

    /// Append the in-order sequence of this subtree to `out`.
    fn for_each(&self, out: &mut Vec<i64>)
        ensures
            final(out)@ == old(out)@ + self.to_seq(),
        decreases *self,
    {
        if let Some(l) = &self.left {
            l.for_each(out);
        }
        out.push(self.item);
        if let Some(r) = &self.right {
            r.for_each(out);
        }
        proof {
            assert(out@ =~= old(out)@ + self.to_seq());
        }
    }

    /// Detach the least element of the subtree `n`; what remains of the
    /// subtree is returned beside it.
    fn remove_min(n: Box<Node>) -> (res: (i64, Option<Box<Node>>))
        requires
            n.wf(),
        ensures
            res == spec_remove_min(*n),
            opt_wf(res.1),
            seq![res.0] + opt_seq(res.1) == n.to_seq(),
        decreases n,
    {
        let ghost orig = *n;
        let Node { item, left, right } = *n;
        match left {
            None => {
                proof {
                    assert(orig.to_seq() =~= seq![item] + opt_seq(right));
                }
                (item, right)
            },
            Some(l) => {
                let ghost l_seq = l.to_seq();
                let (m, rest) = Self::remove_min(l);
                proof {
                    lemma_concat_contains(seq![m], opt_seq(rest));
                    assert(opt_seq(orig.left) == l_seq);
                    assert forall|y: i64| #[trigger] opt_seq(rest).contains(y) implies y
                        < item by {
                        assert((seq![m] + opt_seq(rest)).contains(y));
                        assert(opt_seq(orig.left).contains(y));
                    }
                    assert(seq![m] + (opt_seq(rest) + seq![item] + opt_seq(right)) =~= (seq![m]
                        + opt_seq(rest)) + seq![item] + opt_seq(right));
                    assert((seq![m] + opt_seq(rest)) + seq![item] + opt_seq(right) =~= orig.to_seq());
                }
                (m, Some(Box::new(Node { item, left: rest, right })))
            },
        }
    }

    /// Detach this node: its element is handed back together with the
    /// subtree that takes the node's place.  A node with two children is
    /// replaced by its in-order successor, the least element of its right
    /// subtree.
    fn remove_self(self) -> (res: (i64, Option<Box<Node>>))
        requires
            self.wf(),
        ensures
            res.0 == self.item,
            res.1 == spec_remove_self(self),
            opt_wf(res.1),
            opt_seq(res.1) == opt_seq(self.left) + opt_seq(self.right),
    {
        let ghost orig = self;
        let Node { item, left, right } = self;
        match (left, right) {
            (None, None) => {
                proof {
                    assert(opt_seq(None) =~= opt_seq(orig.left) + opt_seq(orig.right));
                }
                (item, None)
            },
            (Some(n), None) => {
                proof {
                    assert(n.to_seq() =~= opt_seq(orig.left) + opt_seq(orig.right));
                }
                (item, Some(n))
            },
            (None, Some(n)) => {
                proof {
                    assert(n.to_seq() =~= opt_seq(orig.left) + opt_seq(orig.right));
                }
                (item, Some(n))
            },
            (Some(l), Some(r)) => {
                let ghost r_seq = r.to_seq();
                proof {
                    lemma_opt_wf_sorted(orig.right);
                }
                let (succ, new_right) = Self::remove_min(r);
                let replacement = Node { item: succ, left: Some(l), right: new_right };
                proof {
                    // the successor heads the right subtree's sequence
                    assert(r_seq[0] == succ);
                    assert(r_seq.contains(succ));
                    // everything that remains on the right is above it
                    assert forall|y: i64| #[trigger] opt_seq(new_right).contains(y) implies y
                        > succ by {
                        let i = choose|i: int|
                            0 <= i < opt_seq(new_right).len() && opt_seq(new_right)[i] == y;
                        assert(r_seq[i + 1] == y);
                    }
                    // everything on the left is below it
                    assert forall|y: i64| #[trigger] opt_seq(replacement.left).contains(
                        y,
                    ) implies y < succ by {
                        assert(y < orig.item);
                    }
                    assert(replacement.to_seq() =~= l.to_seq() + (seq![succ] + opt_seq(new_right)));
                    assert(replacement.to_seq() =~= opt_seq(orig.left) + opt_seq(orig.right));
                }
                (item, Some(Box::new(replacement)))
            },
        }
    }

    /// Remove `target` from the subtree held by `node`.  The slot is
    /// overwritten with the spliced replacement; an absent target leaves the
    /// subtree untouched.
    fn remove_from_opt(node: &mut Option<Box<Node>>, target: i64) -> (removed: Option<i64>)
        requires
            opt_wf(*old(node)),
        ensures
            *final(node) == spec_remove_opt(*old(node), target),
            opt_wf(*final(node)),
            removed == if opt_seq(*old(node)).contains(target) {
                Some(target)
            } else {
                None::<i64>
            },
            forall|y: i64| #[trigger] opt_seq(*final(node)).contains(y) <==> (opt_seq(
                *old(node),
            ).contains(y) && y != target),
            !opt_seq(*old(node)).contains(target) ==> *final(node) == *old(node),
            opt_seq(*final(node)).len() == opt_seq(*old(node)).len() - (if opt_seq(
                *old(node),
            ).contains(target) {
                1int
            } else {
                0int
            }),
        decreases *old(node),
    {
        proof {
            broadcast use lemma_node_seq_contains;

        }
        match node.take() {
            None => None,
            Some(mut boxed) => {
                let ghost orig = *boxed;
                proof {
                    assert(*old(node) == Some(boxed));
                    assert(opt_seq(*old(node)) == orig.to_seq());
                    assert(opt_wf(*old(node)) == orig.wf());
                }
                if target == boxed.item {
                    let (it, replacement) = (*boxed).remove_self();
                    *node = replacement;
                    proof {
                        lemma_concat_contains(opt_seq(orig.left), opt_seq(orig.right));
                        assert(orig.to_seq()[opt_seq(orig.left).len() as int] == target);
                        assert(opt_seq(*node).len() == opt_seq(orig.left).len() + opt_seq(
                            orig.right,
                        ).len());
                    }
                    Some(it)
                } else if target < boxed.item {
                    let removed = Self::remove_from_opt(&mut boxed.left, target);
                    proof {
                        assert(!opt_seq(orig.right).contains(target));
                        assert(boxed.to_seq() == opt_seq(boxed.left) + seq![boxed.item] + opt_seq(
                            boxed.right,
                        ));
                    }
                    *node = Some(boxed);
                    removed
                } else {
                    let removed = Self::remove_from_opt(&mut boxed.right, target);
                    proof {
                        assert(!opt_seq(orig.left).contains(target));
                        assert(boxed.to_seq() == opt_seq(boxed.left) + seq![boxed.item] + opt_seq(
                            boxed.right,
                        ));
                    }
                    *node = Some(boxed);
                    removed
                }
            },
        }
    }
}

impl View for BinaryTree {
    type V = Seq<i64>;

    /// A tree is viewed as its in-order sequence of elements.
    closed spec fn view(&self) -> Seq<i64> {
        opt_seq(self.root)
    }
}

impl Default for BinaryTree {
    /// The empty tree.
    fn default() -> (tree: Self)
        ensures
            tree.wf(),
            tree@ == Seq::<i64>::empty(),
    {
        BinaryTree { root: None, len: 0 }
    }
}

impl BinaryTree {
    /// Well-formedness: the ordering invariant holds and the stored length
    /// matches the number of elements.
    pub closed spec fn wf(self) -> bool {
        opt_wf(self.root) && self.len == self@.len()
    }

    /// Create an empty binary tree.
    pub fn new() -> (tree: Self)
        ensures
            tree.wf(),
            tree@ == Seq::<i64>::empty(),
    {
        BinaryTree { root: None, len: 0 }
    }

    /// Number of items stored in this tree.
    pub fn len(&self) -> (n: usize)
        requires
            self.wf(),
        ensures
            n == self@.len(),
    {
        self.len
    }

    /// Whether there are any items in this tree.
    pub fn is_empty(&self) -> (b: bool)
        ensures
            b == (self@.len() == 0),
    {
        match &self.root {
            None => true,
            Some(_) => false,
        }
    }

    /// The tree that `insert` produces, as a value: the element is placed at
    /// the leaf position that the search order dictates, and the stored
    /// length grows exactly when the element is new.
    pub closed spec fn spec_insert(self, x: i64) -> Self {
        BinaryTree {
            root: spec_insert_opt(self.root, x),
            len: if self@.contains(x) {
                self.len
            } else {
                (self.len + 1) as usize
            },
        }
    }

    /// Adds a value to the tree.
    /// If the tree did not have this value present, `true` is returned.
    /// If the tree did have this value present, `false` is returned.
    pub fn insert(&mut self, item: i64) -> (inserted: bool)
        requires
            old(self).wf(),
            old(self)@.len() < usize::MAX,
        ensures
            final(self).wf(),
            *final(self) == old(self).spec_insert(item),
            inserted == !old(self)@.contains(item),
            forall|y: i64| #[trigger] final(self)@.contains(y) <==> (old(self)@.contains(y) || y
                == item),
            old(self)@.contains(item) ==> *final(self) == *old(self),
            final(self)@.len() == old(self)@.len() + (if inserted {
                1int
            } else {
                0int
            }),
    {
        proof {
            lemma_spec_insert_opt(self.root, item);
        }
        let inserted = Node::insert_opt(&mut self.root, item);
        if inserted {
            self.len = self.len + 1;
        }
        inserted
    }

    /// Returns true if the tree contains an element with the given value.
    pub fn contains(&self, item: i64) -> (found: bool)
        requires
            self.wf(),
        ensures
            found == self@.contains(item),
    {
        match &self.root {
            None => false,
            Some(r) => r.find(item),
        }
    }

    /// The tree that `remove_item` produces, as a value: the element's node
    /// is spliced out by the child-count policy — its in-order successor
    /// takes its place when it has two children — and the stored length
    /// shrinks exactly when the element was present.
    pub closed spec fn spec_remove(self, x: i64) -> Self {
        BinaryTree {
            root: spec_remove_opt(self.root, x),
            len: if self@.contains(x) {
                (self.len - 1) as usize
            } else {
                self.len
            },
        }
    }

    /// Removes an item and returns it if found.  A missing item leaves the
    /// tree untouched; a found one is spliced out and every other element
    /// stays.
    pub fn remove_item(&mut self, item: i64) -> (removed: Option<i64>)
        requires
            old(self).wf(),
        ensures
            final(self).wf(),
            *final(self) == old(self).spec_remove(item),
            removed == if old(self)@.contains(item) {
                Some(item)
            } else {
                None::<i64>
            },
            forall|y: i64| #[trigger] final(self)@.contains(y) <==> (old(self)@.contains(y) && y
                != item),
            !old(self)@.contains(item) ==> *final(self) == *old(self),
            final(self)@.len() == old(self)@.len() - (if old(self)@.contains(item) {
                1int
            } else {
                0int
            }),
    {
        let removed = Node::remove_from_opt(&mut self.root, item);
        if removed.is_some() {
            self.len = self.len - 1;
        }
        removed
    }

    /// Height of the tree: 0 when empty, otherwise the greatest number of
    /// nodes on a path from the root down to a leaf.
    pub closed spec fn height_spec(self) -> nat {
        opt_height(self.root)
    }

    /// Height of the tree.
    pub fn height(&self) -> (h: usize)
        requires
            self.wf(),
        ensures
            h == self.height_spec(),
    {
        proof {
            lemma_opt_height_le_len(self.root);
        }
        match &self.root {
            None => 0,
            Some(r) => r.height(),
        }
    }

    /// Returns the minimum item in the tree, or `None` if there are no items.
    pub fn min(&self) -> (m: Option<i64>)
        requires
            self.wf(),
        ensures
            m == if self@.len() == 0 {
                None::<i64>
            } else {
                Some(self@.first())
            },
    {
        proof {
            lemma_opt_wf_sorted(self.root);
        }
        match &self.root {
            None => None,
            Some(r) => {
                let v = r.min();
                proof {
                    assert(self@.contains(self@.first())) by {
                        assert(self@[0] == self@.first());
                    }
                    let i = choose|i: int| 0 <= i < self@.len() && self@[i] == v;
                    assert(self@[0] <= self@[i]);
                }
                Some(v)
            },
        }
    }

    /// Returns the maximum item in the tree, or `None` if there are no items.
    pub fn max(&self) -> (m: Option<i64>)
        requires
            self.wf(),
        ensures
            m == if self@.len() == 0 {
                None::<i64>
            } else {
                Some(self@.last())
            },
    {
        proof {
            lemma_opt_wf_sorted(self.root);
        }
        match &self.root {
            None => None,
            Some(r) => {
                let v = r.max();
                proof {
                    assert(self@.contains(self@.last())) by {
                        assert(self@[self@.len() - 1] == self@.last());
                    }
                    let i = choose|i: int| 0 <= i < self@.len() && self@[i] == v;
                    assert(self@[i] <= self@[self@.len() - 1]);
                }
                Some(v)
            },
        }
    }

    /// Append every item of the tree to `out`, in increasing order.
    pub fn for_each(&self, out: &mut Vec<i64>)
        ensures
            final(out)@ == old(out)@ + self@,
    {
        match &self.root {
            None => {
                proof {
                    assert(out@ =~= out@ + self@);
                }
            },
            Some(r) => r.for_each(out),
        }
    }

    /// The items of the tree in increasing order, collected into a vector.
    pub fn iter(&self) -> (items: Vec<i64>)
        ensures
            items@ == self@,
    {
        let mut items: Vec<i64> = Vec::new();
        self.for_each(&mut items);
        proof {
            assert(items@ =~= self@);
        }
        items
    }
}

/// In-order traversal of a well-formed tree yields a strictly ascending
/// sequence; in particular it repeats no element.
pub proof fn lemma_inorder_strictly_sorted(tree: BinaryTree)
    requires
        tree.wf(),
    ensures
        strictly_sorted(tree@),
{
    lemma_opt_wf_sorted(tree.root);
}

/// Two strictly ascending sequences with the same members are the same
/// sequence.
pub proof fn lemma_strictly_sorted_unique(a: Seq<i64>, b: Seq<i64>)
    requires
        strictly_sorted(a),
        strictly_sorted(b),
        forall|y: i64| a.contains(y) <==> b.contains(y),
    ensures
        a == b,
    decreases a.len(),
{
    if a.len() == 0 {
        if b.len() > 0 {
            assert(b.contains(b[0]));
            assert(a.contains(b[0]));
        }
        assert(a =~= b);
    } else {
        assert(a.contains(a[0]));
        assert(b.contains(a[0]));
        assert(b.len() > 0);
        assert(b.contains(b[0]));
        assert(a.contains(b[0]));
        let i = choose|i: int| 0 <= i < b.len() && b[i] == a[0];
        let j = choose|j: int| 0 <= j < a.len() && a[j] == b[0];
        assert(i > 0 ==> b[0] < b[i]);
        assert(j > 0 ==> a[0] < a[j]);
        assert(a[0] == b[0]);
        let at = a.drop_first();
        let bt = b.drop_first();
        assert forall|y: i64| at.contains(y) <==> bt.contains(y) by {
            assert forall|y: i64| #[trigger] at.contains(y) implies (a.contains(y) && y != a[0]) by {
                let k = choose|k: int| 0 <= k < at.len() && at[k] == y;
                assert(a[k + 1] == y);
            }
            assert forall|y: i64| #[trigger] bt.contains(y) implies (b.contains(y) && y != b[0]) by {
                let k = choose|k: int| 0 <= k < bt.len() && bt[k] == y;
                assert(b[k + 1] == y);
            }
            assert forall|y: i64| a.contains(y) && y != a[0] implies #[trigger] at.contains(
                y,
            ) by {
                let k = choose|k: int| 0 <= k < a.len() && a[k] == y;
                assert(k >= 1);
                assert(at[k - 1] == y);
            }
            assert forall|y: i64| b.contains(y) && y != b[0] implies #[trigger] bt.contains(
                y,
            ) by {
                let k = choose|k: int| 0 <= k < b.len() && b[k] == y;
                assert(k >= 1);
                assert(bt[k - 1] == y);
            }
        }
        lemma_strictly_sorted_unique(at, bt);
        assert(at.len() == bt.len());
        assert(a.len() == b.len());
        assert forall|k: int| 0 <= k < a.len() implies a[k] == b[k] by {
            if k > 0 {
                assert(0 <= k - 1 < at.len());
                assert(at[k - 1] == a[k]);
                assert(0 <= k - 1 < bt.len());
                assert(bt[k - 1] == b[k]);
                assert(at[k - 1] == bt[k - 1]);
            }
        }
        assert(a =~= b);
    }
}

/// Equality of well-formed trees ignores shape: holding the same elements
/// forces the same in-order reading, whatever the insertion orders were.
pub proof fn lemma_same_elements_same_inorder(t1: BinaryTree, t2: BinaryTree)
    requires
        t1.wf(),
        t2.wf(),
        forall|y: i64| t1@.contains(y) <==> t2@.contains(y),
    ensures
        t1@ == t2@,
{
    lemma_inorder_strictly_sorted(t1);
    lemma_inorder_strictly_sorted(t2);
    lemma_strictly_sorted_unique(t1@, t2@);
}

impl PartialEq for BinaryTree {
    /// Two trees are equal when their in-order sequences are equal; the
    /// comparison never looks at shape.
    fn eq(&self, other: &Self) -> (r: bool) {
        let a = self.iter();
        let b = other.iter();
        if a.len() != b.len() {
            return false;
        }
        let n = a.len();
        let mut i: usize = 0;
        while i < n
            invariant
                n == a@.len(),
                n == b@.len(),
                0 <= i <= n,
                a@ == self@,
                b@ == other@,
                forall|k: int| 0 <= k < i ==> a@[k] == b@[k],
            decreases n - i,
        {
            if a[i] != b[i] {
                return false;
            }
            i = i + 1;
        }
        proof {
            assert(self@ =~= other@);
        }
        true
    }
}

impl vstd::std_specs::cmp::PartialEqSpecImpl for BinaryTree {
    open spec fn obeys_eq_spec() -> bool {
        true
    }

    open spec fn eq_spec(&self, other: &Self) -> bool {
        self@ == other@
    }
}

/// The tree built by inserting the items of a sequence in order, starting
/// from the empty tree; duplicates are dropped as they are met.
pub closed spec fn spec_from_seq(items: Seq<i64>) -> BinaryTree
    decreases items.len(),
{
    if items.len() == 0 {
        BinaryTree { root: None, len: 0 }
    } else {
        spec_from_seq(items.drop_last()).spec_insert(items.last())
    }
}

/// What insertion does at the tree level: a well-formed tree stays well
/// formed, gains exactly the new element, and is untouched by a duplicate.
pub proof fn lemma_spec_insert(tree: BinaryTree, x: i64)
    requires
        tree.wf(),
        tree@.contains(x) || tree@.len() < usize::MAX,
    ensures
        tree.spec_insert(x).wf(),
        forall|y: i64| #[trigger] tree.spec_insert(x)@.contains(y) <==> (tree@.contains(y) || y
            == x),
        tree@.contains(x) ==> tree.spec_insert(x) == tree,
        tree.spec_insert(x)@.len() == tree@.len() + (if tree@.contains(x) {
            0int
        } else {
            1int
        }),
{
    lemma_spec_insert_opt(tree.root, x);
}

/// Inserting the same element twice changes the tree only once: the second
/// insertion finds the element present and is a no-op, so the length grows
/// only with the first.
pub proof fn lemma_insert_twice(tree: BinaryTree, x: i64)
    requires
        tree.wf(),
        tree@.len() < usize::MAX,
    ensures
        tree.spec_insert(x)@.contains(x),
        tree.spec_insert(x).spec_insert(x) == tree.spec_insert(x),
        !tree@.contains(x) ==> tree.spec_insert(x)@.len() == tree@.len() + 1,
{
    lemma_spec_insert(tree, x);
    lemma_spec_insert(tree.spec_insert(x), x);
}

/// What removal does at the tree level: a well-formed tree stays well
/// formed, loses exactly the target, and is untouched when the target was
/// absent.
pub proof fn lemma_spec_remove(tree: BinaryTree, x: i64)
    requires
        tree.wf(),
    ensures
        tree.spec_remove(x).wf(),
        forall|y: i64| #[trigger] tree.spec_remove(x)@.contains(y) <==> (tree@.contains(y) && y
            != x),
        !tree@.contains(x) ==> tree.spec_remove(x) == tree,
        tree.spec_remove(x)@.len() == tree@.len() - (if tree@.contains(x) {
            1int
        } else {
            0int
        }),
{
    lemma_spec_remove_opt(tree.root, x);
}

/// Removing the same element twice changes the tree only once: after the
/// first removal the element is gone, so the second finds nothing and hands
/// the tree back unchanged.
pub proof fn lemma_remove_twice(tree: BinaryTree, x: i64)
    requires
        tree.wf(),
    ensures
        !tree.spec_remove(x)@.contains(x),
        tree.spec_remove(x).spec_remove(x) == tree.spec_remove(x),
{
    lemma_spec_remove(tree, x);
    lemma_spec_remove(tree.spec_remove(x), x);
}

/// Building from a sequence yields a well-formed tree that holds exactly the
/// members of the sequence.
pub proof fn lemma_spec_from_seq(items: Seq<i64>)
    requires
        items.len() <= usize::MAX,
    ensures
        spec_from_seq(items).wf(),
        forall|y: i64| #[trigger] spec_from_seq(items)@.contains(y) <==> items.contains(y),
        spec_from_seq(items)@.len() <= items.len(),
    decreases items.len(),
{
    if items.len() == 0 {
        assert(forall|y: i64| !items.contains(y));
    } else {
        let prev = items.drop_last();
        let x = items.last();
        lemma_spec_from_seq(prev);
        lemma_spec_insert(spec_from_seq(prev), x);
        assert forall|y: i64| #[trigger] items.contains(y) <==> (prev.contains(y) || y == x) by {
            lemma_concat_contains(prev, seq![x]);
            assert(items =~= prev + seq![x]);
        }
    }
}

/// Round trip: a tree built from any sequence reads back, in order, as the
/// unique strictly ascending sequence over that sequence's members — for
/// distinct items, exactly their sorted rearrangement.
pub proof fn lemma_round_trip(items: Seq<i64>, sorted_items: Seq<i64>)
    requires
        items.len() <= usize::MAX,
        strictly_sorted(sorted_items),
        forall|y: i64| sorted_items.contains(y) <==> items.contains(y),
    ensures
        spec_from_seq(items)@ == sorted_items,
{
    lemma_spec_from_seq(items);
    lemma_inorder_strictly_sorted(spec_from_seq(items));
    lemma_strictly_sorted_unique(spec_from_seq(items)@, sorted_items);
}

/// A subtree in which no node has a left child: the degenerate chain that
/// ascending insertions build.
pub(crate) open spec fn right_chain(o: Option<Box<Node>>) -> bool
    decreases o,
{
    match o {
        None => true,
        Some(n) => n.left is None && right_chain(n.right),
    }
}

/// Inserting a new maximum into a right chain deepens it by exactly one.
pub(crate) proof fn lemma_chain_insert_max(o: Option<Box<Node>>, x: i64)
    requires
        opt_wf(o),
        right_chain(o),
        forall|y: i64| opt_seq(o).contains(y) ==> y < x,
    ensures
        right_chain(spec_insert_opt(o, x)),
        opt_height(spec_insert_opt(o, x)) == opt_height(o) + 1,
    decreases o,
{
    broadcast use lemma_node_seq_contains;

    match o {
        None => {},
        Some(n) => {
            assert(opt_seq(o) == n.to_seq());
            assert(n.to_seq().contains(n.item)) by {
                assert(n.to_seq()[opt_seq(n.left).len() as int] == n.item);
            }
            assert(opt_seq(o).contains(n.item));
            assert(n.item < x);
            assert forall|y: i64| #[trigger] opt_seq(n.right).contains(y) implies y < x by {
                assert(n.to_seq().contains(y));
                assert(opt_seq(o).contains(y));
            }
            lemma_chain_insert_max(n.right, x);
        },
    }
}

/// Strictly ascending insertions keep the tree a right chain, one level per
/// element.
proof fn lemma_ascending_chain(items: Seq<i64>)
    requires
        items.len() <= usize::MAX,
        strictly_sorted(items),
    ensures
        spec_from_seq(items).wf(),
        right_chain(spec_from_seq(items).root),
        spec_from_seq(items).height_spec() == items.len(),
        spec_from_seq(items)@.len() == items.len(),
    decreases items.len(),
{
    if items.len() > 0 {
        let prev = items.drop_last();
        let x = items.last();
        assert(strictly_sorted(prev)) by {
            assert forall|i: int, j: int| 0 <= i < j < prev.len() implies prev[i] < prev[j] by {
                assert(prev[i] == items[i]);
                assert(prev[j] == items[j]);
            }
        }
        lemma_ascending_chain(prev);
        lemma_spec_from_seq(prev);
        let t = spec_from_seq(prev);
        assert forall|y: i64| #[trigger] t@.contains(y) implies y < x by {
            assert(prev.contains(y));
            let k = choose|k: int| 0 <= k < prev.len() && prev[k] == y;
            assert(prev[k] == items[k]);
            assert(items[k] < items[items.len() - 1]);
        }
        assert(!t@.contains(x));
        lemma_spec_insert(t, x);
        lemma_chain_insert_max(t.root, x);
    }
}

/// Height of a tree built by inserting `n` elements in strictly ascending
/// order: the tree degenerates into a chain, so its height is exactly `n`.
pub proof fn lemma_ascending_inserts_height(items: Seq<i64>)
    requires
        items.len() <= usize::MAX,
        strictly_sorted(items),
    ensures
        spec_from_seq(items).height_spec() == items.len(),
        spec_from_seq(items)@.len() == items.len(),
{
    lemma_ascending_chain(items);
}

impl From<Vec<i64>> for BinaryTree {
    /// Builds the tree by inserting the items in order; later duplicates are
    /// silently dropped.
    fn from(items: Vec<i64>) -> (tree: Self) {
        let mut tree = BinaryTree::new();
        let n = items.len();
        let mut i: usize = 0;
        while i < n
            invariant
                n == items@.len(),
                0 <= i <= n,
                tree.wf(),
                tree == spec_from_seq(items@.take(i as int)),
                tree@.len() <= i,
            decreases n - i,
        {
            proof {
                let t = items@.take(i + 1);
                assert(t.drop_last() =~= items@.take(i as int));
                assert(t.last() == items@[i as int]);
            }
            tree.insert(items[i]);
            i = i + 1;
        }
        proof {
            assert(items@.take(n as int) =~= items@);
        }
        tree
    }
}

impl vstd::std_specs::convert::FromSpecImpl<Vec<i64>> for BinaryTree {
    open spec fn obeys_from_spec() -> bool {
        true
    }

    open spec fn from_spec(items: Vec<i64>) -> Self {
        spec_from_seq(items@)
    }
}

} // verus!
