//! The tree handle, its arena of nodes, and the search and mutation
//! operations, each verified against the shape model.

use vstd::prelude::*;

use crate::model::{
    clean, indices, inorder, key_count, levels, ordered, path_valid, size, sorted_by_key,
    spec_delete, spec_find, spec_find_value, spec_insert, spec_remove_min, sub_at, Shape,
};

verus! {

/// The reserved per-node attribute slot. It carries no behaviour yet; it
/// exists so that the node layout can later be augmented (say with a balance
/// factor or a colour) without reshaping the structure.
#[derive(Clone, Copy, PartialEq, Eq, Structural)]
pub struct NoAttr;

/// One arena cell: a node's payload and its links, all links being arena
/// indices. The parent link is relational only — the arena owns every node —
/// so it can never dangle.
#[derive(Clone, Copy)]
pub struct NodeCell {
    pub key: i64,
    pub value: i64,
    pub attribute: NoAttr,
    pub left: Option<usize>,
    pub right: Option<usize>,
    pub parent: Option<usize>,
}

/// The arena agrees with the shape: `slot` holds the shape's root index, that
/// cell carries the shape's key and value, its parent link is `par`, and its
/// child links agree with the subtree shapes, recursively.
pub open spec fn repr(
    ns: Seq<NodeCell>,
    slot: Option<usize>,
    par: Option<usize>,
    s: Shape,
) -> bool
    decreases s,
{
    match s {
        Shape::Nil => slot is None,
        Shape::Node { idx, key, val, left, right } => {
            &&& slot == Some(idx)
            &&& idx < ns.len()
            &&& ns[idx as int].key == key
            &&& ns[idx as int].value == val
            &&& ns[idx as int].parent == par
            &&& repr(ns, ns[idx as int].left, Some(idx), *left)
            &&& repr(ns, ns[idx as int].right, Some(idx), *right)
        },
    }
}

/// Every index of a represented shape lies inside the arena.
pub proof fn lemma_repr_bounds(ns: Seq<NodeCell>, slot: Option<usize>, par: Option<usize>, s: Shape)
    requires
        repr(ns, slot, par, s),
    ensures
        forall|j: int| #[trigger] indices(s).contains(j) ==> 0 <= j < ns.len(),
    decreases s,
{
    match s {
        Shape::Nil => {
            assert(indices(s) =~= Set::empty());
        },
        Shape::Node { idx, left, right, .. } => {
            lemma_repr_bounds(ns, ns[idx as int].left, Some(idx), *left);
            lemma_repr_bounds(ns, ns[idx as int].right, Some(idx), *right);
            assert(indices(s) =~= indices(*left).union(indices(*right)).insert(idx as int));
        },
    }
}

/// Representation only reads the cells at the shape's own indices, so it
/// survives any change outside them, the arena growing included.
pub proof fn lemma_repr_frame(
    ns1: Seq<NodeCell>,
    ns2: Seq<NodeCell>,
    slot: Option<usize>,
    par: Option<usize>,
    s: Shape,
)
    requires
        repr(ns1, slot, par, s),
        ns1.len() <= ns2.len(),
        forall|j: int| indices(s).contains(j) ==> ns2[j] == ns1[j],
    ensures
        repr(ns2, slot, par, s),
    decreases s,
{
    match s {
        Shape::Nil => {},
        Shape::Node { idx, left, right, .. } => {
            lemma_repr_frame(ns1, ns2, ns1[idx as int].left, Some(idx), *left);
            lemma_repr_frame(ns1, ns2, ns1[idx as int].right, Some(idx), *right);
        },
    }
}

/// An ordered binary search tree. The handle owns the arena holding every
/// node and the index of the root, plus the ghost shape the contracts speak
/// of. Cells that a deletion detaches stay in the arena as unreachable
/// garbage; indices are therefore never reused, and a node's index identifies
/// it for the whole life of the tree.
pub struct BinarySearchTree {
    pub(crate) nodes: Vec<NodeCell>,
    pub(crate) root: Option<usize>,
    pub(crate) shape: Ghost<Shape>,
}

/// The abstraction every tree capability is specified against: the shape the
/// tree currently represents, its well-formedness, and the identifier that
/// the next created node will receive.
pub trait TreeSpec {
    /// The tree's abstract shape.
    spec fn model(&self) -> Shape;

    /// The well-formedness invariant: the arena represents the shape, every
    /// index occurs once, and the search-tree order holds.
    spec fn wf(&self) -> bool;

    /// The identifier the next inserted node will carry.
    spec fn next_id(&self) -> usize;
}

impl TreeSpec for BinarySearchTree {
    closed spec fn model(&self) -> Shape {
        self.shape@
    }

    closed spec fn wf(&self) -> bool {
        &&& repr(self.nodes@, self.root, None, self.shape@)
        &&& clean(self.shape@)
        &&& ordered(self.shape@)
    }

    closed spec fn next_id(&self) -> usize {
        self.nodes.len()
    }
}

/// Read-only queries over a searchable tree.
pub trait SearchTree: TreeSpec {
    /// Does the standard descent find the key? Equivalently (for a
    /// well-formed tree): does any node carry it?
    fn contains(&self, key: i64) -> (r: bool)
        requires
            self.wf(),
        ensures
            r == (spec_find(self.model(), key) is Some),
            r == (key_count(self.model(), key) > 0),
    ;

    /// The value of the node the standard descent finds, if any.
    fn find_value<'a>(&'a self, key: i64) -> (r: Option<&'a i64>)
        requires
            self.wf(),
        ensures
            match spec_find_value(self.model(), key) {
                Some(v) => r matches Some(rv) && *rv == v,
                None => r is None,
            },
    ;

    /// The node the standard descent finds, as a read-only view, if any:
    /// equal stops, smaller goes left, otherwise right, by iterative descent
    /// from the root.
    fn find_node<'a>(&'a self, key: i64) -> (r: Option<Node<'a>>)
        requires
            self.wf(),
        ensures
            match spec_find(self.model(), key) {
                Some(p) => r matches Some(n) && n.wf() && n.root_shape() == self.model()
                    && n.spec_path() == p,
                None => r is None,
            },
    ;

    /// The in-order sequence of (key, value) pairs: ascending by key,
    /// duplicates kept in their right-biased order. Computed iteratively with
    /// an explicit stack, so a fully skewed tree cannot exhaust the call
    /// stack.
    fn traverse(&self) -> (r: Vec<(i64, i64)>)
        requires
            self.wf(),
        ensures
            r@ == inorder(self.model()),
            sorted_by_key(r@),
    ;
}

/// What the traversal still owes once the nodes on the stack are reached:
/// for each stacked node, from the top down, its own pair and then its whole
/// right subtree.
spec fn stack_rest(entries: Seq<(Shape, Option<usize>)>) -> Seq<(i64, i64)>
    decreases entries.len(),
{
    if entries.len() == 0 {
        Seq::empty()
    } else {
        let top = entries.last().0;
        seq![(top->Node_key, top->Node_val)] + inorder(*top->Node_right) + stack_rest(
            entries.drop_last(),
        )
    }
}

/// A termination measure for the traversal loop.
spec fn stack_measure(entries: Seq<(Shape, Option<usize>)>) -> nat
    decreases entries.len(),
{
    if entries.len() == 0 {
        0
    } else {
        1 + 2 * size(*entries.last().0->Node_right) + stack_measure(entries.drop_last())
    }
}

impl SearchTree for BinarySearchTree {
    fn contains(&self, key: i64) -> (r: bool) {
        proof {
            crate::laws::lemma_find_iff_present(self.shape@, key);
        }
        match self.find_node(key) {
            Some(_) => true,
            None => false,
        }
    }

    fn find_value<'a>(&'a self, key: i64) -> (r: Option<&'a i64>) {
        match self.find_node(key) {
            None => None,
            Some(n) => {
                proof {
                    lemma_repr_at_path(self.nodes@, self.root, None, self.shape@, n.path@);
                    match sub_at(self.shape@, n.path@) {
                        Shape::Nil => {},
                        Shape::Node { .. } => {},
                    }
                }
                Some(&self.nodes[n.idx].value)
            },
        }
    }

    fn find_node<'a>(&'a self, key: i64) -> (r: Option<Node<'a>>) {
        let mut cur: Option<usize> = self.root;
        let ghost mut cpath: Seq<bool> = Seq::empty();
        let ghost mut cshape: Shape = self.shape@;
        let ghost mut cpar: Option<usize> = None;
        proof {
            assert(cpath + Seq::<bool>::empty() =~= cpath);
        }
        while cur.is_some()
            invariant
                self.wf(),
                repr(self.nodes@, cur, cpar, cshape),
                cur is Some ==> path_valid(self.model(), cpath) && sub_at(self.model(), cpath)
                    == cshape,
                spec_find(self.model(), key) == match spec_find(cshape, key) {
                    Some(p) => Some(cpath + p),
                    None => None::<Seq<bool>>,
                },
            decreases size(cshape),
        {
            let i = cur.unwrap();
            proof {
                match cshape {
                    Shape::Nil => {
                        assert(false);
                    },
                    Shape::Node { .. } => {},
                }
            }
            let k0 = self.nodes[i].key;
            let ghost ls = *cshape->Node_left;
            let ghost rs = *cshape->Node_right;
            if key == k0 {
                proof {
                    assert(cpath + Seq::<bool>::empty() =~= cpath);
                }
                return Some(Node { tree: self, idx: i, path: Ghost(cpath) });
            } else if key < k0 {
                proof {
                    crate::model::lemma_path_push(self.model(), cpath, false);
                    match spec_find(ls, key) {
                        Some(p) => {
                            assert(cpath + (seq![false] + p) =~= cpath.push(false) + p);
                        },
                        None => {},
                    }
                }
                cur = self.nodes[i].left;
                proof {
                    cpath = cpath.push(false);
                    cshape = ls;
                    cpar = Some(i);
                }
            } else {
                proof {
                    crate::model::lemma_path_push(self.model(), cpath, true);
                    match spec_find(rs, key) {
                        Some(p) => {
                            assert(cpath + (seq![true] + p) =~= cpath.push(true) + p);
                        },
                        None => {},
                    }
                }
                cur = self.nodes[i].right;
                proof {
                    cpath = cpath.push(true);
                    cshape = rs;
                    cpar = Some(i);
                }
            }
        }
        proof {
            match cshape {
                Shape::Nil => {},
                Shape::Node { .. } => {
                    assert(false);
                },
            }
        }
        None
    }

    fn traverse(&self) -> (r: Vec<(i64, i64)>) {
        let mut out: Vec<(i64, i64)> = Vec::new();
        let mut stack: Vec<usize> = Vec::new();
        let ghost mut sents: Seq<(Shape, Option<usize>)> = Seq::empty();
        let mut cur: Option<usize> = self.root;
        let ghost mut cshape: Shape = self.shape@;
        let ghost mut cpar: Option<usize> = None;
        proof {
            assert(out@ + inorder(cshape) + stack_rest(sents) =~= inorder(self.shape@));
        }
        loop
            invariant
                self.wf(),
                stack@.len() == sents.len(),
                forall|j: int|
                    0 <= j < sents.len() ==> (#[trigger] sents[j]).0 is Node && repr(
                        self.nodes@,
                        Some(stack@[j]),
                        sents[j].1,
                        sents[j].0,
                    ),
                repr(self.nodes@, cur, cpar, cshape),
                out@ + inorder(cshape) + stack_rest(sents) == inorder(self.model()),
            decreases 2 * size(cshape) + stack_measure(sents),
        {
            match cur {
                Some(i) => {
                    proof {
                        match cshape {
                            Shape::Nil => {
                                assert(false);
                            },
                            Shape::Node { .. } => {},
                        }
                    }
                    let ghost ls = *cshape->Node_left;
                    let ghost rs = *cshape->Node_right;
                    stack.push(i);
                    let nxt = self.nodes[i].left;
                    proof {
                        let old_sents = sents;
                        let old_shape = cshape;
                        sents = sents.push((cshape, cpar));
                        assert(sents.drop_last() =~= old_sents);
                        assert(sents.last() == (old_shape, cpar));
                        assert(stack_rest(sents) == seq![
                            (old_shape->Node_key, old_shape->Node_val),
                        ] + inorder(rs) + stack_rest(old_sents));
                        assert(stack_measure(sents) == 1 + 2 * size(rs) + stack_measure(old_sents));
                        assert(out@ + inorder(old_shape) + stack_rest(old_sents) =~= out@ + inorder(
                            ls,
                        ) + stack_rest(sents));
                        cshape = ls;
                        cpar = Some(i);
                    }
                    cur = nxt;
                },
                None => {
                    proof {
                        match cshape {
                            Shape::Nil => {},
                            Shape::Node { .. } => {
                                assert(false);
                            },
                        }
                    }
                    if stack.len() == 0 {
                        proof {
                            assert(out@ + inorder(cshape) + stack_rest(sents) =~= out@);
                            crate::laws::lemma_ordered_inorder_sorted(self.shape@);
                        }
                        return out;
                    }
                    let ghost old_out = out@;
                    let ghost top = sents.last().0;
                    let ghost tpar = sents.last().1;
                    let i_opt = stack.pop();
                    let i = i_opt.unwrap();
                    proof {
                        assert(repr(self.nodes@, Some(stack@.push(i)[sents.len() - 1]), tpar, top));
                        match top {
                            Shape::Nil => {
                                assert(false);
                            },
                            Shape::Node { .. } => {},
                        }
                        assert(i == top->Node_idx);
                    }
                    let k = self.nodes[i].key;
                    let v = self.nodes[i].value;
                    out.push((k, v));
                    let nxt = self.nodes[i].right;
                    proof {
                        let old_sents = sents;
                        assert(stack_rest(old_sents) == seq![(k, v)] + inorder(*top->Node_right)
                            + stack_rest(old_sents.drop_last()));
                        assert(stack_measure(old_sents) == 1 + 2 * size(*top->Node_right)
                            + stack_measure(old_sents.drop_last()));
                        assert(out@ =~= old_out + seq![(k, v)]);
                        assert(old_out + inorder(cshape) + stack_rest(old_sents) =~= out@ + inorder(
                            *top->Node_right,
                        ) + stack_rest(old_sents.drop_last()));
                        cshape = *top->Node_right;
                        cpar = Some(i);
                        sents = sents.drop_last();
                    }
                    cur = nxt;
                },
            }
        }
    }
}

/// Insertion and deletion.
pub trait MutableTree: TreeSpec {
    /// Insert `(key, value)` as a fresh node at the empty slot the standard
    /// descent reaches; an existing equal key routes the new node into its
    /// right subtree. The new node's identifier is `old(self).next_id()`, an
    /// identifier no live node carries.
    fn insert(&mut self, key: i64, value: i64)
        requires
            old(self).wf(),
        ensures
            final(self).wf(),
            final(self).model() == spec_insert(
                old(self).model(),
                old(self).next_id(),
                key,
                value,
            ),
            !indices(old(self).model()).contains(old(self).next_id() as int),
            ordered(final(self).model()),
            final(self).next_id() == old(self).next_id() + 1,
    ;

    /// Remove the node that the standard descent finds for `key`: a leaf is
    /// detached, a one-child node is replaced by its child, and a two-child
    /// node takes over the key and value of its in-order successor (the
    /// leftmost node of its right subtree), which is detached in its stead.
    /// A missing key is a no-op.
    fn delete(&mut self, key: i64)
        requires
            old(self).wf(),
        ensures
            final(self).wf(),
            final(self).model() == spec_delete(old(self).model(), key),
            ordered(final(self).model()),
            final(self).next_id() == old(self).next_id(),
    ;
}

impl BinarySearchTree {
    /// An empty tree.
    pub fn init() -> (t: BinarySearchTree)
        ensures
            t.wf(),
            t.model() == Shape::Nil,
            t.next_id() == 0,
    {
        BinarySearchTree { nodes: Vec::new(), root: None, shape: Ghost(Shape::Nil) }
    }

    /// A view of the root node, if the tree has one.
    pub fn root_node<'a>(&'a self) -> (r: Option<Node<'a>>)
        requires
            self.wf(),
        ensures
            r is Some <==> self.model() is Node,
            r matches Some(n) ==> n.wf() && n.root_shape() == self.model() && n.spec_path()
                == Seq::<bool>::empty(),
    {
        match self.root {
            None => {
                proof {
                    match self.shape@ {
                        Shape::Nil => {},
                        Shape::Node { .. } => {
                            assert(false);
                        },
                    }
                }
                None
            },
            Some(ri) => {
                proof {
                    match self.shape@ {
                        Shape::Nil => {
                            assert(false);
                        },
                        Shape::Node { .. } => {},
                    }
                }
                Some(Node { tree: self, idx: ri, path: Ghost(Seq::empty()) })
            },
        }
    }
}

/// Unfold a tree's well-formedness for the sibling modules, which cannot see
/// through the closed definitions.
pub(crate) proof fn lemma_tree_wf(t: &BinarySearchTree)
    requires
        t.wf(),
    ensures
        repr(t.nodes@, t.root, None, t.shape@),
        clean(t.shape@),
        ordered(t.shape@),
        t.model() == t.shape@,
{
}

/// Unfold a node view's well-formedness for the sibling modules.
pub(crate) proof fn lemma_node_wf(n: Node<'_>)
    requires
        n.wf(),
    ensures
        n.tree.wf(),
        path_valid(n.tree.shape@, n.path@),
        sub_at(n.tree.shape@, n.path@) is Node,
        sub_at(n.tree.shape@, n.path@)->Node_idx == n.idx,
        n.root_shape() == n.tree.shape@,
        n.spec_path() == n.path@,
        n.sub() == sub_at(n.tree.shape@, n.path@),
{
}

/// Following a valid path from a represented root reaches a represented
/// node whose parent link names the node one step up the path (or the root's
/// own parent for the empty path).
pub proof fn lemma_repr_at_path(
    ns: Seq<NodeCell>,
    slot: Option<usize>,
    par: Option<usize>,
    s: Shape,
    path: Seq<bool>,
)
    requires
        repr(ns, slot, par, s),
        path_valid(s, path),
    ensures
        sub_at(s, path) is Node,
        repr(
            ns,
            Some(sub_at(s, path)->Node_idx),
            if path.len() == 0 {
                par
            } else {
                Some(sub_at(s, path.drop_last())->Node_idx)
            },
            sub_at(s, path),
        ),
    decreases path.len(),
{
    crate::model::lemma_path_sub_node(s, path);
    match s {
        Shape::Nil => {},
        Shape::Node { idx, left, right, .. } => {
            if path.len() == 0 {
            } else {
                let ghost child = if path[0] {
                    *right
                } else {
                    *left
                };
                let ghost cslot = if path[0] {
                    ns[idx as int].right
                } else {
                    ns[idx as int].left
                };
                lemma_repr_at_path(ns, cslot, Some(idx), child, path.drop_first());
                assert(sub_at(s, path) == sub_at(child, path.drop_first()));
                if path.len() == 1 {
                    assert(path.drop_last() =~= Seq::<bool>::empty());
                    assert(path.drop_first() =~= Seq::<bool>::empty());
                    assert(sub_at(s, path.drop_last()) == s);
                } else {
                    assert(path.drop_last()[0] == path[0]);
                    assert(path.drop_last().drop_first() =~= path.drop_first().drop_last());
                    assert(sub_at(s, path.drop_last()) == sub_at(
                        child,
                        path.drop_first().drop_last(),
                    ));
                }
            }
        },
    }
}

/// A read-only view of one node of a tree: the tree it lives in, the node's
/// identifier, and (ghost) the path from the root to it. Key, value, children
/// and parent can all be inspected through it; it can never outlive or dangle
/// from the arena it points into.
pub struct Node<'a> {
    pub(crate) tree: &'a BinarySearchTree,
    pub(crate) idx: usize,
    pub(crate) path: Ghost<Seq<bool>>,
}

impl<'a> Node<'a> {
    /// The shape of the whole tree this node belongs to.
    pub closed spec fn root_shape(self) -> Shape {
        self.tree.model()
    }

    /// The path from the tree's root to this node.
    pub closed spec fn spec_path(self) -> Seq<bool> {
        self.path@
    }

    /// The shape of the subtree rooted at this node.
    pub open spec fn sub(self) -> Shape {
        sub_at(self.root_shape(), self.spec_path())
    }

    /// The view is well-formed: its tree is, its path is valid, and its
    /// identifier is the one the path leads to.
    pub closed spec fn wf(self) -> bool {
        &&& self.tree.wf()
        &&& path_valid(self.root_shape(), self.spec_path())
        &&& self.sub() is Node
        &&& self.sub()->Node_idx == self.idx
    }

    /// The node's identifier: the index of its cell in the arena, fixed for
    /// the node's whole life.
    pub fn id(&self) -> (r: usize)
        requires
            self.wf(),
        ensures
            r == self.sub()->Node_idx,
    {
        self.idx
    }

    /// The node's key.
    pub fn key(&self) -> (r: i64)
        requires
            self.wf(),
        ensures
            r == self.sub()->Node_key,
    {
        proof {
            lemma_repr_at_path(
                self.tree.nodes@,
                self.tree.root,
                None,
                self.tree.shape@,
                self.path@,
            );
        }
        self.tree.nodes[self.idx].key
    }

    /// The node's value.
    pub fn value(&self) -> (r: i64)
        requires
            self.wf(),
        ensures
            r == self.sub()->Node_val,
    {
        proof {
            lemma_repr_at_path(
                self.tree.nodes@,
                self.tree.root,
                None,
                self.tree.shape@,
                self.path@,
            );
        }
        self.tree.nodes[self.idx].value
    }

    /// The root of the node's left subtree, if any.
    pub fn left(&self) -> (r: Option<Node<'a>>)
        requires
            self.wf(),
        ensures
            r is Some <==> *self.sub()->Node_left is Node,
            r matches Some(n) ==> n.wf() && n.root_shape() == self.root_shape() && n.sub()
                == *self.sub()->Node_left,
    {
        proof {
            lemma_repr_at_path(
                self.tree.nodes@,
                self.tree.root,
                None,
                self.tree.shape@,
                self.path@,
            );
            crate::model::lemma_path_push(self.root_shape(), self.path@, false);
            match self.sub() {
                Shape::Nil => {},
                Shape::Node { idx, left, right, .. } => {
                    assert(idx == self.idx);
                    assert(repr(
                        self.tree.nodes@,
                        self.tree.nodes@[self.idx as int].left,
                        Some(self.idx),
                        *left,
                    ));
                    match *left {
                        Shape::Nil => {
                            assert(self.tree.nodes@[self.idx as int].left is None);
                        },
                        Shape::Node { idx: ci, .. } => {
                            assert(self.tree.nodes@[self.idx as int].left == Some(ci));
                        },
                    }
                },
            }
        }
        let ghost sub = self.sub();
        match self.tree.nodes[self.idx].left {
            None => {
                proof {
                    match *sub->Node_left {
                        Shape::Nil => {},
                        Shape::Node { .. } => {
                            assert(false);
                        },
                    }
                }
                None
            },
            Some(li) => Some(Node { tree: self.tree, idx: li, path: Ghost(self.path@.push(false)) }),
        }
    }

    /// The root of the node's right subtree, if any.
    pub fn right(&self) -> (r: Option<Node<'a>>)
        requires
            self.wf(),
        ensures
            r is Some <==> *self.sub()->Node_right is Node,
            r matches Some(n) ==> n.wf() && n.root_shape() == self.root_shape() && n.sub()
                == *self.sub()->Node_right,
    {
        proof {
            lemma_repr_at_path(
                self.tree.nodes@,
                self.tree.root,
                None,
                self.tree.shape@,
                self.path@,
            );
            crate::model::lemma_path_push(self.root_shape(), self.path@, true);
            match self.sub() {
                Shape::Nil => {},
                Shape::Node { idx, left, right, .. } => {
                    assert(idx == self.idx);
                    assert(repr(
                        self.tree.nodes@,
                        self.tree.nodes@[self.idx as int].right,
                        Some(self.idx),
                        *right,
                    ));
                    match *right {
                        Shape::Nil => {
                            assert(self.tree.nodes@[self.idx as int].right is None);
                        },
                        Shape::Node { idx: ci, .. } => {
                            assert(self.tree.nodes@[self.idx as int].right == Some(ci));
                        },
                    }
                },
            }
        }
        let ghost sub = self.sub();
        match self.tree.nodes[self.idx].right {
            None => {
                proof {
                    match *sub->Node_right {
                        Shape::Nil => {},
                        Shape::Node { .. } => {
                            assert(false);
                        },
                    }
                }
                None
            },
            Some(ri) => Some(Node { tree: self.tree, idx: ri, path: Ghost(self.path@.push(true)) }),
        }
    }

    /// The longest downward path from this node, counted in edges: 0 when
    /// the node has no children. Nothing rebalances the tree, so ascending
    /// insertion drives this to one less than the number of nodes.
    pub fn max_depth(&self) -> (r: usize)
        requires
            self.wf(),
        ensures
            r + 1 == levels(self.sub()),
        decreases size(self.sub()),
    {
        proof {
            crate::laws::lemma_sub_size(self.tree.shape@, self.path@);
            crate::laws::lemma_indices_card(self.tree.shape@);
            lemma_repr_bounds(self.tree.nodes@, self.tree.root, None, self.tree.shape@);
            let n = self.tree.nodes@.len() as int;
            assert(indices(self.tree.shape@).subset_of(vstd::set_lib::set_int_range(0, n)));
            vstd::set_lib::lemma_int_range(0, n);
            vstd::set_lib::lemma_len_subset(
                indices(self.tree.shape@),
                vstd::set_lib::set_int_range(0, n),
            );
            vstd::std_specs::vec::axiom_spec_len(&self.tree.nodes);
            match self.sub() {
                Shape::Nil => {},
                Shape::Node { left, right, .. } => {
                    crate::laws::lemma_levels_le_size(*left);
                    crate::laws::lemma_levels_le_size(*right);
                    assert(size(self.sub()) == 1 + size(*left) + size(*right));
                },
            }
        }
        let ld: usize = match self.left() {
            Some(l) => {
                proof {
                    match self.sub() {
                        Shape::Nil => {},
                        Shape::Node { .. } => {},
                    }
                }
                l.max_depth() + 1
            },
            None => 0,
        };
        let rd: usize = match self.right() {
            Some(rn) => {
                proof {
                    match self.sub() {
                        Shape::Nil => {},
                        Shape::Node { .. } => {},
                    }
                }
                rn.max_depth() + 1
            },
            None => 0,
        };
        if ld >= rd {
            ld
        } else {
            rd
        }
    }

    /// The node currently holding this node as a child, or none at the root.
    pub fn parent(&self) -> (r: Option<Node<'a>>)
        requires
            self.wf(),
        ensures
            r is Some <==> self.spec_path().len() > 0,
            r matches Some(n) ==> n.wf() && n.root_shape() == self.root_shape() && n.sub()
                == sub_at(self.root_shape(), self.spec_path().drop_last()) && n.spec_path()
                == self.spec_path().drop_last(),
    {
        proof {
            lemma_repr_at_path(
                self.tree.nodes@,
                self.tree.root,
                None,
                self.tree.shape@,
                self.path@,
            );
            if self.path@.len() > 0 {
                crate::model::lemma_path_drop_last(self.root_shape(), self.path@);
            }
        }
        match self.tree.nodes[self.idx].parent {
            None => None,
            Some(pi) => Some(
                Node { tree: self.tree, idx: pi, path: Ghost(self.path@.drop_last()) },
            ),
        }
    }
}

/// Descend from cell `i` (the root of subtree `s`, whose parent link is
/// `par`) to the empty slot for `key` and attach a fresh cell there. The
/// fresh cell is pushed at the end of the arena; no cell outside the subtree
/// is touched.
fn insert_at(
    ns: &mut Vec<NodeCell>,
    i: usize,
    key: i64,
    value: i64,
    Ghost(s): Ghost<Shape>,
    Ghost(par): Ghost<Option<usize>>,
) -> (res: Ghost<Shape>)
    requires
        repr(old(ns)@, Some(i), par, s),
        clean(s),
    ensures
        final(ns)@.len() == old(ns)@.len() + 1,
        forall|j: int|
            0 <= j < old(ns)@.len() && !indices(s).contains(j) ==> final(ns)@[j] == old(ns)@[j],
        res@ == spec_insert(s, old(ns)@.len() as usize, key, value),
        repr(final(ns)@, Some(i), par, res@),
    decreases s,
{
    let ghost ls = *s->Node_left;
    let ghost rs = *s->Node_right;
    let ghost n0 = ns@;
    proof {
        match s {
            Shape::Nil => {
                assert(false);
            },
            Shape::Node { idx, key: sk, val: sv, left, right } => {
                assert(idx == i);
                assert(repr(n0, n0[i as int].left, Some(i), ls));
                assert(repr(n0, n0[i as int].right, Some(i), rs));
                assert(clean(ls) && clean(rs));
                assert(!indices(ls).contains(i as int) && !indices(rs).contains(i as int));
                assert(indices(ls).disjoint(indices(rs)));
            },
        }
        lemma_repr_bounds(n0, n0[i as int].left, Some(i), ls);
        lemma_repr_bounds(n0, n0[i as int].right, Some(i), rs);
    }
    assert(i < ns.len());
    let k0 = ns[i].key;
    assert(k0 == s->Node_key);
    if key < k0 {
        match ns[i].left {
            Some(li) => {
                let _ = insert_at(ns, li, key, value, Ghost(ls), Ghost(Some(i)));
                proof {
                    assert(ns@[i as int] == n0[i as int]);
                    lemma_repr_frame(n0, ns@, n0[i as int].right, Some(i), rs);
                    assert(repr(ns@, Some(i), par, spec_insert(s, n0.len() as usize, key, value)));
                }
                Ghost(spec_insert(s, (n0.len()) as usize, key, value))
            },
            None => {
                let newi = ns.len();
                ns.push(
                    NodeCell {
                        key,
                        value,
                        attribute: NoAttr,
                        left: None,
                        right: None,
                        parent: Some(i),
                    },
                );
                ns[i].left = Some(newi);
                proof {
                    match ls {
                        Shape::Nil => {},
                        Shape::Node { .. } => {
                            assert(false);
                        },
                    }
                    lemma_repr_frame(n0, ns@, n0[i as int].right, Some(i), rs);
                    reveal_with_fuel(repr, 3);
                    assert(repr(ns@, Some(newi), Some(i), spec_insert(ls, newi, key, value)));
                    assert(repr(ns@, Some(i), par, spec_insert(s, n0.len() as usize, key, value)));
                }
                Ghost(spec_insert(s, (n0.len()) as usize, key, value))
            },
        }
    } else {
        match ns[i].right {
            Some(ri) => {
                let _ = insert_at(ns, ri, key, value, Ghost(rs), Ghost(Some(i)));
                proof {
                    assert(ns@[i as int] == n0[i as int]);
                    lemma_repr_frame(n0, ns@, n0[i as int].left, Some(i), ls);
                    assert(repr(ns@, Some(i), par, spec_insert(s, n0.len() as usize, key, value)));
                }
                Ghost(spec_insert(s, (n0.len()) as usize, key, value))
            },
            None => {
                let newi = ns.len();
                ns.push(
                    NodeCell {
                        key,
                        value,
                        attribute: NoAttr,
                        left: None,
                        right: None,
                        parent: Some(i),
                    },
                );
                ns[i].right = Some(newi);
                proof {
                    match rs {
                        Shape::Nil => {},
                        Shape::Node { .. } => {
                            assert(false);
                        },
                    }
                    lemma_repr_frame(n0, ns@, n0[i as int].left, Some(i), ls);
                    reveal_with_fuel(repr, 3);
                    assert(repr(ns@, Some(newi), Some(i), spec_insert(rs, newi, key, value)));
                    assert(repr(ns@, Some(i), par, spec_insert(s, n0.len() as usize, key, value)));
                }
                Ghost(spec_insert(s, (n0.len()) as usize, key, value))
            },
        }
    }
}

/// Detach the leftmost node of the subtree rooted at cell `i` (shape `s`,
/// parent link `par`). Returns its key and value and the root of what
/// remains, whose parent link is set to `par`. No cell outside the subtree
/// is touched and the arena keeps its length.
fn remove_min_at(
    ns: &mut Vec<NodeCell>,
    i: usize,
    par: Option<usize>,
    Ghost(s): Ghost<Shape>,
) -> (res: (i64, i64, Option<usize>))
    requires
        repr(old(ns)@, Some(i), par, s),
        clean(s),
    ensures
        final(ns)@.len() == old(ns)@.len(),
        forall|j: int|
            0 <= j < old(ns)@.len() && !indices(s).contains(j) ==> final(ns)@[j] == old(ns)@[j],
        (res.0, res.1) == spec_remove_min(s).0,
        res.2 == match spec_remove_min(s).1 {
            Shape::Nil => None::<usize>,
            Shape::Node { idx, .. } => Some(idx),
        },
        repr(final(ns)@, res.2, par, spec_remove_min(s).1),
    decreases s,
{
    let ghost ls = *s->Node_left;
    let ghost rs = *s->Node_right;
    let ghost n0 = ns@;
    proof {
        match s {
            Shape::Nil => {
                assert(false);
            },
            Shape::Node { idx, .. } => {
                assert(idx == i);
                assert(repr(n0, n0[i as int].left, Some(i), ls));
                assert(repr(n0, n0[i as int].right, Some(i), rs));
                assert(clean(ls) && clean(rs));
                assert(!indices(ls).contains(i as int) && !indices(rs).contains(i as int));
                assert(indices(ls).disjoint(indices(rs)));
            },
        }
        lemma_repr_bounds(n0, n0[i as int].left, Some(i), ls);
        lemma_repr_bounds(n0, n0[i as int].right, Some(i), rs);
    }
    assert(i < ns.len());
    match ns[i].left {
        None => {
            proof {
                match ls {
                    Shape::Nil => {},
                    Shape::Node { .. } => {
                        assert(false);
                    },
                }
            }
            let k = ns[i].key;
            let v = ns[i].value;
            let r = ns[i].right;
            match r {
                Some(ri) => {
                    ns[ri].parent = par;
                    proof {
                        match rs {
                            Shape::Nil => {
                                assert(false);
                            },
                            Shape::Node { idx: ridx, left: rl, right: rr, .. } => {
                                assert(ridx == ri);
                                assert(clean(rs));
                                assert(!indices(*rl).contains(ri as int));
                                assert(!indices(*rr).contains(ri as int));
                                lemma_repr_bounds(n0, n0[ri as int].left, Some(ri), *rl);
                                lemma_repr_bounds(n0, n0[ri as int].right, Some(ri), *rr);
                                lemma_repr_frame(n0, ns@, n0[ri as int].left, Some(ri), *rl);
                                lemma_repr_frame(n0, ns@, n0[ri as int].right, Some(ri), *rr);
                                assert(repr(ns@, Some(ri), par, rs));
                            },
                        }
                    }
                },
                None => {
                    proof {
                        match rs {
                            Shape::Nil => {},
                            Shape::Node { .. } => {
                                assert(false);
                            },
                        }
                    }
                },
            }
            (k, v, r)
        },
        Some(li) => {
            let rm = remove_min_at(ns, li, Some(i), Ghost(ls));
            let ghost nmid = ns@;
            ns[i].left = rm.2;
            proof {
                match ls {
                    Shape::Nil => {
                        assert(false);
                    },
                    Shape::Node { .. } => {},
                }
                crate::laws::lemma_remove_min_clean(ls);
                assert(ns@[i as int].key == n0[i as int].key);
                lemma_repr_frame(n0, ns@, n0[i as int].right, Some(i), rs);
                lemma_repr_frame(nmid, ns@, rm.2, Some(i), spec_remove_min(ls).1);
                assert(repr(ns@, Some(i), par, spec_remove_min(s).1));
            }
            (rm.0, rm.1, Some(i))
        },
    }
}

/// Remove the node the standard descent finds for `key` from the subtree
/// rooted at cell `i` (shape `s`, parent link `par`), splicing as the
/// three-case algorithm prescribes. Returns the root of the resulting
/// subtree, whose parent link is `par`. No cell outside the subtree is
/// touched and the arena keeps its length.
fn delete_at(
    ns: &mut Vec<NodeCell>,
    i: usize,
    key: i64,
    par: Option<usize>,
    Ghost(s): Ghost<Shape>,
) -> (res: Option<usize>)
    requires
        repr(old(ns)@, Some(i), par, s),
        clean(s),
    ensures
        final(ns)@.len() == old(ns)@.len(),
        forall|j: int|
            0 <= j < old(ns)@.len() && !indices(s).contains(j) ==> final(ns)@[j] == old(ns)@[j],
        res == match spec_delete(s, key) {
            Shape::Nil => None::<usize>,
            Shape::Node { idx, .. } => Some(idx),
        },
        repr(final(ns)@, res, par, spec_delete(s, key)),
    decreases s,
{
    let ghost ls = *s->Node_left;
    let ghost rs = *s->Node_right;
    let ghost n0 = ns@;
    proof {
        match s {
            Shape::Nil => {
                assert(false);
            },
            Shape::Node { idx, .. } => {
                assert(idx == i);
                assert(repr(n0, n0[i as int].left, Some(i), ls));
                assert(repr(n0, n0[i as int].right, Some(i), rs));
                assert(clean(ls) && clean(rs));
                assert(!indices(ls).contains(i as int) && !indices(rs).contains(i as int));
                assert(indices(ls).disjoint(indices(rs)));
            },
        }
        lemma_repr_bounds(n0, n0[i as int].left, Some(i), ls);
        lemma_repr_bounds(n0, n0[i as int].right, Some(i), rs);
    }
    assert(i < ns.len());
    let k0 = ns[i].key;
    if key < k0 {
        match ns[i].left {
            Some(li) => {
                let nl = delete_at(ns, li, key, Some(i), Ghost(ls));
                let ghost nmid = ns@;
                ns[i].left = nl;
                proof {
                    crate::laws::lemma_delete_clean(ls, key);
                    lemma_repr_frame(n0, ns@, n0[i as int].right, Some(i), rs);
                    lemma_repr_frame(nmid, ns@, nl, Some(i), spec_delete(ls, key));
                    assert(repr(ns@, Some(i), par, spec_delete(s, key)));
                }
                Some(i)
            },
            None => {
                proof {
                    match ls {
                        Shape::Nil => {},
                        Shape::Node { .. } => {
                            assert(false);
                        },
                    }
                    assert(repr(ns@, Some(i), par, spec_delete(s, key)));
                }
                Some(i)
            },
        }
    } else if key > k0 {
        match ns[i].right {
            Some(ri) => {
                let nr = delete_at(ns, ri, key, Some(i), Ghost(rs));
                let ghost nmid = ns@;
                ns[i].right = nr;
                proof {
                    crate::laws::lemma_delete_clean(rs, key);
                    lemma_repr_frame(n0, ns@, n0[i as int].left, Some(i), ls);
                    lemma_repr_frame(nmid, ns@, nr, Some(i), spec_delete(rs, key));
                    assert(repr(ns@, Some(i), par, spec_delete(s, key)));
                }
                Some(i)
            },
            None => {
                proof {
                    match rs {
                        Shape::Nil => {},
                        Shape::Node { .. } => {
                            assert(false);
                        },
                    }
                    assert(repr(ns@, Some(i), par, spec_delete(s, key)));
                }
                Some(i)
            },
        }
    } else {
        let l = ns[i].left;
        let r = ns[i].right;
        match l {
            None => {
                proof {
                    match ls {
                        Shape::Nil => {},
                        Shape::Node { .. } => {
                            assert(false);
                        },
                    }
                }
                match r {
                    Some(ri) => {
                        ns[ri].parent = par;
                        proof {
                            match rs {
                                Shape::Nil => {
                                    assert(false);
                                },
                                Shape::Node { idx: ridx, left: rl, right: rr, .. } => {
                                    assert(ridx == ri);
                                    assert(clean(rs));
                                    assert(!indices(*rl).contains(ri as int));
                                    assert(!indices(*rr).contains(ri as int));
                                    lemma_repr_bounds(n0, n0[ri as int].left, Some(ri), *rl);
                                    lemma_repr_bounds(n0, n0[ri as int].right, Some(ri), *rr);
                                    lemma_repr_frame(n0, ns@, n0[ri as int].left, Some(ri), *rl);
                                    lemma_repr_frame(n0, ns@, n0[ri as int].right, Some(ri), *rr);
                                    assert(repr(ns@, Some(ri), par, rs));
                                },
                            }
                        }
                    },
                    None => {
                        proof {
                            match rs {
                                Shape::Nil => {},
                                Shape::Node { .. } => {
                                    assert(false);
                                },
                            }
                        }
                    },
                }
                r
            },
            Some(li) => {
                match r {
                    None => {
                        proof {
                            match rs {
                                Shape::Nil => {},
                                Shape::Node { .. } => {
                                    assert(false);
                                },
                            }
                        }
                        ns[li].parent = par;
                        proof {
                            match ls {
                                Shape::Nil => {
                                    assert(false);
                                },
                                Shape::Node { idx: lidx, left: ll, right: lr, .. } => {
                                    assert(lidx == li);
                                    assert(clean(ls));
                                    assert(!indices(*ll).contains(li as int));
                                    assert(!indices(*lr).contains(li as int));
                                    lemma_repr_bounds(n0, n0[li as int].left, Some(li), *ll);
                                    lemma_repr_bounds(n0, n0[li as int].right, Some(li), *lr);
                                    lemma_repr_frame(n0, ns@, n0[li as int].left, Some(li), *ll);
                                    lemma_repr_frame(n0, ns@, n0[li as int].right, Some(li), *lr);
                                    assert(repr(ns@, Some(li), par, ls));
                                },
                            }
                        }
                        l
                    },
                    Some(ri) => {
                        proof {
                            match rs {
                                Shape::Nil => {
                                    assert(false);
                                },
                                Shape::Node { .. } => {},
                            }
                        }
                        let rm = remove_min_at(ns, ri, Some(i), Ghost(rs));
                        let ghost nmid = ns@;
                        ns[i].key = rm.0;
                        ns[i].value = rm.1;
                        ns[i].right = rm.2;
                        proof {
                            crate::laws::lemma_remove_min_clean(rs);
                            assert(ns@[i as int].parent == n0[i as int].parent);
                            assert(ns@[i as int].left == Some(li));
                            lemma_repr_frame(n0, ns@, n0[i as int].left, Some(i), ls);
                            lemma_repr_frame(nmid, ns@, rm.2, Some(i), spec_remove_min(rs).1);
                            assert(repr(ns@, Some(i), par, spec_delete(s, key)));
                        }
                        Some(i)
                    },
                }
            },
        }
    }
}

impl MutableTree for BinarySearchTree {
    fn insert(&mut self, key: i64, value: i64) {
        let ghost s0 = self.shape@;
        proof {
            lemma_repr_bounds(self.nodes@, self.root, None, s0);
        }
        match self.root {
            None => {
                let newi = self.nodes.len();
                self.nodes.push(
                    NodeCell {
                        key,
                        value,
                        attribute: NoAttr,
                        left: None,
                        right: None,
                        parent: None,
                    },
                );
                self.root = Some(newi);
                self.shape = Ghost(spec_insert(s0, newi, key, value));
                proof {
                    match s0 {
                        Shape::Nil => {},
                        Shape::Node { .. } => {
                            assert(false);
                        },
                    }
                    reveal_with_fuel(repr, 3);
                    assert(repr(self.nodes@, Some(newi), None, spec_insert(s0, newi, key, value)));
                }
            },
            Some(ri) => {
                let res = insert_at(&mut self.nodes, ri, key, value, Ghost(s0), Ghost(None));
                self.shape = Ghost(res@);
            },
        }
        proof {
            crate::model::lemma_insert_shape(s0, old(self).next_id(), key, value);
            crate::laws::lemma_insert_ordered(s0, old(self).next_id(), key, value);
        }
    }

    fn delete(&mut self, key: i64) {
        let ghost s0 = self.shape@;
        match self.root {
            None => {
                proof {
                    match s0 {
                        Shape::Nil => {},
                        Shape::Node { .. } => {
                            assert(false);
                        },
                    }
                }
            },
            Some(ri) => {
                let nr = delete_at(&mut self.nodes, ri, key, None, Ghost(s0));
                self.root = nr;
                self.shape = Ghost(spec_delete(s0, key));
                proof {
                    crate::laws::lemma_delete_clean(s0, key);
                    crate::laws::lemma_delete_ordered(s0, key);
                }
            },
        }
    }
}

} // verus!
