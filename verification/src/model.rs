//! The mathematical model of the tree: a ghost shape mirroring the arena.
//!
//! A `Shape` records, for every node of the tree, its arena index together
//! with its key and value. All contracts of the executable operations are
//! stated over shapes, so the ordering invariant, the traversal sequence and
//! the effect of every mutation are plain recursive functions here.

use vstd::prelude::*;

verus! {

/// The abstract form of a (sub)tree: empty, or a node with its arena index,
/// key, value and the shapes of its two subtrees.
pub enum Shape {
    Nil,
    Node { idx: usize, key: i64, val: i64, left: Box<Shape>, right: Box<Shape> },
}

/// The set of arena indices used by a shape.
pub open spec fn indices(s: Shape) -> Set<int>
    decreases s,
{
    match s {
        Shape::Nil => Set::empty(),
        Shape::Node { idx, left, right, .. } => indices(*left).union(indices(*right)).insert(
            idx as int,
        ),
    }
}

/// The number of nodes in a shape.
pub open spec fn size(s: Shape) -> nat
    decreases s,
{
    match s {
        Shape::Nil => 0,
        Shape::Node { left, right, .. } => 1 + size(*left) + size(*right),
    }
}

/// Every node's index occurs exactly once: no index is shared between a node
/// and its subtrees, nor between the two subtrees.
pub open spec fn clean(s: Shape) -> bool
    decreases s,
{
    match s {
        Shape::Nil => true,
        Shape::Node { idx, left, right, .. } => {
            &&& !indices(*left).contains(idx as int)
            &&& !indices(*right).contains(idx as int)
            &&& indices(*left).disjoint(indices(*right))
            &&& clean(*left)
            &&& clean(*right)
        },
    }
}

/// The in-order sequence of (key, value) pairs.
pub open spec fn inorder(s: Shape) -> Seq<(i64, i64)>
    decreases s,
{
    match s {
        Shape::Nil => Seq::empty(),
        Shape::Node { key, val, left, right, .. } => inorder(*left) + seq![(key, val)] + inorder(
            *right,
        ),
    }
}

/// All keys in the shape are strictly below the bound.
pub open spec fn keys_lt(s: Shape, bound: i64) -> bool
    decreases s,
{
    match s {
        Shape::Nil => true,
        Shape::Node { key, left, right, .. } => key < bound && keys_lt(*left, bound) && keys_lt(
            *right,
            bound,
        ),
    }
}

/// All keys in the shape are at least the bound.
pub open spec fn keys_ge(s: Shape, bound: i64) -> bool
    decreases s,
{
    match s {
        Shape::Nil => true,
        Shape::Node { key, left, right, .. } => key >= bound && keys_ge(*left, bound) && keys_ge(
            *right,
            bound,
        ),
    }
}

/// The search-tree order: left keys strictly below a node's key, right keys
/// greater or equal, recursively. Duplicates therefore sit in the right
/// subtree of an equal key.
pub open spec fn ordered(s: Shape) -> bool
    decreases s,
{
    match s {
        Shape::Nil => true,
        Shape::Node { key, left, right, .. } => {
            &&& keys_lt(*left, key)
            &&& keys_ge(*right, key)
            &&& ordered(*left)
            &&& ordered(*right)
        },
    }
}

/// A sequence of pairs whose keys never decrease.
pub open spec fn sorted_by_key(xs: Seq<(i64, i64)>) -> bool {
    forall|i: int, j: int| 0 <= i <= j < xs.len() ==> #[trigger] xs[i].0 <= #[trigger] xs[j].0
}

/// The path (false = left, true = right) of the node found by the standard
/// descent: equal stops, smaller goes left, otherwise right.
pub open spec fn spec_find(s: Shape, key: i64) -> Option<Seq<bool>>
    decreases s,
{
    match s {
        Shape::Nil => None,
        Shape::Node { key: k, left, right, .. } => if key == k {
            Some(Seq::empty())
        } else if key < k {
            match spec_find(*left, key) {
                Some(p) => Some(seq![false] + p),
                None => None,
            }
        } else {
            match spec_find(*right, key) {
                Some(p) => Some(seq![true] + p),
                None => None,
            }
        },
    }
}

/// The subshape reached by following a path from the root of `s`.
pub open spec fn sub_at(s: Shape, path: Seq<bool>) -> Shape
    decreases path.len(),
{
    if path.len() == 0 {
        s
    } else {
        match s {
            Shape::Nil => Shape::Nil,
            Shape::Node { left, right, .. } => sub_at(
                if path[0] {
                    *right
                } else {
                    *left
                },
                path.drop_first(),
            ),
        }
    }
}

/// The path stays on nodes: every prefix of it, the full path included,
/// reaches a non-empty shape.
pub open spec fn path_valid(s: Shape, path: Seq<bool>) -> bool
    decreases path.len(),
{
    match s {
        Shape::Nil => false,
        Shape::Node { left, right, .. } => path.len() == 0 || path_valid(
            if path[0] {
                *right
            } else {
                *left
            },
            path.drop_first(),
        ),
    }
}

/// The value of the node that the standard descent finds, if any.
pub open spec fn spec_find_value(s: Shape, key: i64) -> Option<i64> {
    match spec_find(s, key) {
        Some(p) => Some(sub_at(s, p)->Node_val),
        None => None,
    }
}

/// The shape after inserting (key, val) as a fresh node with arena index `i`:
/// the descent always ends in an empty slot, never replacing a node.
pub open spec fn spec_insert(s: Shape, i: usize, key: i64, val: i64) -> Shape
    decreases s,
{
    match s {
        Shape::Nil => Shape::Node {
            idx: i,
            key,
            val,
            left: Box::new(Shape::Nil),
            right: Box::new(Shape::Nil),
        },
        Shape::Node { idx, key: k, val: v, left, right } => if key < k {
            Shape::Node { idx, key: k, val: v, left: Box::new(spec_insert(*left, i, key, val)), right }
        } else {
            Shape::Node { idx, key: k, val: v, left, right: Box::new(spec_insert(*right, i, key, val)) }
        },
    }
}

/// Detaching the leftmost node: its (key, value) pair and the remaining shape.
/// Meaningful only for non-empty shapes.
pub open spec fn spec_remove_min(s: Shape) -> ((i64, i64), Shape)
    decreases s,
{
    match s {
        Shape::Nil => ((0, 0), Shape::Nil),
        Shape::Node { idx, key, val, left, right } => if *left is Nil {
            ((key, val), *right)
        } else {
            let (p, l2) = spec_remove_min(*left);
            (p, Shape::Node { idx, key, val, left: Box::new(l2), right })
        },
    }
}

/// The shape after deleting one occurrence of `key`: the node the standard
/// descent finds first. A leaf disappears, a one-child node is replaced by its
/// child, and a two-child node keeps its index but takes over the key and
/// value of its in-order successor, which is detached from the right subtree.
/// A missing key leaves the shape unchanged.
pub open spec fn spec_delete(s: Shape, key: i64) -> Shape
    decreases s,
{
    match s {
        Shape::Nil => Shape::Nil,
        Shape::Node { idx, key: k, val: v, left, right } => if key < k {
            Shape::Node { idx, key: k, val: v, left: Box::new(spec_delete(*left, key)), right }
        } else if key > k {
            Shape::Node { idx, key: k, val: v, left, right: Box::new(spec_delete(*right, key)) }
        } else {
            if *left is Nil {
                *right
            } else if *right is Nil {
                *left
            } else {
                let ((mk, mv), r2) = spec_remove_min(*right);
                Shape::Node { idx, key: mk, val: mv, left, right: Box::new(r2) }
            }
        },
    }
}

/// The number of node levels: 0 for the empty shape, 1 for a single node.
pub open spec fn levels(s: Shape) -> nat
    decreases s,
{
    match s {
        Shape::Nil => 0,
        Shape::Node { left, right, .. } => 1 + if levels(*left) >= levels(*right) {
            levels(*left)
        } else {
            levels(*right)
        },
    }
}

/// A fully right-skewed shape: no node has a left child.
pub open spec fn right_spine(s: Shape) -> bool
    decreases s,
{
    match s {
        Shape::Nil => true,
        Shape::Node { left, right, .. } => *left is Nil && right_spine(*right),
    }
}

/// How many nodes carry the given key.
pub open spec fn key_count(s: Shape, key: i64) -> nat
    decreases s,
{
    match s {
        Shape::Nil => 0,
        Shape::Node { key: k, left, right, .. } => key_count(*left, key) + key_count(*right, key)
            + if k == key {
            1nat
        } else {
            0nat
        },
    }
}

/// A valid path always lands on a node.
pub proof fn lemma_path_sub_node(s: Shape, path: Seq<bool>)
    requires
        path_valid(s, path),
    ensures
        sub_at(s, path) is Node,
    decreases path.len(),
{
    if path.len() > 0 {
        match s {
            Shape::Nil => {},
            Shape::Node { left, right, .. } => {
                lemma_path_sub_node(
                    if path[0] {
                        *right
                    } else {
                        *left
                    },
                    path.drop_first(),
                );
            },
        }
    }
}

/// Extending a valid path by one step reaches the chosen child of the node
/// the path lands on; the longer path is valid when that child is a node.
pub proof fn lemma_path_push(s: Shape, path: Seq<bool>, d: bool)
    requires
        path_valid(s, path),
    ensures
        sub_at(s, path.push(d)) == (if d {
            *sub_at(s, path)->Node_right
        } else {
            *sub_at(s, path)->Node_left
        }),
        (if d {
            *sub_at(s, path)->Node_right
        } else {
            *sub_at(s, path)->Node_left
        }) is Node ==> path_valid(s, path.push(d)),
    decreases path.len(),
{
    lemma_path_sub_node(s, path);
    if path.len() == 0 {
        assert(path.push(d).drop_first() =~= Seq::<bool>::empty());
        assert(path.push(d)[0] == d);
        match s {
            Shape::Nil => {},
            Shape::Node { left, right, .. } => {
                let ghost child = if d {
                    *right
                } else {
                    *left
                };
                assert(sub_at(s, path) == s);
                assert(sub_at(s, path.push(d)) == sub_at(child, path.push(d).drop_first()));
                assert(sub_at(child, Seq::<bool>::empty()) == child);
                match child {
                    Shape::Nil => {},
                    Shape::Node { .. } => {
                        assert(path_valid(child, Seq::<bool>::empty()));
                        assert(path_valid(s, path.push(d)));
                    },
                }
            },
        }
    } else {
        match s {
            Shape::Nil => {},
            Shape::Node { left, right, .. } => {
                let ghost child = if path[0] {
                    *right
                } else {
                    *left
                };
                lemma_path_push(child, path.drop_first(), d);
                assert(path.push(d).drop_first() =~= path.drop_first().push(d));
                assert(path.push(d)[0] == path[0]);
                assert(sub_at(s, path.push(d)) == sub_at(child, path.drop_first().push(d)));
                assert(sub_at(s, path) == sub_at(child, path.drop_first()));
            },
        }
    }
}

/// Shortening a valid path by its last step is valid, and the shorter path
/// lands on the parent of the node the full path lands on.
pub proof fn lemma_path_drop_last(s: Shape, path: Seq<bool>)
    requires
        path_valid(s, path),
        path.len() > 0,
    ensures
        path_valid(s, path.drop_last()),
        sub_at(s, path.drop_last()) is Node,
        sub_at(s, path) == (if path.last() {
            *sub_at(s, path.drop_last())->Node_right
        } else {
            *sub_at(s, path.drop_last())->Node_left
        }),
    decreases path.len(),
{
    match s {
        Shape::Nil => {},
        Shape::Node { left, right, .. } => {
            let ghost child = if path[0] {
                *right
            } else {
                *left
            };
            assert(sub_at(s, path) == sub_at(child, path.drop_first()));
            if path.len() == 1 {
                assert(path.drop_last() =~= Seq::<bool>::empty());
                assert(path.drop_first() =~= Seq::<bool>::empty());
                assert(path.last() == path[0]);
                assert(sub_at(s, path.drop_last()) == s);
                assert(sub_at(child, Seq::<bool>::empty()) == child);
            } else {
                lemma_path_drop_last(child, path.drop_first());
                assert(path.drop_last()[0] == path[0]);
                assert(path.drop_last().drop_first() =~= path.drop_first().drop_last());
                assert(path.drop_first().last() == path.last());
                assert(sub_at(s, path.drop_last()) == sub_at(child, path.drop_first().drop_last()));
            }
        },
    }
}

/// The path that the descent returns is valid and lands on a node carrying
/// the key searched for.
pub proof fn lemma_find_path(s: Shape, key: i64)
    requires
        spec_find(s, key) is Some,
    ensures
        path_valid(s, spec_find(s, key).unwrap()),
        sub_at(s, spec_find(s, key).unwrap()) is Node,
        sub_at(s, spec_find(s, key).unwrap())->Node_key == key,
    decreases s,
{
    match s {
        Shape::Nil => {},
        Shape::Node { key: k, left, right, .. } => {
            if key == k {
            } else if key < k {
                lemma_find_path(*left, key);
                let p = spec_find(*left, key).unwrap();
                assert((seq![false] + p).drop_first() =~= p);
                assert((seq![false] + p)[0] == false);
            } else {
                lemma_find_path(*right, key);
                let p = spec_find(*right, key).unwrap();
                assert((seq![true] + p).drop_first() =~= p);
                assert((seq![true] + p)[0] == true);
            }
        },
    }
}

/// Inserting with a fresh index keeps indices unique and adds exactly that
/// index (and one node) to the shape.
pub proof fn lemma_insert_shape(s: Shape, i: usize, key: i64, val: i64)
    requires
        clean(s),
        !indices(s).contains(i as int),
    ensures
        clean(spec_insert(s, i, key, val)),
        indices(spec_insert(s, i, key, val)) =~= indices(s).insert(i as int),
        size(spec_insert(s, i, key, val)) == size(s) + 1,
    decreases s,
{
    match s {
        Shape::Nil => {
            assert(indices(spec_insert(s, i, key, val)) =~= indices(s).insert(i as int));
        },
        Shape::Node { idx, key: k, left, right, .. } => {
            if key < k {
                lemma_insert_shape(*left, i, key, val);
            } else {
                lemma_insert_shape(*right, i, key, val);
            }
            assert(indices(spec_insert(s, i, key, val)) =~= indices(s).insert(i as int));
        },
    }
}

} // verus!
