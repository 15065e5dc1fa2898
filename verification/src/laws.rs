//! General laws of the tree, proved once over the shape model.

use vstd::prelude::*;

use crate::model::{
    clean, indices, inorder, key_count, keys_ge, keys_lt, levels, ordered, path_valid, right_spine,
    size, sorted_by_key, spec_delete, spec_find, spec_find_value, spec_insert, spec_remove_min,
    sub_at, Shape,
};

verus! {

proof fn lemma_insert_keys_lt(s: Shape, i: usize, key: i64, val: i64, bound: i64)
    requires
        keys_lt(s, bound),
        key < bound,
    ensures
        keys_lt(spec_insert(s, i, key, val), bound),
    decreases s,
{
    match s {
        Shape::Nil => {},
        Shape::Node { key: k, left, right, .. } => {
            if key < k {
                lemma_insert_keys_lt(*left, i, key, val, bound);
            } else {
                lemma_insert_keys_lt(*right, i, key, val, bound);
            }
        },
    }
}

proof fn lemma_insert_keys_ge(s: Shape, i: usize, key: i64, val: i64, bound: i64)
    requires
        keys_ge(s, bound),
        key >= bound,
    ensures
        keys_ge(spec_insert(s, i, key, val), bound),
    decreases s,
{
    match s {
        Shape::Nil => {},
        Shape::Node { key: k, left, right, .. } => {
            if key < k {
                lemma_insert_keys_ge(*left, i, key, val, bound);
            } else {
                lemma_insert_keys_ge(*right, i, key, val, bound);
            }
        },
    }
}

/// Bounded keys bound every entry of the in-order sequence.
pub proof fn lemma_keys_lt_inorder(s: Shape, bound: i64)
    requires
        keys_lt(s, bound),
    ensures
        forall|j: int| 0 <= j < inorder(s).len() ==> (#[trigger] inorder(s)[j]).0 < bound,
    decreases s,
{
    match s {
        Shape::Nil => {},
        Shape::Node { key, val, left, right, .. } => {
            lemma_keys_lt_inorder(*left, bound);
            lemma_keys_lt_inorder(*right, bound);
            assert forall|j: int| 0 <= j < inorder(s).len() implies (#[trigger] inorder(s)[j]).0
                < bound by {
                let ll = inorder(*left).len() as int;
                if j < ll {
                    assert(inorder(s)[j] == inorder(*left)[j]);
                } else if j == ll {
                    assert(inorder(s)[j] == (key, val));
                } else {
                    assert(inorder(s)[j] == inorder(*right)[j - ll - 1]);
                }
            }
        },
    }
}

/// Bounded keys bound every entry of the in-order sequence.
pub proof fn lemma_keys_ge_inorder(s: Shape, bound: i64)
    requires
        keys_ge(s, bound),
    ensures
        forall|j: int| 0 <= j < inorder(s).len() ==> (#[trigger] inorder(s)[j]).0 >= bound,
    decreases s,
{
    match s {
        Shape::Nil => {},
        Shape::Node { key, val, left, right, .. } => {
            lemma_keys_ge_inorder(*left, bound);
            lemma_keys_ge_inorder(*right, bound);
            assert forall|j: int| 0 <= j < inorder(s).len() implies (#[trigger] inorder(s)[j]).0
                >= bound by {
                let ll = inorder(*left).len() as int;
                if j < ll {
                    assert(inorder(s)[j] == inorder(*left)[j]);
                } else if j == ll {
                    assert(inorder(s)[j] == (key, val));
                } else {
                    assert(inorder(s)[j] == inorder(*right)[j - ll - 1]);
                }
            }
        },
    }
}

/// An ordered shape traverses to a sequence whose keys never decrease.
pub proof fn lemma_ordered_inorder_sorted(s: Shape)
    requires
        ordered(s),
    ensures
        sorted_by_key(inorder(s)),
    decreases s,
{
    match s {
        Shape::Nil => {},
        Shape::Node { key, val, left, right, .. } => {
            lemma_ordered_inorder_sorted(*left);
            lemma_ordered_inorder_sorted(*right);
            lemma_keys_lt_inorder(*left, key);
            lemma_keys_ge_inorder(*right, key);
            let ll = inorder(*left).len() as int;
            assert forall|i: int, j: int|
                0 <= i <= j < inorder(s).len() implies (#[trigger] inorder(s)[i]).0
                <= (#[trigger] inorder(s)[j]).0 by {
                if i < ll {
                    assert(inorder(s)[i] == inorder(*left)[i]);
                } else if i == ll {
                    assert(inorder(s)[i] == (key, val));
                } else {
                    assert(inorder(s)[i] == inorder(*right)[i - ll - 1]);
                }
                if j < ll {
                    assert(inorder(s)[j] == inorder(*left)[j]);
                } else if j == ll {
                    assert(inorder(s)[j] == (key, val));
                } else {
                    assert(inorder(s)[j] == inorder(*right)[j - ll - 1]);
                }
            }
        },
    }
}

/// No key below the bound occurs in a shape whose keys all reach the bound.
proof fn lemma_count_zero_ge(s: Shape, bound: i64, key: i64)
    requires
        keys_ge(s, bound),
        key < bound,
    ensures
        key_count(s, key) == 0,
    decreases s,
{
    match s {
        Shape::Nil => {},
        Shape::Node { left, right, .. } => {
            lemma_count_zero_ge(*left, bound, key);
            lemma_count_zero_ge(*right, bound, key);
        },
    }
}

/// No key at or above the bound occurs in a shape whose keys stay below it.
proof fn lemma_count_zero_lt(s: Shape, bound: i64, key: i64)
    requires
        keys_lt(s, bound),
        key >= bound,
    ensures
        key_count(s, key) == 0,
    decreases s,
{
    match s {
        Shape::Nil => {},
        Shape::Node { left, right, .. } => {
            lemma_count_zero_lt(*left, bound, key);
            lemma_count_zero_lt(*right, bound, key);
        },
    }
}

/// The standard descent finds a key exactly when the shape holds it.
pub proof fn lemma_find_iff_present(s: Shape, key: i64)
    requires
        ordered(s),
    ensures
        spec_find(s, key) is Some <==> key_count(s, key) > 0,
    decreases s,
{
    match s {
        Shape::Nil => {},
        Shape::Node { key: k, left, right, .. } => {
            if key < k {
                lemma_find_iff_present(*left, key);
                lemma_count_zero_ge(*right, k, key);
            } else if key > k {
                lemma_find_iff_present(*right, key);
                lemma_count_zero_lt(*left, k, key);
            }
        },
    }
}

/// A key bound weakens downward.
proof fn lemma_keys_ge_weaken(s: Shape, b1: i64, b2: i64)
    requires
        keys_ge(s, b1),
        b2 <= b1,
    ensures
        keys_ge(s, b2),
    decreases s,
{
    match s {
        Shape::Nil => {},
        Shape::Node { left, right, .. } => {
            lemma_keys_ge_weaken(*left, b1, b2);
            lemma_keys_ge_weaken(*right, b1, b2);
        },
    }
}

/// Detaching the leftmost node takes exactly the head of the in-order
/// sequence.
pub proof fn lemma_remove_min_inorder(s: Shape)
    requires
        s is Node,
    ensures
        inorder(s) == seq![spec_remove_min(s).0] + inorder(spec_remove_min(s).1),
    decreases s,
{
    match s {
        Shape::Nil => {},
        Shape::Node { key, val, left, right, .. } => {
            if *left is Nil {
                assert(inorder(*left) =~= Seq::empty());
                assert(inorder(s) =~= seq![(key, val)] + inorder(*right));
            } else {
                lemma_remove_min_inorder(*left);
                let (p, l2) = spec_remove_min(*left);
                assert(inorder(spec_remove_min(s).1) =~= inorder(l2) + seq![(key, val)] + inorder(
                    *right,
                ));
                assert(inorder(s) =~= seq![p] + inorder(spec_remove_min(s).1));
            }
        },
    }
}

/// Key bounds survive detaching the leftmost node, and bound the detached
/// pair itself.
proof fn lemma_remove_min_keys_lt(s: Shape, b: i64)
    requires
        s is Node,
        keys_lt(s, b),
    ensures
        keys_lt(spec_remove_min(s).1, b),
        spec_remove_min(s).0.0 < b,
    decreases s,
{
    match s {
        Shape::Nil => {},
        Shape::Node { left, .. } => {
            if *left is Nil {
            } else {
                lemma_remove_min_keys_lt(*left, b);
            }
        },
    }
}

/// Key bounds survive detaching the leftmost node, and bound the detached
/// pair itself.
proof fn lemma_remove_min_keys_ge(s: Shape, b: i64)
    requires
        s is Node,
        keys_ge(s, b),
    ensures
        keys_ge(spec_remove_min(s).1, b),
        spec_remove_min(s).0.0 >= b,
    decreases s,
{
    match s {
        Shape::Nil => {},
        Shape::Node { left, .. } => {
            if *left is Nil {
            } else {
                lemma_remove_min_keys_ge(*left, b);
            }
        },
    }
}

/// Detaching the leftmost node of an ordered shape keeps it ordered, and the
/// detached key bounds everything that remains.
pub proof fn lemma_remove_min_ordered(s: Shape)
    requires
        s is Node,
        ordered(s),
    ensures
        ordered(spec_remove_min(s).1),
        keys_ge(spec_remove_min(s).1, spec_remove_min(s).0.0),
    decreases s,
{
    match s {
        Shape::Nil => {},
        Shape::Node { key, left, right, .. } => {
            if *left is Nil {
            } else {
                lemma_remove_min_ordered(*left);
                lemma_remove_min_keys_lt(*left, key);
                let mk = spec_remove_min(*left).0.0;
                lemma_keys_ge_weaken(*right, key, mk);
            }
        },
    }
}

/// Detaching the leftmost node uses no new indices and keeps them unique.
pub proof fn lemma_remove_min_clean(s: Shape)
    requires
        s is Node,
        clean(s),
    ensures
        clean(spec_remove_min(s).1),
        forall|j: int|
            #[trigger] indices(spec_remove_min(s).1).contains(j) ==> indices(s).contains(j),
    decreases s,
{
    match s {
        Shape::Nil => {},
        Shape::Node { idx, left, right, .. } => {
            if *left is Nil {
                assert(indices(s) =~= indices(*left).union(indices(*right)).insert(idx as int));
            } else {
                lemma_remove_min_clean(*left);
                let l2 = spec_remove_min(*left).1;
                assert(indices(spec_remove_min(s).1) =~= indices(l2).union(indices(*right)).insert(
                    idx as int,
                ));
                assert(indices(s) =~= indices(*left).union(indices(*right)).insert(idx as int));
            }
        },
    }
}

/// How many copies of a key the shape loses to detaching its leftmost node.
proof fn lemma_remove_min_count(s: Shape, key: i64)
    requires
        s is Node,
    ensures
        key_count(s, key) == key_count(spec_remove_min(s).1, key) + if spec_remove_min(s).0.0
            == key {
            1nat
        } else {
            0nat
        },
    decreases s,
{
    match s {
        Shape::Nil => {},
        Shape::Node { idx, key: k, val: v, left, right } => {
            if *left is Nil {
            } else {
                lemma_remove_min_count(*left, key);
                let (p, l2) = spec_remove_min(*left);
                assert(spec_remove_min(s) == (
                    p,
                    Shape::Node { idx, key: k, val: v, left: Box::new(l2), right },
                ));
                assert(key_count(spec_remove_min(s).1, key) == key_count(l2, key) + key_count(
                    *right,
                    key,
                ) + if k == key {
                    1nat
                } else {
                    0nat
                });
            }
        },
    }
}

/// Key bounds survive deletion.
proof fn lemma_delete_keys_lt(s: Shape, key: i64, b: i64)
    requires
        keys_lt(s, b),
    ensures
        keys_lt(spec_delete(s, key), b),
    decreases s,
{
    match s {
        Shape::Nil => {},
        Shape::Node { key: k, left, right, .. } => {
            if key < k {
                lemma_delete_keys_lt(*left, key, b);
            } else if key > k {
                lemma_delete_keys_lt(*right, key, b);
            } else {
                if *left is Nil {
                } else if *right is Nil {
                } else {
                    lemma_remove_min_keys_lt(*right, b);
                }
            }
        },
    }
}

/// Key bounds survive deletion.
proof fn lemma_delete_keys_ge(s: Shape, key: i64, b: i64)
    requires
        keys_ge(s, b),
    ensures
        keys_ge(spec_delete(s, key), b),
    decreases s,
{
    match s {
        Shape::Nil => {},
        Shape::Node { key: k, left, right, .. } => {
            if key < k {
                lemma_delete_keys_ge(*left, key, b);
            } else if key > k {
                lemma_delete_keys_ge(*right, key, b);
            } else {
                if *left is Nil {
                } else if *right is Nil {
                } else {
                    lemma_remove_min_keys_ge(*right, b);
                }
            }
        },
    }
}

/// Deletion preserves the search-tree order.
pub proof fn lemma_delete_ordered(s: Shape, key: i64)
    requires
        ordered(s),
    ensures
        ordered(spec_delete(s, key)),
    decreases s,
{
    match s {
        Shape::Nil => {},
        Shape::Node { key: k, left, right, .. } => {
            if key < k {
                lemma_delete_ordered(*left, key);
                lemma_delete_keys_lt(*left, key, k);
            } else if key > k {
                lemma_delete_ordered(*right, key);
                lemma_delete_keys_ge(*right, key, k);
            } else {
                if *left is Nil {
                } else if *right is Nil {
                } else {
                    lemma_remove_min_ordered(*right);
                    lemma_remove_min_keys_ge(*right, k);
                    let mk = spec_remove_min(*right).0.0;
                    assert(mk >= k);
                    assert(keys_lt(*left, k));
                    lemma_keys_lt_strengthen(*left, k, mk);
                }
            }
        },
    }
}

/// A strict upper bound rises with the bound.
proof fn lemma_keys_lt_strengthen(s: Shape, b1: i64, b2: i64)
    requires
        keys_lt(s, b1),
        b1 <= b2,
    ensures
        keys_lt(s, b2),
    decreases s,
{
    match s {
        Shape::Nil => {},
        Shape::Node { left, right, .. } => {
            lemma_keys_lt_strengthen(*left, b1, b2);
            lemma_keys_lt_strengthen(*right, b1, b2);
        },
    }
}

/// Deletion invents no indices and keeps them unique.
pub proof fn lemma_delete_clean(s: Shape, key: i64)
    requires
        clean(s),
    ensures
        clean(spec_delete(s, key)),
        forall|j: int| #[trigger] indices(spec_delete(s, key)).contains(j) ==> indices(s).contains(j),
    decreases s,
{
    match s {
        Shape::Nil => {},
        Shape::Node { idx, left, right, .. } => {
            assert(indices(s) =~= indices(*left).union(indices(*right)).insert(idx as int));
            if key < k_of(s) {
                lemma_delete_clean(*left, key);
                assert(indices(spec_delete(s, key)) =~= indices(spec_delete(*left, key)).union(
                    indices(*right),
                ).insert(idx as int));
            } else if key > k_of(s) {
                lemma_delete_clean(*right, key);
                assert(indices(spec_delete(s, key)) =~= indices(*left).union(
                    indices(spec_delete(*right, key)),
                ).insert(idx as int));
            } else {
                if *left is Nil {
                } else if *right is Nil {
                } else {
                    lemma_remove_min_clean(*right);
                    assert(indices(spec_delete(s, key)) =~= indices(*left).union(
                        indices(spec_remove_min(*right).1),
                    ).insert(idx as int));
                }
            }
        },
    }
}

/// The key of a non-empty shape's root.
spec fn k_of(s: Shape) -> i64 {
    s->Node_key
}

/// Deleting takes away exactly one occurrence of the key when it is present,
/// and nothing otherwise.
pub proof fn lemma_delete_count(s: Shape, key: i64)
    requires
        ordered(s),
    ensures
        key_count(spec_delete(s, key), key) == if key_count(s, key) > 0 {
            (key_count(s, key) - 1) as nat
        } else {
            0nat
        },
    decreases s,
{
    match s {
        Shape::Nil => {},
        Shape::Node { key: k, left, right, .. } => {
            if key < k {
                lemma_delete_count(*left, key);
                lemma_count_zero_ge(*right, k, key);
            } else if key > k {
                lemma_delete_count(*right, key);
                lemma_count_zero_lt(*left, k, key);
            } else {
                lemma_count_zero_lt(*left, k, key);
                if *left is Nil {
                } else if *right is Nil {
                } else {
                    lemma_remove_min_count(*right, key);
                }
            }
        },
    }
}

/// After deleting a present key, the descent still finds that key exactly
/// when a duplicate of it existed, and what it then finds carries the key.
pub proof fn lemma_delete_find(s: Shape, key: i64)
    requires
        ordered(s),
        key_count(s, key) > 0,
    ensures
        spec_find(spec_delete(s, key), key) is Some <==> key_count(s, key) >= 2,
        spec_find(spec_delete(s, key), key) matches Some(p) ==> sub_at(spec_delete(s, key), p)
            is Node && sub_at(spec_delete(s, key), p)->Node_key == key,
{
    lemma_delete_count(s, key);
    lemma_delete_ordered(s, key);
    lemma_find_iff_present(spec_delete(s, key), key);
    if spec_find(spec_delete(s, key), key) is Some {
        crate::model::lemma_find_path(spec_delete(s, key), key);
    }
}

/// Insertion preserves the search-tree order, whatever sequence of inserts
/// built the shape.
pub proof fn lemma_insert_ordered(s: Shape, i: usize, key: i64, val: i64)
    requires
        ordered(s),
    ensures
        ordered(spec_insert(s, i, key, val)),
    decreases s,
{
    match s {
        Shape::Nil => {},
        Shape::Node { key: k, left, right, .. } => {
            if key < k {
                lemma_insert_ordered(*left, i, key, val);
                lemma_insert_keys_lt(*left, i, key, val, k);
            } else {
                lemma_insert_ordered(*right, i, key, val);
                lemma_insert_keys_ge(*right, i, key, val, k);
            }
        },
    }
}

/// The node the descent finds lies in the shape.
proof fn lemma_find_in_indices(s: Shape, key: i64)
    requires
        spec_find(s, key) is Some,
    ensures
        indices(s).contains(sub_at(s, spec_find(s, key).unwrap())->Node_idx as int),
    decreases s,
{
    crate::model::lemma_find_path(s, key);
    match s {
        Shape::Nil => {},
        Shape::Node { key: k, left, right, .. } => {
            if key == k {
            } else if key < k {
                lemma_find_in_indices(*left, key);
                let p = spec_find(*left, key).unwrap();
                assert((seq![false] + p).drop_first() =~= p);
                assert((seq![false] + p)[0] == false);
                assert(sub_at(s, seq![false] + p) == sub_at(*left, p));
            } else {
                lemma_find_in_indices(*right, key);
                let p = spec_find(*right, key).unwrap();
                assert((seq![true] + p).drop_first() =~= p);
                assert((seq![true] + p)[0] == true);
                assert(sub_at(s, seq![true] + p) == sub_at(*right, p));
            }
        },
    }
}

/// After a deletion, whatever the descent still finds for that key is a
/// different node from the one deleted — a duplicate, never the node itself.
/// The one family of inputs left out: a node with two children whose
/// in-order successor carries the same key. There the algorithm copies the
/// successor's payload into the deleted node's place, so the descent finds
/// the same node again, deliberately (only payload moves).
pub proof fn lemma_delete_fresh_identity(s: Shape, key: i64)
    requires
        ordered(s),
        clean(s),
        spec_find(s, key) is Some,
        !{
            let t = sub_at(s, spec_find(s, key).unwrap());
            &&& *t->Node_left is Node
            &&& *t->Node_right is Node
            &&& spec_remove_min(*t->Node_right).0.0 == key
        },
    ensures
        spec_find(spec_delete(s, key), key) matches Some(q) ==> sub_at(
            spec_delete(s, key),
            q,
        )->Node_idx != sub_at(s, spec_find(s, key).unwrap())->Node_idx,
    decreases s,
{
    let s2 = spec_delete(s, key);
    match s {
        Shape::Nil => {},
        Shape::Node { idx, key: k, left, right, .. } => {
            assert(indices(s) =~= indices(*left).union(indices(*right)).insert(idx as int));
            if key < k {
                let p = spec_find(*left, key).unwrap();
                assert((seq![false] + p).drop_first() =~= p);
                assert((seq![false] + p)[0] == false);
                assert(sub_at(s, seq![false] + p) == sub_at(*left, p));
                lemma_delete_fresh_identity(*left, key);
                if spec_find(spec_delete(*left, key), key) is Some {
                    let q = spec_find(spec_delete(*left, key), key).unwrap();
                    assert((seq![false] + q).drop_first() =~= q);
                    assert((seq![false] + q)[0] == false);
                    assert(sub_at(s2, seq![false] + q) == sub_at(spec_delete(*left, key), q));
                }
            } else if key > k {
                let p = spec_find(*right, key).unwrap();
                assert((seq![true] + p).drop_first() =~= p);
                assert((seq![true] + p)[0] == true);
                assert(sub_at(s, seq![true] + p) == sub_at(*right, p));
                lemma_delete_fresh_identity(*right, key);
                if spec_find(spec_delete(*right, key), key) is Some {
                    let q = spec_find(spec_delete(*right, key), key).unwrap();
                    assert((seq![true] + q).drop_first() =~= q);
                    assert((seq![true] + q)[0] == true);
                    assert(sub_at(s2, seq![true] + q) == sub_at(spec_delete(*right, key), q));
                }
            } else {
                assert(sub_at(s, spec_find(s, key).unwrap()) == s);
                if *left is Nil {
                    if spec_find(s2, key) is Some {
                        lemma_find_in_indices(s2, key);
                    }
                } else if *right is Nil {
                    if spec_find(s2, key) is Some {
                        lemma_find_in_indices(s2, key);
                    }
                } else {
                    let mk = spec_remove_min(*right).0.0;
                    lemma_remove_min_keys_ge(*right, k);
                    assert(mk >= k && mk != key);
                    assert(mk > key);
                    if spec_find(s2, key) is Some {
                        lemma_delete_ordered(s, key);
                        lemma_find_iff_present(spec_delete(s, key), key);
                        lemma_delete_count(s, key);
                        lemma_count_zero_lt(*left, k, key);
                        lemma_remove_min_count(*right, key);
                        lemma_remove_min_ordered(*right);
                        lemma_count_zero_ge(spec_remove_min(*right).1, mk, key);
                        assert(key_count(s2, key) == 0);
                        assert(false);
                    }
                }
            }
        },
    }
}

/// No entry of the sequence carries the key.
pub open spec fn no_key(xs: Seq<(i64, i64)>, key: i64) -> bool {
    forall|i: int| 0 <= i < xs.len() ==> (#[trigger] xs[i]).0 != key
}

/// The position of the first entry carrying the key (the length if none
/// does).
pub open spec fn first_key_at(xs: Seq<(i64, i64)>, key: i64) -> int
    decreases xs.len(),
{
    if xs.len() == 0 {
        0
    } else if xs[0].0 == key {
        0
    } else {
        1 + first_key_at(xs.drop_first(), key)
    }
}

proof fn lemma_first_after(a: Seq<(i64, i64)>, b: Seq<(i64, i64)>, key: i64)
    requires
        no_key(a, key),
    ensures
        first_key_at(a + b, key) == a.len() + first_key_at(b, key),
    decreases a.len(),
{
    if a.len() == 0 {
        assert(a + b =~= b);
    } else {
        assert((a + b)[0] == a[0]);
        assert((a + b).drop_first() =~= a.drop_first() + b);
        assert(no_key(a.drop_first(), key));
        lemma_first_after(a.drop_first(), b, key);
    }
}

proof fn lemma_first_within(a: Seq<(i64, i64)>, b: Seq<(i64, i64)>, key: i64, w: int)
    requires
        0 <= w < a.len(),
        a[w].0 == key,
    ensures
        first_key_at(a + b, key) == first_key_at(a, key),
        0 <= first_key_at(a, key) < a.len(),
        a[first_key_at(a, key)].0 == key,
    decreases a.len(),
{
    assert((a + b)[0] == a[0]);
    if a[0].0 == key {
    } else {
        assert(w >= 1);
        assert((a + b).drop_first() =~= a.drop_first() + b);
        assert(a.drop_first()[w - 1].0 == key);
        lemma_first_within(a.drop_first(), b, key, w - 1);
    }
}

/// Deleting a present key removes exactly the first in-order entry carrying
/// it, leaving everything around that entry in place: for a two-child node
/// the successor's pair simply moves one slot forward into the deleted
/// node's position.
pub proof fn lemma_delete_inorder(s: Shape, key: i64)
    requires
        ordered(s),
        spec_find(s, key) is Some,
    ensures
        ({
            let xs = inorder(s);
            let j = first_key_at(xs, key);
            &&& 0 <= j < xs.len()
            &&& xs[j].0 == key
            &&& inorder(spec_delete(s, key)) == xs.take(j) + xs.skip(j + 1)
        }),
    decreases s,
{
    let xs = inorder(s);
    let j = first_key_at(xs, key);
    match s {
        Shape::Nil => {},
        Shape::Node { key: k, val: v, left, right, .. } => {
            let ls = inorder(*left);
            let rs = inorder(*right);
            let mid = seq![(k, v)];
            assert(xs == ls + mid + rs);
            if key < k {
                lemma_find_iff_present(*left, key);
                lemma_delete_inorder(*left, key);
                let jl = first_key_at(ls, key);
                lemma_first_within(ls, mid + rs, key, jl);
                assert(ls + mid + rs =~= ls + (mid + rs));
                assert(j == jl);
                assert(inorder(spec_delete(s, key)) == (ls.take(jl) + ls.skip(jl + 1)) + mid
                    + rs);
                assert(xs.take(j) =~= ls.take(jl));
                assert(xs.skip(j + 1) =~= ls.skip(jl + 1) + mid + rs);
                assert(inorder(spec_delete(s, key)) =~= xs.take(j) + xs.skip(j + 1));
            } else if key > k {
                lemma_keys_lt_inorder(*left, k);
                assert(no_key(ls + mid, key));
                lemma_find_iff_present(*right, key);
                lemma_delete_inorder(*right, key);
                let jr = first_key_at(rs, key);
                assert(ls + mid + rs =~= (ls + mid) + rs);
                lemma_first_after(ls + mid, rs, key);
                assert(j == ls.len() + 1 + jr);
                assert(inorder(spec_delete(s, key)) == ls + mid + (rs.take(jr) + rs.skip(jr
                    + 1)));
                assert(xs.take(j) =~= ls + mid + rs.take(jr));
                assert(xs.skip(j + 1) =~= rs.skip(jr + 1));
                assert(inorder(spec_delete(s, key)) =~= xs.take(j) + xs.skip(j + 1));
            } else {
                lemma_keys_lt_inorder(*left, k);
                assert(no_key(ls, key));
                assert(ls + mid + rs =~= ls + (mid + rs));
                lemma_first_after(ls, mid + rs, key);
                assert((mid + rs)[0] == (k, v));
                assert(j == ls.len());
                assert(xs.take(j) =~= ls);
                assert(xs.skip(j + 1) =~= rs);
                if *left is Nil {
                    assert(ls =~= Seq::<(i64, i64)>::empty());
                    assert(inorder(spec_delete(s, key)) =~= ls + rs);
                } else if *right is Nil {
                    assert(rs =~= Seq::<(i64, i64)>::empty());
                    assert(inorder(spec_delete(s, key)) =~= ls + rs);
                } else {
                    lemma_remove_min_inorder(*right);
                    let ((mk, mv), r2) = spec_remove_min(*right);
                    assert(inorder(spec_delete(s, key)) == ls + seq![(mk, mv)] + inorder(r2));
                    assert(rs == seq![(mk, mv)] + inorder(r2));
                    assert(inorder(spec_delete(s, key)) =~= ls + rs);
                }
                assert(inorder(spec_delete(s, key)) =~= xs.take(j) + xs.skip(j + 1));
            }
        },
    }
}

/// Looking a key up right after inserting it finds the inserted value,
/// provided the key was not in the tree before (an older duplicate would
/// shadow the new node, since equal keys stop the descent).
pub proof fn lemma_insert_find(s: Shape, i: usize, key: i64, val: i64)
    requires
        ordered(s),
        spec_find(s, key) is None,
    ensures
        spec_find_value(spec_insert(s, i, key, val), key) == Some(val),
    decreases s,
{
    let s2 = spec_insert(s, i, key, val);
    match s {
        Shape::Nil => {
            assert(spec_find(s2, key) == Some(Seq::<bool>::empty()));
        },
        Shape::Node { key: k, left, right, .. } => {
            if key < k {
                lemma_insert_find(*left, i, key, val);
                let l2 = spec_insert(*left, i, key, val);
                let p = spec_find(l2, key).unwrap();
                assert(spec_find(s2, key) == Some(seq![false] + p));
                assert((seq![false] + p).drop_first() =~= p);
                assert((seq![false] + p)[0] == false);
                assert(sub_at(s2, seq![false] + p) == sub_at(l2, p));
            } else if key > k {
                lemma_insert_find(*right, i, key, val);
                let r2 = spec_insert(*right, i, key, val);
                let p = spec_find(r2, key).unwrap();
                assert(spec_find(s2, key) == Some(seq![true] + p));
                assert((seq![true] + p).drop_first() =~= p);
                assert((seq![true] + p)[0] == true);
                assert(sub_at(s2, seq![true] + p) == sub_at(r2, p));
            }
        },
    }
}

/// A fully right-skewed shape has as many levels as nodes.
pub proof fn lemma_spine_levels(s: Shape)
    requires
        right_spine(s),
    ensures
        levels(s) == size(s),
    decreases s,
{
    match s {
        Shape::Nil => {},
        Shape::Node { left, right, .. } => {
            lemma_spine_levels(*right);
            assert(levels(*left) == 0);
            assert(size(*left) == 0);
        },
    }
}

/// Inserting a key strictly above every present key into a fully
/// right-skewed shape keeps the shape skewed and deepens it by exactly one
/// level: ascending insertion degrades the tree to a list, one level per
/// insert, since nothing rebalances it.
pub proof fn lemma_skewed_ascending_insert(s: Shape, i: usize, key: i64, val: i64)
    requires
        right_spine(s),
        keys_lt(s, key),
    ensures
        right_spine(spec_insert(s, i, key, val)),
        levels(spec_insert(s, i, key, val)) == levels(s) + 1,
        forall|b: i64| key < b ==> keys_lt(spec_insert(s, i, key, val), b),
    decreases s,
{
    match s {
        Shape::Nil => {},
        Shape::Node { right, .. } => {
            lemma_skewed_ascending_insert(*right, i, key, val);
        },
    }
    lemma_spine_levels(s);
    lemma_spine_levels(spec_insert(s, i, key, val));
    assert forall|b: i64| key < b implies keys_lt(spec_insert(s, i, key, val), b) by {
        lemma_keys_lt_strengthen(s, key, b);
        lemma_keys_lt_of_insert(s, i, key, val, b);
    }
}

/// The shape left by inserting the keys 1, 2, .., n in that order into an
/// empty tree (values and identifiers play no part in its depth).
pub open spec fn ascending_tree(n: nat) -> Shape
    decreases n,
{
    if n == 0 {
        Shape::Nil
    } else {
        spec_insert(ascending_tree((n - 1) as nat), (n - 1) as usize, n as i64, 0)
    }
}

/// Inserting 1 .. n in strictly ascending order leaves a fully right-skewed
/// tree of n levels — so its deepest node sits n - 1 edges below the root.
pub proof fn lemma_ascending_depth(n: nat)
    requires
        n <= 0x7fff_ffff_ffff_ffff,
    ensures
        right_spine(ascending_tree(n)),
        levels(ascending_tree(n)) == n,
        forall|b: i64| b > n ==> keys_lt(ascending_tree(n), b),
    decreases n,
{
    if n > 0 {
        lemma_ascending_depth((n - 1) as nat);
        lemma_skewed_ascending_insert(
            ascending_tree((n - 1) as nat),
            (n - 1) as usize,
            n as i64,
            0,
        );
    }
}

/// Helper: insertion below a strict bound keeps the bound.
proof fn lemma_keys_lt_of_insert(s: Shape, i: usize, key: i64, val: i64, b: i64)
    requires
        keys_lt(s, b),
        key < b,
    ensures
        keys_lt(spec_insert(s, i, key, val), b),
{
    lemma_insert_keys_lt(s, i, key, val, b);
}

/// A finite set's length grows by exactly the disjoint part of a union.
proof fn lemma_disjoint_union_len<A>(a: Set<A>, b: Set<A>)
    requires
        a.finite(),
        b.finite(),
        a.disjoint(b),
    ensures
        a.union(b).finite(),
        a.union(b).len() == a.len() + b.len(),
    decreases a.len(),
{
    if a.is_empty() {
        assert(a.union(b) =~= b);
        assert(a.len() == 0);
    } else {
        let x = a.choose();
        assert(a.contains(x));
        assert(a.remove(x).disjoint(b));
        lemma_disjoint_union_len(a.remove(x), b);
        assert(a.remove(x).union(b) =~= a.union(b).remove(x));
        assert(a.union(b) =~= a.remove(x).union(b).insert(x));
        assert(!a.remove(x).union(b).contains(x));
    }
}

/// A shape with unique indices has exactly as many indices as nodes.
pub proof fn lemma_indices_card(s: Shape)
    requires
        clean(s),
    ensures
        indices(s).finite(),
        indices(s).len() == size(s),
    decreases s,
{
    match s {
        Shape::Nil => {
            assert(indices(s) =~= Set::empty());
        },
        Shape::Node { idx, left, right, .. } => {
            lemma_indices_card(*left);
            lemma_indices_card(*right);
            lemma_disjoint_union_len(indices(*left), indices(*right));
            let u = indices(*left).union(indices(*right));
            assert(!u.contains(idx as int));
            assert(indices(s) =~= u.insert(idx as int));
        },
    }
}

/// A shape never has more levels than nodes.
pub proof fn lemma_levels_le_size(s: Shape)
    ensures
        levels(s) <= size(s),
    decreases s,
{
    match s {
        Shape::Nil => {},
        Shape::Node { left, right, .. } => {
            lemma_levels_le_size(*left);
            lemma_levels_le_size(*right);
        },
    }
}

/// A subtree reached by a path is no bigger than the whole shape.
pub proof fn lemma_sub_size(s: Shape, path: Seq<bool>)
    requires
        path_valid(s, path),
    ensures
        size(sub_at(s, path)) <= size(s),
    decreases path.len(),
{
    if path.len() > 0 {
        match s {
            Shape::Nil => {},
            Shape::Node { left, right, .. } => {
                lemma_sub_size(
                    if path[0] {
                        *right
                    } else {
                        *left
                    },
                    path.drop_first(),
                );
            },
        }
    }
}

} // verus!
