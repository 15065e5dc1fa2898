//! The tree printer: a two-pass, level-by-level ASCII layout.
//!
//! The first pass computes, per node, the rendered width of its left and
//! right subtrees; the second walks the tree level by level, padding each
//! node's label so that it sits above its subtree's span, with `+` marking
//! the column where a child's link meets its parent and `-` runs connecting
//! it to the label.

use std::io::Write;

use vstd::prelude::*;
use vstd::string::StrSliceExecFns;
use vstd::string::StringExecFns;

use crate::model::{sub_at, Shape};
use crate::tree::{
    lemma_node_wf, lemma_repr_at_path, lemma_tree_wf, repr, BinarySearchTree, Node, NodeCell,
    TreeSpec,
};

verus! {

/// The decimal digit character for one digit value.
pub open spec fn dec_digit(d: int) -> char {
    ((48 + d) as u8) as char
}

/// The decimal digit string of a non-negative integer, most significant
/// digit first.
pub open spec fn udec(n: int) -> Seq<char>
    decreases n,
{
    if n < 0 {
        Seq::empty()
    } else if n < 10 {
        seq![dec_digit(n)]
    } else {
        udec(n / 10).push(dec_digit(n % 10))
    }
}

/// The decimal rendering of a signed integer.
pub open spec fn dec(n: i64) -> Seq<char> {
    if n < 0 {
        seq!['-'] + udec(-(n as int))
    } else {
        udec(n as int)
    }
}

/// A node's printed label: `(key,value)` — the attribute slot renders as
/// nothing.
pub open spec fn label(k: i64, v: i64) -> Seq<char> {
    seq!['('] + dec(k) + seq![','] + dec(v) + seq![')']
}

/// Relies on `i64`'s `Display` through `ToString::to_string`: the decimal
/// digits of the value, with a leading '-' when it is negative.
#[verifier::external_body]
fn fmt_i64(n: i64) -> (r: String)
    ensures
        r@ == dec(n),
{
    n.to_string()
}

/// Relies on `writeln!` to `std::io::Stdout`: puts the text and a line break
/// on standard output.
#[verifier::external_body]
fn emit_line(s: &str) {
    let mut out = std::io::stdout();
    let _ = writeln!(out, "{}", s);
}

/// Relies on `write!` to `std::io::Stdout`: puts the text, and nothing more,
/// on standard output.
#[verifier::external_body]
fn emit_str(s: &str) {
    let mut out = std::io::stdout();
    let _ = write!(out, "{}", s);
}

/// The label text of one (key, value) pair.
fn label_str(k: i64, v: i64) -> (r: String)
    ensures
        r@ == label(k, v),
{
    let mut s = String::new();
    s.append("(");
    s.append(fmt_i64(k).as_str());
    s.append(",");
    s.append(fmt_i64(v).as_str());
    s.append(")");
    proof {
        reveal_strlit("(");
        reveal_strlit(",");
        reveal_strlit(")");
        assert(s@ =~= label(k, v));
    }
    s
}

/// The printed width of one label.
fn label_width(k: i64, v: i64) -> (r: usize)
    ensures
        r == label(k, v).len(),
{
    let s = label_str(k, v);
    s.as_str().unicode_len()
}

/// The total printed width of a shape: every node's label, summed.
pub open spec fn shape_w(s: Shape) -> int
    decreases s,
{
    match s {
        Shape::Nil => 0,
        Shape::Node { key, val, left, right, .. } => label(key, val).len() + shape_w(*left)
            + shape_w(*right),
    }
}

/// A shape's width is never negative.
pub proof fn lemma_shape_w_nonneg(s: Shape)
    ensures
        shape_w(s) >= 0,
    decreases s,
{
    match s {
        Shape::Nil => {},
        Shape::Node { left, right, .. } => {
            lemma_shape_w_nonneg(*left);
            lemma_shape_w_nonneg(*right);
        },
    }
}

/// The widest rendering the printer accepts, so that every intermediate
/// column count fits comfortably in `usize`.
pub const WIDTH_CAP: usize = 0x1000_0000;

/// The rendered width of the subtree in `slot` of the arena.
fn width_at(
    ns: &Vec<NodeCell>,
    slot: Option<usize>,
    Ghost(s): Ghost<Shape>,
    Ghost(par): Ghost<Option<usize>>,
) -> (w: usize)
    requires
        repr(ns@, slot, par, s),
        shape_w(s) <= WIDTH_CAP,
    ensures
        w == shape_w(s),
    decreases s,
{
    match slot {
        None => {
            proof {
                match s {
                    Shape::Nil => {},
                    Shape::Node { .. } => {
                        assert(false);
                    },
                }
            }
            0
        },
        Some(i) => {
            let ghost ls = *s->Node_left;
            let ghost rs = *s->Node_right;
            proof {
                match s {
                    Shape::Nil => {
                        assert(false);
                    },
                    Shape::Node { idx, .. } => {
                        assert(idx == i);
                        assert(repr(ns@, ns@[i as int].left, Some(i), ls));
                        assert(repr(ns@, ns@[i as int].right, Some(i), rs));
                    },
                }
                lemma_shape_w_nonneg(ls);
                lemma_shape_w_nonneg(rs);
            }
            let lw = width_at(ns, ns[i].left, Ghost(ls), Ghost(Some(i)));
            let rw = width_at(ns, ns[i].right, Ghost(rs), Ghost(Some(i)));
            let hw = label_width(ns[i].key, ns[i].value);
            lw + hw + rw
        },
    }
}

/// The width of a node's left subtree (0 for the empty shape).
pub open spec fn left_w(s: Shape) -> int {
    match s {
        Shape::Nil => 0,
        Shape::Node { left, .. } => shape_w(*left),
    }
}

/// The width of a node's right subtree (0 for the empty shape).
pub open spec fn right_w(s: Shape) -> int {
    match s {
        Shape::Nil => 0,
        Shape::Node { right, .. } => shape_w(*right),
    }
}

/// The width of a node's own label (0 for the empty shape).
pub open spec fn node_w(s: Shape) -> int {
    match s {
        Shape::Nil => 0,
        Shape::Node { key, val, .. } => label(key, val).len() as int,
    }
}

/// How far to the left of the label the connector for the left child sits:
/// the distance back to the middle of the left child's own label.
pub open spec fn left_bal(s: Shape) -> int {
    match s {
        Shape::Nil => 0,
        Shape::Node { left, .. } => match *left {
            Shape::Nil => 0,
            Shape::Node { .. } => right_w(*left) + node_w(*left) / 2,
        },
    }
}

/// How far to the right of the label the connector for the right child sits.
pub open spec fn right_bal(s: Shape) -> int {
    match s {
        Shape::Nil => 0,
        Shape::Node { right, .. } => match *right {
            Shape::Nil => 0,
            Shape::Node { .. } => left_w(*right) + node_w(*right) / 2,
        },
    }
}

/// What one node contributes to its line: padding from the previous column
/// up to its subtree's span, the connector for a left child (`+` under the
/// child's centre, `-` up to the label), its label, and the right-hand
/// connector over the right subtree's span.
pub open spec fn chunk(gap: int, s: Shape) -> Seq<char> {
    let loff = gap + left_w(s);
    Seq::new(
        loff as nat,
        |i: int|
            if i > loff - left_bal(s) {
                '-'
            } else if i == loff - left_bal(s) {
                '+'
            } else {
                ' '
            },
    ) + label(s->Node_key, s->Node_val) + Seq::new(
        right_w(s) as nat,
        |i: int|
            if i < right_bal(s) - 1 {
                '-'
            } else if i == right_bal(s) - 1 {
                '+'
            } else {
                ' '
            },
    )
}

/// The nodes of depth `d` below `s`, left to right, each with the column at
/// which its subtree's span begins; a node's own span starts after its left
/// subtree, and its right subtree after its label.
pub open spec fn level_entries(s: Shape, base: int, d: nat) -> Seq<(int, Shape)>
    decreases d, s,
{
    match s {
        Shape::Nil => Seq::empty(),
        Shape::Node { left, right, .. } => if d == 0 {
            seq![(base, s)]
        } else {
            level_entries(*left, base, (d - 1) as nat) + level_entries(
                *right,
                base + left_w(s) + node_w(s),
                (d - 1) as nat,
            )
        },
    }
}

/// One printed line: each node's chunk, left to right, with the column
/// cursor advanced to the end of each node's span.
pub open spec fn line_of(es: Seq<(int, Shape)>, cur: int) -> Seq<char>
    decreases es.len(),
{
    if es.len() == 0 {
        Seq::empty()
    } else {
        chunk(es[0].0 - cur, es[0].1) + line_of(es.drop_first(), es[0].0 + shape_w(es[0].1))
    }
}

/// The line the printer owes for depth `d` of shape `s`.
pub open spec fn line_at(s: Shape, d: nat) -> Seq<char> {
    line_of(level_entries(s, 0, d), 0)
}

/// The entries are nodes, in order, each starting at or after the previous
/// one's end.
pub open spec fn wf_entries(es: Seq<(int, Shape)>, cur: int) -> bool
    decreases es.len(),
{
    es.len() == 0 || {
        &&& es[0].1 is Node
        &&& es[0].0 >= cur
        &&& wf_entries(es.drop_first(), es[0].0 + shape_w(es[0].1))
    }
}

/// The column where the last entry's span ends.
pub open spec fn entries_end(es: Seq<(int, Shape)>, cur: int) -> int
    decreases es.len(),
{
    if es.len() == 0 {
        cur
    } else {
        entries_end(es.drop_first(), es[0].0 + shape_w(es[0].1))
    }
}

proof fn lemma_wf_entries_mono(es: Seq<(int, Shape)>, c1: int, c2: int)
    requires
        wf_entries(es, c1),
        c2 <= c1,
    ensures
        wf_entries(es, c2),
{
}

proof fn lemma_end_indep(es: Seq<(int, Shape)>, c1: int, c2: int)
    requires
        es.len() > 0,
    ensures
        entries_end(es, c1) == entries_end(es, c2),
{
}

proof fn lemma_end_ge(es: Seq<(int, Shape)>, cur: int)
    requires
        wf_entries(es, cur),
    ensures
        entries_end(es, cur) >= cur,
    decreases es.len(),
{
    if es.len() > 0 {
        lemma_end_ge(es.drop_first(), es[0].0 + shape_w(es[0].1));
        lemma_shape_w_nonneg(es[0].1);
    }
}

proof fn lemma_wf_entries_concat(a: Seq<(int, Shape)>, b: Seq<(int, Shape)>, cur: int)
    requires
        wf_entries(a, cur),
        wf_entries(b, entries_end(a, cur)),
    ensures
        wf_entries(a + b, cur),
        entries_end(a + b, cur) == entries_end(b, entries_end(a, cur)),
    decreases a.len(),
{
    if a.len() == 0 {
        assert(a + b =~= b);
    } else {
        assert((a + b)[0] == a[0]);
        assert((a + b).drop_first() =~= a.drop_first() + b);
        lemma_wf_entries_concat(a.drop_first(), b, a[0].0 + shape_w(a[0].1));
    }
}

/// The entries of any level are well spaced and stay within the shape's
/// span.
proof fn lemma_entries_wf(s: Shape, base: int, d: nat)
    ensures
        wf_entries(level_entries(s, base, d), base),
        entries_end(level_entries(s, base, d), base) <= base + shape_w(s),
        entries_end(level_entries(s, base, d), base) >= base,
    decreases d, s,
{
    match s {
        Shape::Nil => {
            assert(level_entries(s, base, d).len() == 0);
            assert(wf_entries(level_entries(s, base, d), base));
            assert(entries_end(level_entries(s, base, d), base) == base);
        },
        Shape::Node { left, right, .. } => {
            lemma_shape_w_nonneg(s);
            lemma_shape_w_nonneg(*left);
            lemma_shape_w_nonneg(*right);
            assert(node_w(s) >= 0);
            if d == 0 {
                let es = level_entries(s, base, d);
                assert(es =~= seq![(base, s)]);
                assert(es.drop_first() =~= Seq::<(int, Shape)>::empty());
                assert(wf_entries(es.drop_first(), base + shape_w(s)));
                assert(entries_end(es.drop_first(), base + shape_w(s)) == base + shape_w(s));
                assert(wf_entries(es, base));
                assert(entries_end(es, base) == base + shape_w(s));
            } else {
                let a = level_entries(*left, base, (d - 1) as nat);
                let b = level_entries(*right, base + left_w(s) + node_w(s), (d - 1) as nat);
                lemma_entries_wf(*left, base, (d - 1) as nat);
                lemma_entries_wf(*right, base + left_w(s) + node_w(s), (d - 1) as nat);
                if b.len() == 0 {
                    lemma_wf_entries_concat(a, b, base);
                } else {
                    lemma_wf_entries_mono(b, base + left_w(s) + node_w(s), entries_end(a, base));
                    lemma_end_indep(b, base + left_w(s) + node_w(s), entries_end(a, base));
                    lemma_wf_entries_concat(a, b, base);
                }
            }
        },
    }
}

/// The chunk of one appended entry lands at the end of the line so far.
proof fn lemma_line_push(a: Seq<(int, Shape)>, x: (int, Shape), cur: int)
    ensures
        line_of(a.push(x), cur) == line_of(a, cur) + chunk(
            x.0 - entries_end(a, cur),
            x.1,
        ),
    decreases a.len(),
{
    if a.len() == 0 {
        assert(a.push(x)[0] == x);
        assert(a.push(x).drop_first() =~= Seq::<(int, Shape)>::empty());
        assert(line_of(a.push(x).drop_first(), x.0 + shape_w(x.1)) =~= Seq::empty());
        assert(entries_end(a, cur) == cur);
        assert(line_of(a, cur) =~= Seq::empty());
        assert(line_of(a.push(x), cur) =~= chunk(x.0 - cur, x.1));
        assert(line_of(a, cur) + chunk(x.0 - cur, x.1) =~= chunk(x.0 - cur, x.1));
    } else {
        assert(a.push(x)[0] == a[0]);
        assert(a.push(x).drop_first() =~= a.drop_first().push(x));
        lemma_line_push(a.drop_first(), x, a[0].0 + shape_w(a[0].1));
        assert(line_of(a.push(x), cur) =~= line_of(a, cur) + chunk(
            x.0 - entries_end(a, cur),
            x.1,
        ));
    }
}

/// The children of one entry: its left child at the entry's own column, its
/// right child just after the label.
pub open spec fn child_entries(e: (int, Shape)) -> Seq<(int, Shape)> {
    level_entries(*e.1->Node_left, e.0, 0) + level_entries(
        *e.1->Node_right,
        e.0 + left_w(e.1) + node_w(e.1),
        0,
    )
}

/// All the children of a row of entries, left to right.
pub open spec fn children_of(es: Seq<(int, Shape)>) -> Seq<(int, Shape)>
    decreases es.len(),
{
    if es.len() == 0 {
        Seq::empty()
    } else {
        child_entries(es[0]) + children_of(es.drop_first())
    }
}

proof fn lemma_children_concat(a: Seq<(int, Shape)>, b: Seq<(int, Shape)>)
    ensures
        children_of(a + b) == children_of(a) + children_of(b),
    decreases a.len(),
{
    if a.len() == 0 {
        assert(a + b =~= b);
        assert(children_of(a) + children_of(b) =~= children_of(b));
    } else {
        assert((a + b)[0] == a[0]);
        assert((a + b).drop_first() =~= a.drop_first() + b);
        lemma_children_concat(a.drop_first(), b);
        assert(children_of(a + b) =~= children_of(a) + children_of(b));
    }
}

proof fn lemma_children_push(a: Seq<(int, Shape)>, x: (int, Shape))
    ensures
        children_of(a.push(x)) == children_of(a) + child_entries(x),
{
    assert(a.push(x) =~= a + seq![x]);
    lemma_children_concat(a, seq![x]);
    assert(seq![x].drop_first() =~= Seq::<(int, Shape)>::empty());
    assert(children_of(seq![x].drop_first()) =~= Seq::empty());
    assert(children_of(seq![x]) =~= child_entries(x));
    assert(children_of(a) + children_of(seq![x]) =~= children_of(a) + child_entries(x));
}

/// Each level's entries are exactly the children of the previous level's.
proof fn lemma_level_step(s: Shape, base: int, d: nat)
    ensures
        level_entries(s, base, d + 1) == children_of(level_entries(s, base, d)),
    decreases d, s,
{
    match s {
        Shape::Nil => {},
        Shape::Node { left, right, .. } => {
            if d == 0 {
                let e = (base, s);
                assert(level_entries(s, base, d) =~= seq![e]);
                lemma_children_push(Seq::empty(), e);
                assert(Seq::<(int, Shape)>::empty().push(e) =~= seq![e]);
                assert(children_of(seq![e]) == child_entries(e));
                assert(level_entries(s, base, 1) =~= child_entries(e));
            } else {
                lemma_level_step(*left, base, (d - 1) as nat);
                lemma_level_step(*right, base + left_w(s) + node_w(s), (d - 1) as nat);
                lemma_children_concat(
                    level_entries(*left, base, (d - 1) as nat),
                    level_entries(*right, base + left_w(s) + node_w(s), (d - 1) as nat),
                );
            }
        },
    }
}

/// A level holds an entry exactly while the depth is within the shape.
proof fn lemma_level_card(s: Shape, base: int, d: nat)
    ensures
        level_entries(s, base, d).len() > 0 <==> d < crate::model::levels(s),
    decreases d, s,
{
    match s {
        Shape::Nil => {},
        Shape::Node { left, right, .. } => {
            if d > 0 {
                lemma_level_card(*left, base, (d - 1) as nat);
                lemma_level_card(*right, base + left_w(s) + node_w(s), (d - 1) as nat);
            }
        },
    }
}

/// Appending an entry moves the end of the line to the end of its span.
proof fn lemma_end_push(a: Seq<(int, Shape)>, x: (int, Shape), cur: int)
    ensures
        entries_end(a.push(x), cur) == x.0 + shape_w(x.1),
    decreases a.len(),
{
    if a.len() == 0 {
        assert(a.push(x)[0] == x);
        assert(a.push(x).drop_first() =~= Seq::<(int, Shape)>::empty());
        assert(entries_end(a.push(x).drop_first(), x.0 + shape_w(x.1)) == x.0 + shape_w(x.1));
    } else {
        assert(a.push(x)[0] == a[0]);
        assert(a.push(x).drop_first() =~= a.drop_first().push(x));
        lemma_end_push(a.drop_first(), x, a[0].0 + shape_w(a[0].1));
    }
}

/// One exec row entry agrees with its spec counterpart.
spec fn entry_ok(
    es: Seq<(int, Shape)>,
    j: int,
    nds: Seq<usize>,
    offs: Seq<usize>,
    shp: Seq<Shape>,
    prs: Seq<Option<usize>>,
    cells: Seq<NodeCell>,
) -> bool {
    &&& es[j].0 == offs[j] as int
    &&& es[j].1 == shp[j]
    &&& shp[j] is Node
    &&& nds[j] == shp[j]->Node_idx
    &&& repr(cells, Some(nds[j]), prs[j], shp[j])
}

/// Append the left-hand padding of one node: spaces up to the left child's
/// centre column, `+` there, then `-` runs to the label.
fn pad_left(line: &mut String, count: usize, bal: usize)
    requires
        bal <= count,
    ensures
        final(line)@ == old(line)@ + Seq::new(
            count as nat,
            |i: int|
                if i > count - bal {
                    '-'
                } else if i == count - bal {
                    '+'
                } else {
                    ' '
                },
        ),
{
    let ghost base = line@;
    let mut i: usize = 0;
    while i < count
        invariant
            bal <= count,
            i <= count,
            line@ == base + Seq::new(
                i as nat,
                |j: int|
                    if j > count - bal {
                        '-'
                    } else if j == count - bal {
                        '+'
                    } else {
                        ' '
                    },
            ),
        decreases count - i,
    {
        if i > count - bal {
            line.append("-");
        } else if i == count - bal {
            line.append("+");
        } else {
            line.append(" ");
        }
        proof {
            reveal_strlit("-");
            reveal_strlit("+");
            reveal_strlit(" ");
            assert(line@ =~= base + Seq::new(
                (i + 1) as nat,
                |j: int|
                    if j > count - bal {
                        '-'
                    } else if j == count - bal {
                        '+'
                    } else {
                        ' '
                    },
            ));
        }
        i = i + 1;
    }
}

/// Append the right-hand padding of one node: `-` runs out to the right
/// child's centre column, `+` there, then spaces to the end of the right
/// subtree's span.
fn pad_right(line: &mut String, count: usize, bal: usize)
    ensures
        final(line)@ == old(line)@ + Seq::new(
            count as nat,
            |i: int|
                if i < bal - 1 {
                    '-'
                } else if i == bal - 1 {
                    '+'
                } else {
                    ' '
                },
        ),
{
    let ghost base = line@;
    let mut i: usize = 0;
    while i < count
        invariant
            i <= count,
            line@ == base + Seq::new(
                i as nat,
                |j: int|
                    if j < bal - 1 {
                        '-'
                    } else if j == bal - 1 {
                        '+'
                    } else {
                        ' '
                    },
            ),
        decreases count - i,
    {
        if i + 1 < bal {
            line.append("-");
        } else if i + 1 == bal {
            line.append("+");
        } else {
            line.append(" ");
        }
        proof {
            reveal_strlit("-");
            reveal_strlit("+");
            reveal_strlit(" ");
            assert(line@ =~= base + Seq::new(
                (i + 1) as nat,
                |j: int|
                    if j < bal - 1 {
                        '-'
                    } else if j == bal - 1 {
                        '+'
                    } else {
                        ' '
                    },
            ));
        }
        i = i + 1;
    }
}

/// Render the subtree rooted at cell `i`, one string per level, exactly as
/// the level-by-level layout prescribes.
#[verifier::rlimit(100)]
fn render_at(
    t: &BinarySearchTree,
    i: usize,
    Ghost(s): Ghost<Shape>,
    Ghost(par): Ghost<Option<usize>>,
) -> (r: Vec<String>)
    requires
        repr(t.nodes@, Some(i), par, s),
        shape_w(s) <= WIDTH_CAP,
    ensures
        r@.len() == crate::model::levels(s),
        forall|d: int| 0 <= d < r@.len() ==> (#[trigger] r@[d])@ == line_at(s, d as nat),
{
    let mut lines: Vec<String> = Vec::new();
    let mut nds: Vec<usize> = Vec::new();
    let mut offs: Vec<usize> = Vec::new();
    let ghost mut shp: Seq<Shape> = seq![s];
    let ghost mut prs: Seq<Option<usize>> = seq![par];
    let ghost mut d: nat = 0;
    nds.push(i);
    offs.push(0);
    proof {
        match s {
            Shape::Nil => {
                assert(false);
            },
            Shape::Node { .. } => {},
        }
        assert(level_entries(s, 0, 0) =~= seq![(0int, s)]);
        assert(entry_ok(level_entries(s, 0, 0), 0, nds@, offs@, shp, prs, t.nodes@));
    }
    while nds.len() > 0
        invariant
            shape_w(s) <= WIDTH_CAP,
            nds@.len() == offs@.len(),
            nds@.len() == shp.len(),
            nds@.len() == prs.len(),
            level_entries(s, 0, d).len() == nds@.len(),
            forall|j: int|
                0 <= j < nds@.len() ==> #[trigger] entry_ok(
                    level_entries(s, 0, d),
                    j,
                    nds@,
                    offs@,
                    shp,
                    prs,
                    t.nodes@,
                ),
            lines@.len() == d,
            forall|dd: int| 0 <= dd < d ==> (#[trigger] lines@[dd])@ == line_at(s, dd as nat),
            d <= crate::model::levels(s),
        decreases crate::model::levels(s) - d,
    {
        let ghost es = level_entries(s, 0, d);
        proof {
            lemma_entries_wf(s, 0, d);
            lemma_level_card(s, 0, d);
            assert(es.take(0) =~= Seq::<(int, Shape)>::empty());
            assert(line_of(es.take(0), 0) =~= Seq::<char>::empty());
            assert(entries_end(es.take(0), 0) == 0);
            assert(children_of(es.take(0)) =~= Seq::<(int, Shape)>::empty());
            assert(es.skip(0) =~= es);
        }
        let mut line = String::new();
        let mut cur: usize = 0;
        let mut new_nds: Vec<usize> = Vec::new();
        let mut new_offs: Vec<usize> = Vec::new();
        let ghost mut new_shp: Seq<Shape> = Seq::empty();
        let ghost mut new_prs: Seq<Option<usize>> = Seq::empty();
        let mut j: usize = 0;
        while j < nds.len()
            invariant
                shape_w(s) <= WIDTH_CAP,
                nds@.len() == offs@.len(),
                nds@.len() == shp.len(),
                nds@.len() == prs.len(),
                es == level_entries(s, 0, d),
                es.len() == nds@.len(),
                forall|j2: int|
                    0 <= j2 < nds@.len() ==> #[trigger] entry_ok(
                        es,
                        j2,
                        nds@,
                        offs@,
                        shp,
                        prs,
                        t.nodes@,
                    ),
                j <= nds@.len(),
                line@ == line_of(es.take(j as int), 0),
                cur as int == entries_end(es.take(j as int), 0),
                wf_entries(es.skip(j as int), cur as int),
                entries_end(es.skip(j as int), cur as int) <= shape_w(s),
                new_nds@.len() == new_offs@.len(),
                new_nds@.len() == new_shp.len(),
                new_nds@.len() == new_prs.len(),
                children_of(es.take(j as int)).len() == new_nds@.len(),
                forall|j2: int|
                    0 <= j2 < new_nds@.len() ==> #[trigger] entry_ok(
                        children_of(es.take(j as int)),
                        j2,
                        new_nds@,
                        new_offs@,
                        new_shp,
                        new_prs,
                        t.nodes@,
                    ),
            decreases nds@.len() - j,
        {
            let idx = nds[j];
            let off = offs[j];
            let ghost sh = shp[j as int];
            let ghost lsub = *sh->Node_left;
            let ghost rsub = *sh->Node_right;
            let ghost jj = j as int;
            proof {
                assert(entry_ok(es, jj, nds@, offs@, shp, prs, t.nodes@));
                assert(es.skip(jj)[0] == es[jj]);
                assert(es.skip(jj).drop_first() =~= es.skip(jj + 1));
                match sh {
                    Shape::Nil => {
                        assert(false);
                    },
                    Shape::Node { idx: si, .. } => {
                        assert(si == idx);
                        assert(repr(t.nodes@, t.nodes@[idx as int].left, Some(idx), lsub));
                        assert(repr(t.nodes@, t.nodes@[idx as int].right, Some(idx), rsub));
                    },
                }
                lemma_shape_w_nonneg(lsub);
                lemma_shape_w_nonneg(rsub);
                lemma_end_ge(es.skip(jj + 1), off as int + shape_w(sh));
                lemma_end_indep(es.skip(jj), cur as int, 0);
                assert(entries_end(es.skip(jj), cur as int) == entries_end(
                    es.skip(jj + 1),
                    off as int + shape_w(sh),
                ));
                assert(off as int + shape_w(sh) <= shape_w(s));
            }
            let k = t.nodes[idx].key;
            let v = t.nodes[idx].value;
            let lw_ = width_at(&t.nodes, t.nodes[idx].left, Ghost(lsub), Ghost(Some(idx)));
            let rw_ = width_at(&t.nodes, t.nodes[idx].right, Ghost(rsub), Ghost(Some(idx)));
            let hw_ = label_width(k, v);
            let lbal_: usize = match t.nodes[idx].left {
                None => {
                    proof {
                        match lsub {
                            Shape::Nil => {},
                            Shape::Node { .. } => {
                                assert(false);
                            },
                        }
                    }
                    0
                },
                Some(li) => {
                    proof {
                        match lsub {
                            Shape::Nil => {
                                assert(false);
                            },
                            Shape::Node { idx: li2, left: cll, right: clr, .. } => {
                                assert(li2 == li);
                                assert(repr(
                                    t.nodes@,
                                    t.nodes@[li as int].right,
                                    Some(li),
                                    *clr,
                                ));
                                lemma_shape_w_nonneg(*cll);
                                lemma_shape_w_nonneg(*clr);
                            },
                        }
                    }
                    let crw = width_at(
                        &t.nodes,
                        t.nodes[li].right,
                        Ghost(*lsub->Node_right),
                        Ghost(Some(li)),
                    );
                    let chw = label_width(t.nodes[li].key, t.nodes[li].value);
                    crw + chw / 2
                },
            };
            let rbal_: usize = match t.nodes[idx].right {
                None => {
                    proof {
                        match rsub {
                            Shape::Nil => {},
                            Shape::Node { .. } => {
                                assert(false);
                            },
                        }
                    }
                    0
                },
                Some(ri) => {
                    proof {
                        match rsub {
                            Shape::Nil => {
                                assert(false);
                            },
                            Shape::Node { idx: ri2, left: crl, right: crr, .. } => {
                                assert(ri2 == ri);
                                assert(repr(
                                    t.nodes@,
                                    t.nodes@[ri as int].left,
                                    Some(ri),
                                    *crl,
                                ));
                                lemma_shape_w_nonneg(*crl);
                                lemma_shape_w_nonneg(*crr);
                            },
                        }
                    }
                    let clw = width_at(
                        &t.nodes,
                        t.nodes[ri].left,
                        Ghost(*rsub->Node_left),
                        Ghost(Some(ri)),
                    );
                    let chw = label_width(t.nodes[ri].key, t.nodes[ri].value);
                    clw + chw / 2
                },
            };
            proof {
                assert(lbal_ as int == left_bal(sh));
                assert(rbal_ as int == right_bal(sh));
                assert(lbal_ <= lw_);
            }
            let ghost onds = new_nds@;
            let ghost ooffs = new_offs@;
            let ghost oshp = new_shp;
            let ghost oprs = new_prs;
            let loffset = off - cur + lw_;
            pad_left(&mut line, loffset, lbal_);
            let lab = label_str(k, v);
            line.append(lab.as_str());
            pad_right(&mut line, rw_, rbal_);
            match t.nodes[idx].left {
                Some(li) => {
                    new_nds.push(li);
                    new_offs.push(off);
                    proof {
                        new_shp = new_shp.push(lsub);
                        new_prs = new_prs.push(Some(idx));
                    }
                },
                None => {},
            }
            match t.nodes[idx].right {
                Some(ri) => {
                    new_nds.push(ri);
                    new_offs.push(off + lw_ + hw_);
                    proof {
                        new_shp = new_shp.push(rsub);
                        new_prs = new_prs.push(Some(idx));
                    }
                },
                None => {},
            }
            cur = off + lw_ + hw_ + rw_;
            j = j + 1;
            proof {
                let ghost took = es.take(jj);
                assert(es.take(jj + 1) =~= took.push(es[jj]));
                lemma_line_push(took, es[jj], 0);
                lemma_end_push(took, es[jj], 0);
                assert(line@ =~= line_of(es.take(jj + 1), 0));
                lemma_children_push(took, es[jj]);
                let ghost cl = level_entries(lsub, off as int, 0);
                let ghost cr = level_entries(rsub, off as int + left_w(sh) + node_w(sh), 0);
                assert(child_entries(es[jj]) == cl + cr);
                match lsub {
                    Shape::Nil => {
                        assert(cl =~= Seq::<(int, Shape)>::empty());
                    },
                    Shape::Node { .. } => {
                        assert(cl =~= seq![(off as int, lsub)]);
                    },
                }
                match rsub {
                    Shape::Nil => {
                        assert(cr =~= Seq::<(int, Shape)>::empty());
                    },
                    Shape::Node { .. } => {
                        assert(cr =~= seq![(off as int + left_w(sh) + node_w(sh), rsub)]);
                    },
                }
                assert forall|j2: int|
                    0 <= j2 < new_nds@.len() implies #[trigger] entry_ok(
                    children_of(es.take(jj + 1)),
                    j2,
                    new_nds@,
                    new_offs@,
                    new_shp,
                    new_prs,
                    t.nodes@,
                ) by {
                    let cs = children_of(es.take(jj + 1));
                    assert(cs =~= children_of(took) + (cl + cr));
                    if j2 < children_of(took).len() {
                        assert(entry_ok(
                            children_of(took),
                            j2,
                            onds,
                            ooffs,
                            oshp,
                            oprs,
                            t.nodes@,
                        ));
                        assert(new_nds@[j2] == onds[j2]);
                        assert(new_offs@[j2] == ooffs[j2]);
                        assert(new_shp[j2] == oshp[j2]);
                        assert(new_prs[j2] == oprs[j2]);
                        assert(cs[j2] == children_of(took)[j2]);
                    } else {
                        assert(cs[j2] == (cl + cr)[j2 - children_of(took).len()]);
                    }
                }
            }
        }
        lines.push(line);
        proof {
            assert(es.take(es.len() as int) =~= es);
            lemma_level_step(s, 0, d);
        }
        let tmp_nds = new_nds;
        nds = tmp_nds;
        let tmp_offs = new_offs;
        offs = tmp_offs;
        proof {
            shp = new_shp;
            prs = new_prs;
            d = d + 1;
        }
    }
    proof {
        lemma_level_card(s, 0, d);
    }
    lines
}

impl<'a> Node<'a> {
    /// The node's label, `(key,value)`.
    pub fn node_str(&self) -> (r: String)
        requires
            self.wf(),
        ensures
            r@ == label(self.sub()->Node_key, self.sub()->Node_val),
    {
        let k = self.key();
        let v = self.value();
        label_str(k, v)
    }

    /// The printed width of this node's own label.
    pub fn node_width(&self) -> (r: usize)
        requires
            self.wf(),
        ensures
            r == label(self.sub()->Node_key, self.sub()->Node_val).len(),
    {
        let k = self.key();
        let v = self.value();
        label_width(k, v)
    }

    /// The total printed width of the node's left subtree.
    pub fn left_width(&self) -> (r: usize)
        requires
            self.wf(),
            shape_w(self.sub()) <= WIDTH_CAP,
        ensures
            r == shape_w(*self.sub()->Node_left),
    {
        proof {
            lemma_node_wf(*self);
            lemma_tree_wf(self.tree);
            lemma_repr_at_path(
                self.tree.nodes@,
                self.tree.root,
                None,
                self.tree.shape@,
                self.path@,
            );
            match self.sub() {
                Shape::Nil => {},
                Shape::Node { idx, left, right, .. } => {
                    assert(repr(
                        self.tree.nodes@,
                        self.tree.nodes@[self.idx as int].left,
                        Some(self.idx),
                        *left,
                    ));
                    lemma_shape_w_nonneg(*left);
                    lemma_shape_w_nonneg(*right);
                },
            }
        }
        width_at(
            &self.tree.nodes,
            self.tree.nodes[self.idx].left,
            Ghost(*self.sub()->Node_left),
            Ghost(Some(self.idx)),
        )
    }

    /// The total printed width of the node's right subtree.
    pub fn right_width(&self) -> (r: usize)
        requires
            self.wf(),
            shape_w(self.sub()) <= WIDTH_CAP,
        ensures
            r == shape_w(*self.sub()->Node_right),
    {
        proof {
            lemma_node_wf(*self);
            lemma_tree_wf(self.tree);
            lemma_repr_at_path(
                self.tree.nodes@,
                self.tree.root,
                None,
                self.tree.shape@,
                self.path@,
            );
            match self.sub() {
                Shape::Nil => {},
                Shape::Node { idx, left, right, .. } => {
                    assert(repr(
                        self.tree.nodes@,
                        self.tree.nodes@[self.idx as int].right,
                        Some(self.idx),
                        *right,
                    ));
                    lemma_shape_w_nonneg(*left);
                    lemma_shape_w_nonneg(*right);
                },
            }
        }
        width_at(
            &self.tree.nodes,
            self.tree.nodes[self.idx].right,
            Ghost(*self.sub()->Node_right),
            Ghost(Some(self.idx)),
        )
    }

    /// Write this node's label, and nothing else, to standard output.
    pub fn print_node_only(&self)
        requires
            self.wf(),
    {
        let s = self.node_str();
        emit_str(s.as_str());
    }

    /// The rendered lines of the subtree below this node, top level first.
    pub fn render(&self) -> (r: Vec<String>)
        requires
            self.wf(),
            shape_w(self.sub()) <= WIDTH_CAP,
        ensures
            r@.len() == crate::model::levels(self.sub()),
            forall|d: int| 0 <= d < r@.len() ==> (#[trigger] r@[d])@ == line_at(self.sub(), d as nat),
    {
        proof {
            lemma_node_wf(*self);
            lemma_tree_wf(self.tree);
            lemma_repr_at_path(
                self.tree.nodes@,
                self.tree.root,
                None,
                self.tree.shape@,
                self.path@,
            );
        }
        render_at(
            self.tree,
            self.idx,
            Ghost(self.sub()),
            Ghost(
                if self.path@.len() == 0 {
                    None
                } else {
                    Some(sub_at(self.tree.shape@, self.path@.drop_last())->Node_idx)
                },
            ),
        )
    }

    /// Write the subtree's rendering to standard output, one line per level.
    pub fn print(&self)
        requires
            self.wf(),
            shape_w(self.sub()) <= WIDTH_CAP,
    {
        let lines = self.render();
        let mut i: usize = 0;
        while i < lines.len()
            decreases lines.len() - i,
        {
            emit_line(lines[i].as_str());
            i = i + 1;
        }
    }
}

impl BinarySearchTree {
    /// The rendered lines of the whole tree: one string per level, or the
    /// fixed `Empty tree` indicator alone when there is no root.
    pub fn render_lines(&self) -> (r: Vec<String>)
        requires
            self.wf(),
            shape_w(self.model()) <= WIDTH_CAP,
        ensures
            self.model() is Nil ==> r@.len() == 1 && r@[0]@ == "Empty tree"@,
            self.model() is Node ==> r@.len() == crate::model::levels(self.model()) && forall|
                d: int,
            |
                0 <= d < r@.len() ==> (#[trigger] r@[d])@ == line_at(self.model(), d as nat),
    {
        proof {
            lemma_tree_wf(self);
        }
        match self.root {
            None => {
                proof {
                    match self.shape@ {
                        Shape::Nil => {},
                        Shape::Node { .. } => {
                            assert(false);
                        },
                    }
                }
                let mut v: Vec<String> = Vec::new();
                v.push(String::from_str("Empty tree"));
                v
            },
            Some(ri) => {
                proof {
                    match self.shape@ {
                        Shape::Nil => {
                            assert(false);
                        },
                        Shape::Node { .. } => {},
                    }
                }
                render_at(self, ri, Ghost(self.shape@), Ghost(None))
            },
        }
    }
}

/// Rendering a tree as ASCII art on standard output.
pub trait PrintableTree: TreeSpec {
    /// Write the tree's rendering to standard output, level by level; an
    /// empty tree prints the fixed `Empty tree` line and nothing else.
    fn print(&self)
        requires
            self.wf(),
            shape_w(self.model()) <= WIDTH_CAP,
    ;
}

impl PrintableTree for BinarySearchTree {
    fn print(&self) {
        let lines = self.render_lines();
        let mut i: usize = 0;
        while i < lines.len()
            decreases lines.len() - i,
        {
            emit_line(lines[i].as_str());
            i = i + 1;
        }
    }
}

} // verus!
