//! Structural operations on behavior trees: subtrees by pre-order position,
//! subtree replacement, depth limits and crossover.
use crate::components::behavior_tree::{
    count_from, count_nodes, depth_from, inverted, node_count, selector_result, sequence_result, tick_result,
    tree_depth, BtShape, BtStatus, LeafOutcome,
};
use crate::engine::rng::gen_index;
use rand_chacha::ChaCha8Rng;
use vstd::prelude::*;

verus! {

/// Maximum allowed tree depth.
pub const MAX_DEPTH: usize = 8;

/// Two trees have the same structure and the same leaves.
pub open spec fn same_shape(a: BtShape, b: BtShape) -> bool
    decreases a, 0nat,
{
    match a {
        BtShape::Sequence(x) => match b {
            BtShape::Sequence(y) => x@.len() == y@.len() && same_from(x@, y@, 0),
            _ => false,
        },
        BtShape::Selector(x) => match b {
            BtShape::Selector(y) => x@.len() == y@.len() && same_from(x@, y@, 0),
            _ => false,
        },
        BtShape::Inverter(c) => match b {
            BtShape::Inverter(d) => same_shape(*c, *d),
            _ => false,
        },
        BtShape::AlwaysSucceed(c) => match b {
            BtShape::AlwaysSucceed(d) => same_shape(*c, *d),
            _ => false,
        },
        BtShape::Leaf(i) => b == BtShape::Leaf(i),
    }
}

/// The children from `i` on have the same shapes in both lists.
pub open spec fn same_from(x: Seq<BtShape>, y: Seq<BtShape>, i: int) -> bool
    decreases x, x.len() - i,
{
    if 0 <= i < x.len() {
        same_shape(x[i], y[i]) && same_from(x, y, i + 1)
    } else {
        true
    }
}

/// A copy of a list of trees.
fn copy_children(ch: &Vec<BtShape>) -> (r: Vec<BtShape>)
    ensures
        r@.len() == ch@.len(),
        same_from(ch@, r@, 0),
    decreases ch, 1nat,
{
    let n = ch.len();
    let mut out: Vec<BtShape> = Vec::new();
    for i in 0..n
        invariant
            n == ch@.len(),
            out@.len() == i,
            forall|j: int| 0 <= j < i ==> #[trigger] same_shape(ch@[j], out@[j]),
    {
        proof {
            assert(decreases_to!(ch => ch@[i as int]));
        }
        let c = copy_shape(&ch[i]);
        out.push(c);
    }
    proof {
        lemma_same_from_pointwise(ch@, out@, 0);
    }
    out
}

proof fn lemma_same_from_pointwise(x: Seq<BtShape>, y: Seq<BtShape>, i: int)
    requires
        0 <= i <= x.len(),
        x.len() == y.len(),
        forall|j: int| i <= j < x.len() ==> #[trigger] same_shape(x[j], y[j]),
    ensures
        same_from(x, y, i),
    decreases x.len() - i,
{
    if i < x.len() {
        assert(same_shape(x[i], y[i]));
        lemma_same_from_pointwise(x, y, i + 1);
    }
}

/// A copy of a tree.
pub fn copy_shape(node: &BtShape) -> (r: BtShape)
    ensures
        same_shape(*node, r),
    decreases node, 0nat,
{
    match node {
        BtShape::Sequence(children) => {
            proof {
                assert(decreases_to!(*node => *children));
            }
            BtShape::Sequence(copy_children(children))
        },
        BtShape::Selector(children) => {
            proof {
                assert(decreases_to!(*node => *children));
            }
            BtShape::Selector(copy_children(children))
        },
        BtShape::Inverter(child) => BtShape::Inverter(Box::new(copy_shape(child))),
        BtShape::AlwaysSucceed(child) => BtShape::AlwaysSucceed(Box::new(copy_shape(child))),
        BtShape::Leaf(i) => BtShape::Leaf(*i),
    }
}



/// The subtree at pre-order position `t` (the root is 0, then each child's
/// subtree in order), if the tree has that many nodes.
pub open spec fn subtree_at(node: BtShape, t: int) -> Option<BtShape>
    decreases node, 0nat,
{
    if t == 0 {
        Some(node)
    } else if t < 0 {
        None
    } else {
        match node {
            BtShape::Sequence(ch) => subtree_in(ch@, 0, t - 1),
            BtShape::Selector(ch) => subtree_in(ch@, 0, t - 1),
            BtShape::Inverter(c) => subtree_at(*c, t - 1),
            BtShape::AlwaysSucceed(c) => subtree_at(*c, t - 1),
            BtShape::Leaf(_) => None,
        }
    }
}

/// The subtree at pre-order position `t` among the children from `i` on.
pub open spec fn subtree_in(ch: Seq<BtShape>, i: int, t: int) -> Option<BtShape>
    decreases ch, ch.len() - i,
{
    if 0 <= i < ch.len() {
        if t < count_nodes(ch[i]) {
            subtree_at(ch[i], t)
        } else {
            subtree_in(ch, i + 1, t - count_nodes(ch[i]))
        }
    } else {
        None
    }
}

/// A copy of the subtree at pre-order position `target`; there is one
/// exactly when `target` is below the tree's node count.
pub fn get_subtree(node: &BtShape, target: usize) -> (r: Option<BtShape>)
    requires
        count_nodes(*node) <= usize::MAX,
    ensures
        match r {
            Some(s) => subtree_at(*node, target as int) matches Some(t) && same_shape(t, s),
            None => subtree_at(*node, target as int) is None,
        },
        r is Some <==> target < count_nodes(*node),
{
    let r = find_subtree(node, target);
    proof {
        law_positions_are_below_count(*node, target as int);
    }
    r
}

/// A copy of the subtree at pre-order position `target`, if any.
fn find_subtree(node: &BtShape, target: usize) -> (r: Option<BtShape>)
    requires
        count_nodes(*node) <= usize::MAX,
    ensures
        match r {
            Some(s) => subtree_at(*node, target as int) matches Some(t) && same_shape(t, s),
            None => subtree_at(*node, target as int) is None,
        },
    decreases node,
{
    if target == 0 {
        return Some(copy_shape(node));
    }
    match node {
        BtShape::Sequence(children) | BtShape::Selector(children) => {
            let mut rel: usize = target - 1;
            let mut i: usize = 0;
            while i < children.len()
                invariant
                    i <= children@.len(),
                    subtree_in(children@, i as int, rel as int) == subtree_at(*node, target as int),
                    count_nodes(*node) <= usize::MAX,
                    1 + count_from(children@, 0) == count_nodes(*node),
                    *node == BtShape::Sequence(*children) || *node == BtShape::Selector(*children),
                decreases children@.len() - i,
            {
                proof {
                    assert(decreases_to!(*node => children@[i as int]));
                    lemma_count_from_bound(children@, 0, i as int);
                }
                let c = node_count(&children[i]);
                if rel < c {
                    return find_subtree(&children[i], rel);
                }
                rel = rel - c;
                i = i + 1;
            }
            None
        },
        BtShape::Inverter(child) | BtShape::AlwaysSucceed(child) => find_subtree(child, target - 1),
        BtShape::Leaf(_) => None,
    }
}

proof fn lemma_count_from_bound(ch: Seq<BtShape>, i: int, j: int)
    requires
        0 <= i <= j < ch.len(),
    ensures
        count_nodes(ch[j]) <= count_from(ch, i),
        count_from(ch, j + 1) <= count_from(ch, i),
    decreases j - i,
{
    if i < j {
        lemma_count_from_bound(ch, i + 1, j);
    }
}



/// `res` is `node` with the subtree at pre-order position `t` replaced by
/// `repl` (a copy of `node` when it has no such position).
pub open spec fn replaced_at(node: BtShape, t: int, repl: BtShape, res: BtShape) -> bool
    decreases node, 0nat,
{
    if t == 0 {
        same_shape(repl, res)
    } else if t < 0 || t >= count_nodes(node) {
        same_shape(node, res)
    } else {
        match node {
            BtShape::Sequence(ch) => match res {
                BtShape::Sequence(ch2) => ch@.len() == ch2@.len() && replaced_from(ch@, ch2@, 0, t - 1, repl),
                _ => false,
            },
            BtShape::Selector(ch) => match res {
                BtShape::Selector(ch2) => ch@.len() == ch2@.len() && replaced_from(ch@, ch2@, 0, t - 1, repl),
                _ => false,
            },
            BtShape::Inverter(c) => match res {
                BtShape::Inverter(c2) => replaced_at(*c, t - 1, repl, *c2),
                _ => false,
            },
            BtShape::AlwaysSucceed(c) => match res {
                BtShape::AlwaysSucceed(c2) => replaced_at(*c, t - 1, repl, *c2),
                _ => false,
            },
            BtShape::Leaf(_) => false,
        }
    }
}

/// The children from `i` on of `y` are those of `x` with the subtree at
/// position `t` (counted from child `i`) replaced.
pub open spec fn replaced_from(x: Seq<BtShape>, y: Seq<BtShape>, i: int, t: int, repl: BtShape) -> bool
    decreases x, x.len() - i,
{
    if 0 <= i < x.len() {
        replaced_at(x[i], t, repl, y[i]) && replaced_from(x, y, i + 1, t - count_nodes(x[i]), repl)
    } else {
        true
    }
}

proof fn lemma_replaced_from_pointwise(x: Seq<BtShape>, y: Seq<BtShape>, i: int, t: int, repl: BtShape)
    requires
        0 <= i <= x.len(),
        x.len() == y.len(),
        forall|j: int|
            i <= j < x.len() ==> #[trigger] replaced_at(
                x[j],
                t - (count_from(x, i) - count_from(x, j)),
                repl,
                y[j],
            ),
    ensures
        replaced_from(x, y, i, t, repl),
    decreases x.len() - i,
{
    if i < x.len() {
        assert(replaced_at(x[i], t - (count_from(x, i) - count_from(x, i)), repl, y[i]));
        assert forall|j: int| i + 1 <= j < x.len() implies #[trigger] replaced_at(
            x[j],
            (t - count_nodes(x[i])) - (count_from(x, i + 1) - count_from(x, j)),
            repl,
            y[j],
        ) by {
            assert(replaced_at(x[j], t - (count_from(x, i) - count_from(x, j)), repl, y[j]));
        }
        lemma_replaced_from_pointwise(x, y, i + 1, t - count_nodes(x[i]), repl);
    }
}

/// The children with the subtree at position `t` (counted from the first
/// child) replaced.
fn replace_in_children(ch: &Vec<BtShape>, t: usize, repl: &BtShape) -> (r: Vec<BtShape>)
    requires
        count_from(ch@, 0) <= usize::MAX,
    ensures
        r@.len() == ch@.len(),
        replaced_from(ch@, r@, 0, t as int, *repl),
    decreases ch, 1nat,
{
    let n = ch.len();
    let mut out: Vec<BtShape> = Vec::new();
    let mut rel: usize = t;
    let mut passed = false;
    for i in 0..n
        invariant
            n == ch@.len(),
            out@.len() == i,
            count_from(ch@, 0) <= usize::MAX,
            passed <==> t - (count_from(ch@, 0) - count_from(ch@, i as int)) < 0,
            !passed ==> rel == t - (count_from(ch@, 0) - count_from(ch@, i as int)),
            forall|j: int|
                0 <= j < i ==> #[trigger] replaced_at(
                    ch@[j],
                    t - (count_from(ch@, 0) - count_from(ch@, j)),
                    *repl,
                    out@[j],
                ),
    {
        proof {
            assert(decreases_to!(ch => ch@[i as int]));
            lemma_count_from_bound(ch@, 0, i as int);
        }
        let ghost ti: int = t - (count_from(ch@, 0) - count_from(ch@, i as int));
        let c = node_count(&ch[i]);
        if passed {
            let copy = copy_shape(&ch[i]);
            out.push(copy);
        } else if rel < c {
            let replaced = replace_subtree(&ch[i], rel, repl);
            out.push(replaced);
            passed = true;
        } else {
            let copy = copy_shape(&ch[i]);
            out.push(copy);
            rel = rel - c;
        }
        proof {
            assert(out@[i as int] == out@.last());
            assert(replaced_at(ch@[i as int], ti, *repl, out@[i as int]));
        }
    }
    proof {
        lemma_replaced_from_pointwise(ch@, out@, 0, t as int, *repl);
    }
    out
}

/// `node` with the subtree at pre-order position `target` replaced by a
/// copy of `replacement` (a copy of `node` when it has no such position).
pub fn replace_subtree(node: &BtShape, target: usize, replacement: &BtShape) -> (r: BtShape)
    requires
        count_nodes(*node) <= usize::MAX,
    ensures
        replaced_at(*node, target as int, *replacement, r),
    decreases node, 0nat,
{
    if target == 0 {
        return copy_shape(replacement);
    }
    let total = node_count(node);
    if target >= total {
        return copy_shape(node);
    }
    match node {
        BtShape::Sequence(children) => {
            proof {
                assert(decreases_to!(*node => *children));
            }
            BtShape::Sequence(replace_in_children(children, target - 1, replacement))
        },
        BtShape::Selector(children) => {
            proof {
                assert(decreases_to!(*node => *children));
            }
            BtShape::Selector(replace_in_children(children, target - 1, replacement))
        },
        BtShape::Inverter(child) => BtShape::Inverter(Box::new(replace_subtree(child, target - 1, replacement))),
        BtShape::AlwaysSucceed(child) => BtShape::AlwaysSucceed(
            Box::new(replace_subtree(child, target - 1, replacement)),
        ),
        BtShape::Leaf(i) => BtShape::Leaf(*i),
    }
}



proof fn lemma_depth_from_at_most(ch: Seq<BtShape>, i: int, limit: int)
    requires
        0 <= i <= ch.len(),
        0 <= limit,
        forall|j: int| i <= j < ch.len() ==> #[trigger] tree_depth(ch[j]) <= limit,
    ensures
        depth_from(ch, i) <= limit,
    decreases ch.len() - i,
{
    if i < ch.len() {
        assert(tree_depth(ch[i]) <= limit);
        lemma_depth_from_at_most(ch, i + 1, limit);
    }
}

proof fn lemma_depth_from_at_least(ch: Seq<BtShape>, i: int, j: int)
    requires
        0 <= i <= j < ch.len(),
    ensures
        tree_depth(ch[j]) <= depth_from(ch, i),
    decreases j - i,
{
    if i < j {
        lemma_depth_from_at_least(ch, i + 1, j);
    }
}

/// Whether some child is deeper than `limit`.
fn any_deeper(ch: &Vec<BtShape>, limit: usize) -> (r: bool)
    ensures
        r == (depth_from(ch@, 0) > limit),
    decreases ch, 1nat,
{
    let mut i: usize = 0;
    while i < ch.len()
        invariant
            i <= ch@.len(),
            forall|j: int| 0 <= j < i ==> #[trigger] tree_depth(ch@[j]) <= limit,
        decreases ch@.len() - i,
    {
        proof {
            assert(decreases_to!(ch => ch@[i as int]));
        }
        if deeper_than(&ch[i], limit) {
            proof {
                lemma_depth_from_at_least(ch@, 0, i as int);
            }
            return true;
        }
        i = i + 1;
    }
    proof {
        lemma_depth_from_at_most(ch@, 0, limit as int);
    }
    false
}

/// Whether a tree is deeper than `limit`.
fn deeper_than(node: &BtShape, limit: usize) -> (r: bool)
    ensures
        r == (tree_depth(*node) > limit),
    decreases node, 0nat,
{
    if limit == 0 {
        return true;
    }
    match node {
        BtShape::Sequence(children) => {
            proof {
                assert(decreases_to!(*node => *children));
            }
            any_deeper(children, limit - 1)
        },
        BtShape::Selector(children) => {
            proof {
                assert(decreases_to!(*node => *children));
            }
            any_deeper(children, limit - 1)
        },
        BtShape::Inverter(child) | BtShape::AlwaysSucceed(child) => deeper_than(child, limit - 1),
        BtShape::Leaf(_) => false,
    }
}

/// Whether a tree respects the depth limit.
pub fn within_depth_limit(node: &BtShape) -> (r: bool)
    ensures
        r == (tree_depth(*node) <= MAX_DEPTH),
{
    !deeper_than(node, MAX_DEPTH)
}

/// `res` is the offspring of `a` and `b` for the insertion position `ip` in
/// `a` and the donor position `dp` in `b`: `a` with its subtree at `ip`
/// replaced by `b`'s subtree at `dp`, unless that exceeds the depth limit,
/// and a copy of `a` then or when `b` has no position `dp`.
pub open spec fn crossed(a: BtShape, b: BtShape, ip: int, dp: int, res: BtShape) -> bool {
    match subtree_at(b, dp) {
        None => same_shape(a, res),
        Some(s) => exists|d: BtShape, off: BtShape|
            #![trigger replaced_at(a, ip, d, off)]
            {
                &&& same_shape(s, d)
                &&& replaced_at(a, ip, d, off)
                &&& if tree_depth(off) > MAX_DEPTH {
                    same_shape(a, res)
                } else {
                    res == off
                }
            },
    }
}

/// The offspring of subtree crossover at the given positions.
pub fn crossover_at(parent_a: &BtShape, parent_b: &BtShape, insert_point: usize, donor_point: usize) -> (r: BtShape)
    requires
        count_nodes(*parent_a) <= usize::MAX,
        count_nodes(*parent_b) <= usize::MAX,
    ensures
        crossed(*parent_a, *parent_b, insert_point as int, donor_point as int, r),
{
    let donor = match get_subtree(parent_b, donor_point) {
        Some(s) => s,
        None => return copy_shape(parent_a),
    };
    let offspring = replace_subtree(parent_a, insert_point, &donor);
    if deeper_than(&offspring, MAX_DEPTH) {
        let r = copy_shape(parent_a);
        assert(replaced_at(*parent_a, insert_point as int, donor, offspring));
        r
    } else {
        assert(replaced_at(*parent_a, insert_point as int, donor, offspring));
        offspring
    }
}

/// Subtree crossover: a random subtree of `parent_b` inserted at a random
/// position of `parent_a`; a copy of `parent_a` if the result exceeds the
/// depth limit.
pub fn crossover(parent_a: &BtShape, parent_b: &BtShape, rng: &mut ChaCha8Rng) -> (r: BtShape)
    requires
        count_nodes(*parent_a) <= usize::MAX,
        count_nodes(*parent_b) <= usize::MAX,
    ensures
        exists|ip: int, dp: int|
            0 <= ip < count_nodes(*parent_a) && 0 <= dp < count_nodes(*parent_b) && #[trigger] crossed(
                *parent_a,
                *parent_b,
                ip,
                dp,
                r,
            ),
{
    let count_a = node_count(parent_a);
    let count_b = node_count(parent_b);
    proof {
        lemma_count_positive(*parent_a);
        lemma_count_positive(*parent_b);
    }
    let insert_point = gen_index(rng, count_a);
    let donor_point = gen_index(rng, count_b);
    let r = crossover_at(parent_a, parent_b, insert_point, donor_point);
    assert(crossed(*parent_a, *parent_b, insert_point as int, donor_point as int, r));
    r
}

// ---------------------------------------------------------------------------
// Structural mutation
// ---------------------------------------------------------------------------

/// A structural change at one node of a tree, with the choices it needs.
#[derive(Debug, Clone, Copy, PartialEq, Eq, Structural)]
pub enum StructuralOp {
    /// Wrap the node, with the leaf `sibling` after it, in a Sequence (when
    /// `sequence`) or a Selector.
    Insert { sibling: usize, sequence: bool },
    /// Replace a composite by its child at `child`, a decorator by its
    /// child; a leaf or an empty composite stays.
    Delete { child: usize },
    /// Replace a leaf by the leaf `leaf`; a Sequence becomes a Selector and
    /// back, an Inverter an AlwaysSucceed and back, children kept.
    Replace { leaf: usize },
}

/// Whether the op's choices fit the node: a deletion in a non-empty
/// composite names one of its children.
pub open spec fn op_fits(node: BtShape, op: StructuralOp) -> bool {
    match op {
        StructuralOp::Delete { child } => match node {
            BtShape::Sequence(ch) => ch@.len() > 0 ==> child < ch@.len(),
            BtShape::Selector(ch) => ch@.len() > 0 ==> child < ch@.len(),
            _ => true,
        },
        _ => true,
    }
}

/// `res` is `node` changed by `op`.
pub open spec fn op_applied(node: BtShape, op: StructuralOp, res: BtShape) -> bool {
    match op {
        StructuralOp::Insert { sibling, sequence } => match res {
            BtShape::Sequence(ch) => sequence && ch@.len() == 2 && same_shape(node, ch@[0]) && ch@[1]
                == BtShape::Leaf(sibling),
            BtShape::Selector(ch) => !sequence && ch@.len() == 2 && same_shape(node, ch@[0]) && ch@[1]
                == BtShape::Leaf(sibling),
            _ => false,
        },
        StructuralOp::Delete { child } => match node {
            BtShape::Sequence(ch) => if ch@.len() > 0 {
                same_shape(ch@[child as int], res)
            } else {
                same_shape(node, res)
            },
            BtShape::Selector(ch) => if ch@.len() > 0 {
                same_shape(ch@[child as int], res)
            } else {
                same_shape(node, res)
            },
            BtShape::Inverter(c) => same_shape(*c, res),
            BtShape::AlwaysSucceed(c) => same_shape(*c, res),
            BtShape::Leaf(_) => same_shape(node, res),
        },
        StructuralOp::Replace { leaf } => match node {
            BtShape::Sequence(ch) => match res {
                BtShape::Selector(ch2) => ch@.len() == ch2@.len() && same_from(ch@, ch2@, 0),
                _ => false,
            },
            BtShape::Selector(ch) => match res {
                BtShape::Sequence(ch2) => ch@.len() == ch2@.len() && same_from(ch@, ch2@, 0),
                _ => false,
            },
            BtShape::Inverter(c) => match res {
                BtShape::AlwaysSucceed(c2) => same_shape(*c, *c2),
                _ => false,
            },
            BtShape::AlwaysSucceed(c) => match res {
                BtShape::Inverter(c2) => same_shape(*c, *c2),
                _ => false,
            },
            BtShape::Leaf(_) => res == BtShape::Leaf(leaf),
        },
    }
}

/// Law: an insertion wraps the node, followed by the new leaf, in a
/// Sequence exactly when a sequence is asked for, and in a Selector
/// otherwise.
pub proof fn law_insert_wraps_as_asked(node: BtShape, sibling: usize, sequence: bool, res: BtShape)
    requires
        op_applied(node, StructuralOp::Insert { sibling, sequence }, res),
    ensures
        res is Sequence <==> sequence,
        res is Selector <==> !sequence,
        match res {
            BtShape::Sequence(ch) => ch@.len() == 2 && same_shape(node, ch@[0]) && ch@[1] == BtShape::Leaf(
                sibling,
            ),
            BtShape::Selector(ch) => ch@.len() == 2 && same_shape(node, ch@[0]) && ch@[1] == BtShape::Leaf(
                sibling,
            ),
            _ => false,
        },
{
}

/// Apply a structural change to a node.
pub fn apply_structural_op(node: &BtShape, op: StructuralOp) -> (r: BtShape)
    requires
        op_fits(*node, op),
    ensures
        op_applied(*node, op, r),
{
    match op {
        StructuralOp::Insert { sibling, sequence } => {
            let children = vec![copy_shape(node), BtShape::Leaf(sibling)];
            if sequence {
                BtShape::Sequence(children)
            } else {
                BtShape::Selector(children)
            }
        },
        StructuralOp::Delete { child } => match node {
            BtShape::Sequence(children) | BtShape::Selector(children) => {
                if children.len() > 0 {
                    copy_shape(&children[child])
                } else {
                    copy_shape(node)
                }
            },
            BtShape::Inverter(c) | BtShape::AlwaysSucceed(c) => copy_shape(c),
            BtShape::Leaf(_) => copy_shape(node),
        },
        StructuralOp::Replace { leaf } => match node {
            BtShape::Sequence(children) => BtShape::Selector(copy_children(children)),
            BtShape::Selector(children) => BtShape::Sequence(copy_children(children)),
            BtShape::Inverter(c) => BtShape::AlwaysSucceed(Box::new(copy_shape(c))),
            BtShape::AlwaysSucceed(c) => BtShape::Inverter(Box::new(copy_shape(c))),
            BtShape::Leaf(_) => BtShape::Leaf(leaf),
        },
    }
}

/// `res` is `node` after the change `op` at pre-order position `t`: the
/// subtree there changed and put back, unless that exceeds the depth limit;
/// a copy of `node` then, or when it has no position `t`.
pub open spec fn mutated(node: BtShape, t: int, op: StructuralOp, res: BtShape) -> bool {
    match subtree_at(node, t) {
        None => same_shape(node, res),
        Some(s) => exists|c: BtShape, off: BtShape|
            #![trigger replaced_at(node, t, c, off)]
            {
                &&& op_applied(s, op, c)
                &&& replaced_at(node, t, c, off)
                &&& if tree_depth(off) > MAX_DEPTH {
                    same_shape(node, res)
                } else {
                    res == off
                }
            },
    }
}

/// The tree after the structural change `op` at pre-order position
/// `target` (see `mutated`).
pub fn mutate_structure_at(node: &BtShape, target: usize, op: StructuralOp) -> (r: BtShape)
    requires
        count_nodes(*node) <= usize::MAX,
        subtree_at(*node, target as int) matches Some(s) ==> op_fits(s, op),
    ensures
        mutated(*node, target as int, op, r),
{
    let target_node = match get_subtree(node, target) {
        Some(s) => s,
        None => return copy_shape(node),
    };
    proof {
        lemma_op_fits_same_shape(subtree_at(*node, target as int)->0, target_node, op);
    }
    let changed = apply_structural_op(&target_node, op);
    proof {
        lemma_op_applied_same_shape(subtree_at(*node, target as int)->0, target_node, op, changed);
    }
    let result = replace_subtree(node, target, &changed);
    if deeper_than(&result, MAX_DEPTH) {
        let r = copy_shape(node);
        assert(replaced_at(*node, target as int, changed, result));
        r
    } else {
        assert(replaced_at(*node, target as int, changed, result));
        result
    }
}

proof fn lemma_same_from_at(x: Seq<BtShape>, y: Seq<BtShape>, i: int, j: int)
    requires
        0 <= i <= j < x.len(),
        same_from(x, y, i),
    ensures
        same_shape(x[j], y[j]),
    decreases j - i,
{
    if i < j {
        lemma_same_from_at(x, y, i + 1, j);
    }
}

/// A copy of a node fits the same ops as the node.
proof fn lemma_op_fits_same_shape(a: BtShape, b: BtShape, op: StructuralOp)
    requires
        same_shape(a, b),
        op_fits(a, op),
    ensures
        op_fits(b, op),
{
}

/// An op applied to a copy of a node changes it as it would the node.
proof fn lemma_op_applied_same_shape(a: BtShape, b: BtShape, op: StructuralOp, r: BtShape)
    requires
        same_shape(a, b),
        op_fits(a, op),
        op_applied(b, op, r),
    ensures
        op_applied(a, op, r),
{
    match op {
        StructuralOp::Insert { .. } => {
            match r {
                BtShape::Sequence(ch) => lemma_same_shape_trans(a, b, ch@[0]),
                BtShape::Selector(ch) => lemma_same_shape_trans(a, b, ch@[0]),
                _ => {},
            }
        },
        StructuralOp::Delete { child } => {
            match a {
                BtShape::Sequence(x) => {
                    if let BtShape::Sequence(y) = b {
                        if x@.len() > 0 {
                            lemma_same_from_at(x@, y@, 0, child as int);
                            lemma_same_shape_trans(x@[child as int], y@[child as int], r);
                        } else {
                            lemma_same_shape_trans(a, b, r);
                        }
                    }
                },
                BtShape::Selector(x) => {
                    if let BtShape::Selector(y) = b {
                        if x@.len() > 0 {
                            lemma_same_from_at(x@, y@, 0, child as int);
                            lemma_same_shape_trans(x@[child as int], y@[child as int], r);
                        } else {
                            lemma_same_shape_trans(a, b, r);
                        }
                    }
                },
                BtShape::Inverter(x) => {
                    if let BtShape::Inverter(y) = b {
                        lemma_same_shape_trans(*x, *y, r);
                    }
                },
                BtShape::AlwaysSucceed(x) => {
                    if let BtShape::AlwaysSucceed(y) = b {
                        lemma_same_shape_trans(*x, *y, r);
                    }
                },
                BtShape::Leaf(_) => lemma_same_shape_trans(a, b, r),
            }
        },
        StructuralOp::Replace { .. } => {
            match a {
                BtShape::Sequence(x) => {
                    if let BtShape::Sequence(y) = b {
                        if let BtShape::Selector(z) = r {
                            lemma_same_from_trans(x@, y@, z@, 0);
                        }
                    }
                },
                BtShape::Selector(x) => {
                    if let BtShape::Selector(y) = b {
                        if let BtShape::Sequence(z) = r {
                            lemma_same_from_trans(x@, y@, z@, 0);
                        }
                    }
                },
                BtShape::Inverter(x) => {
                    if let BtShape::Inverter(y) = b {
                        if let BtShape::AlwaysSucceed(z) = r {
                            lemma_same_shape_trans(*x, *y, *z);
                        }
                    }
                },
                BtShape::AlwaysSucceed(x) => {
                    if let BtShape::AlwaysSucceed(y) = b {
                        if let BtShape::Inverter(z) = r {
                            lemma_same_shape_trans(*x, *y, *z);
                        }
                    }
                },
                BtShape::Leaf(_) => {},
            }
        },
    }
}

// ---------------------------------------------------------------------------
// Depth-limit enforcement
// ---------------------------------------------------------------------------

/// Every composite of the tree has at least one child.
pub open spec fn composites_nonempty(node: BtShape) -> bool
    decreases node, 0nat,
{
    match node {
        BtShape::Sequence(ch) => ch@.len() > 0 && all_nonempty_from(ch@, 0),
        BtShape::Selector(ch) => ch@.len() > 0 && all_nonempty_from(ch@, 0),
        BtShape::Inverter(c) => composites_nonempty(*c),
        BtShape::AlwaysSucceed(c) => composites_nonempty(*c),
        BtShape::Leaf(_) => true,
    }
}

/// Every composite in the children from `i` on has a child.
pub open spec fn all_nonempty_from(ch: Seq<BtShape>, i: int) -> bool
    decreases ch, ch.len() - i,
{
    if 0 <= i < ch.len() {
        composites_nonempty(ch[i]) && all_nonempty_from(ch, i + 1)
    } else {
        true
    }
}

fn children_nonempty(ch: &Vec<BtShape>) -> (r: bool)
    ensures
        r == all_nonempty_from(ch@, 0),
    decreases ch, 1nat,
{
    let mut i = ch.len();
    let mut ok = true;
    while i > 0
        invariant
            i <= ch@.len(),
            ok == all_nonempty_from(ch@, i as int),
        decreases i,
    {
        i = i - 1;
        proof {
            assert(decreases_to!(ch => ch@[i as int]));
        }
        ok = has_nonempty_composites(&ch[i]) && ok;
    }
    ok
}

fn has_nonempty_composites(node: &BtShape) -> (r: bool)
    ensures
        r == composites_nonempty(*node),
    decreases node, 0nat,
{
    match node {
        BtShape::Sequence(children) => {
            proof {
                assert(decreases_to!(*node => *children));
            }
            children.len() > 0 && children_nonempty(children)
        },
        BtShape::Selector(children) => {
            proof {
                assert(decreases_to!(*node => *children));
            }
            children.len() > 0 && children_nonempty(children)
        },
        BtShape::Inverter(child) | BtShape::AlwaysSucceed(child) => has_nonempty_composites(child),
        BtShape::Leaf(_) => true,
    }
}

/// Whether a tree is structurally sound: within the depth limit, and no
/// composite without children.
pub fn is_valid_shape(node: &BtShape) -> (r: bool)
    ensures
        r == (tree_depth(*node) <= MAX_DEPTH && composites_nonempty(*node)),
{
    within_depth_limit(node) && has_nonempty_composites(node)
}

/// The number of nodes that pruning at depth `d` (the root being at depth
/// 1) replaces by fresh leaves: the composites and decorators at the depth
/// limit.
pub open spec fn cut_count(node: BtShape, d: int) -> nat
    decreases node, 0nat,
{
    if d >= MAX_DEPTH {
        match node {
            BtShape::Leaf(_) => 0,
            _ => 1,
        }
    } else {
        match node {
            BtShape::Sequence(ch) => cut_from(ch@, 0, d + 1),
            BtShape::Selector(ch) => cut_from(ch@, 0, d + 1),
            BtShape::Inverter(c) => cut_count(*c, d + 1),
            BtShape::AlwaysSucceed(c) => cut_count(*c, d + 1),
            BtShape::Leaf(_) => 0,
        }
    }
}

/// The number of replaced nodes in the children from `i` on, at depth `d`.
pub open spec fn cut_from(ch: Seq<BtShape>, i: int, d: int) -> nat
    decreases ch, ch.len() - i,
{
    if 0 <= i < ch.len() {
        cut_count(ch[i], d) + cut_from(ch, i + 1, d)
    } else {
        0
    }
}

/// `res` is `node`, standing at depth `d`, pruned to the depth limit: every
/// composite or decorator at the limit becomes a fresh leaf, numbered from
/// `next` in pre-order; everything else is kept.
pub open spec fn pruned_at(node: BtShape, d: int, next: int, res: BtShape) -> bool
    decreases node, 0nat,
{
    if d >= MAX_DEPTH {
        match node {
            BtShape::Leaf(i) => res == BtShape::Leaf(i),
            _ => res == BtShape::Leaf(next as usize),
        }
    } else {
        match node {
            BtShape::Sequence(ch) => match res {
                BtShape::Sequence(ch2) => ch@.len() == ch2@.len() && pruned_from(ch@, ch2@, 0, d + 1, next),
                _ => false,
            },
            BtShape::Selector(ch) => match res {
                BtShape::Selector(ch2) => ch@.len() == ch2@.len() && pruned_from(ch@, ch2@, 0, d + 1, next),
                _ => false,
            },
            BtShape::Inverter(c) => match res {
                BtShape::Inverter(c2) => pruned_at(*c, d + 1, next, *c2),
                _ => false,
            },
            BtShape::AlwaysSucceed(c) => match res {
                BtShape::AlwaysSucceed(c2) => pruned_at(*c, d + 1, next, *c2),
                _ => false,
            },
            BtShape::Leaf(i) => res == BtShape::Leaf(i),
        }
    }
}

/// The children from `i` on of `y` are those of `x` pruned at depth `d`,
/// fresh leaves numbered from `next`.
pub open spec fn pruned_from(x: Seq<BtShape>, y: Seq<BtShape>, i: int, d: int, next: int) -> bool
    decreases x, x.len() - i,
{
    if 0 <= i < x.len() {
        pruned_at(x[i], d, next, y[i]) && pruned_from(x, y, i + 1, d, next + cut_count(x[i], d))
    } else {
        true
    }
}

proof fn lemma_pruned_from_pointwise(x: Seq<BtShape>, y: Seq<BtShape>, i: int, d: int, next: int)
    requires
        0 <= i <= x.len(),
        x.len() == y.len(),
        forall|j: int|
            i <= j < x.len() ==> #[trigger] pruned_at(x[j], d, next + (cut_from(x, i, d) - cut_from(x, j, d)), y[j]),
    ensures
        pruned_from(x, y, i, d, next),
    decreases x.len() - i,
{
    if i < x.len() {
        assert(pruned_at(x[i], d, next + (cut_from(x, i, d) - cut_from(x, i, d)), y[i]));
        assert forall|j: int| i + 1 <= j < x.len() implies #[trigger] pruned_at(
            x[j],
            d,
            (next + cut_count(x[i], d)) + (cut_from(x, i + 1, d) - cut_from(x, j, d)),
            y[j],
        ) by {
            assert(pruned_at(x[j], d, next + (cut_from(x, i, d) - cut_from(x, j, d)), y[j]));
        }
        lemma_pruned_from_pointwise(x, y, i + 1, d, next + cut_count(x[i], d));
    }
}

proof fn lemma_cut_from_bound(ch: Seq<BtShape>, i: int, j: int, d: int)
    requires
        0 <= i <= j <= ch.len(),
    ensures
        cut_from(ch, j, d) <= cut_from(ch, i, d),
        j < ch.len() ==> cut_count(ch[j], d) + cut_from(ch, j + 1, d) <= cut_from(ch, i, d),
    decreases j - i,
{
    if i < j {
        lemma_cut_from_bound(ch, i + 1, j, d);
    }
}

/// Prune a node standing at depth `d`; returns the pruned node and the
/// number of fresh leaves used.
fn prune_at(node: &BtShape, d: usize, next: usize) -> (r: (BtShape, usize))
    requires
        1 <= d <= MAX_DEPTH,
        next + cut_count(*node, d as int) <= usize::MAX,
    ensures
        pruned_at(*node, d as int, next as int, r.0),
        r.1 == cut_count(*node, d as int),
    decreases node, 0nat,
{
    if d >= MAX_DEPTH {
        return match node {
            BtShape::Leaf(i) => (BtShape::Leaf(*i), 0),
            _ => (BtShape::Leaf(next), 1),
        };
    }
    match node {
        BtShape::Sequence(children) => {
            proof {
                assert(decreases_to!(*node => *children));
            }
            let (c2, used) = prune_children(children, d + 1, next);
            (BtShape::Sequence(c2), used)
        },
        BtShape::Selector(children) => {
            proof {
                assert(decreases_to!(*node => *children));
            }
            let (c2, used) = prune_children(children, d + 1, next);
            (BtShape::Selector(c2), used)
        },
        BtShape::Inverter(child) => {
            let (c2, used) = prune_at(child, d + 1, next);
            (BtShape::Inverter(Box::new(c2)), used)
        },
        BtShape::AlwaysSucceed(child) => {
            let (c2, used) = prune_at(child, d + 1, next);
            (BtShape::AlwaysSucceed(Box::new(c2)), used)
        },
        BtShape::Leaf(i) => (BtShape::Leaf(*i), 0),
    }
}

/// Prune children standing at depth `d`, fresh leaves numbered from `next`.
fn prune_children(ch: &Vec<BtShape>, d: usize, next: usize) -> (r: (Vec<BtShape>, usize))
    requires
        1 <= d <= MAX_DEPTH,
        next + cut_from(ch@, 0, d as int) <= usize::MAX,
    ensures
        r.0@.len() == ch@.len(),
        pruned_from(ch@, r.0@, 0, d as int, next as int),
        r.1 == cut_from(ch@, 0, d as int),
    decreases ch, 1nat,
{
    let n = ch.len();
    let mut out: Vec<BtShape> = Vec::new();
    let mut used: usize = 0;
    for i in 0..n
        invariant
            n == ch@.len(),
            1 <= d <= MAX_DEPTH,
            next + cut_from(ch@, 0, d as int) <= usize::MAX,
            out@.len() == i,
            used == cut_from(ch@, 0, d as int) - cut_from(ch@, i as int, d as int),
            forall|j: int|
                0 <= j < i ==> #[trigger] pruned_at(
                    ch@[j],
                    d as int,
                    next + (cut_from(ch@, 0, d as int) - cut_from(ch@, j, d as int)),
                    out@[j],
                ),
    {
        proof {
            assert(decreases_to!(ch => ch@[i as int]));
            lemma_cut_from_bound(ch@, 0, i as int, d as int);
        }
        let (c, u) = prune_at(&ch[i], d, next + used);
        out.push(c);
        used = used + u;
        proof {
            assert(out@[i as int] == c);
        }
    }
    proof {
        lemma_pruned_from_pointwise(ch@, out@, 0, d as int, next as int);
    }
    (out, used)
}

proof fn lemma_pruned_depth(node: BtShape, d: int, next: int, res: BtShape)
    requires
        1 <= d <= MAX_DEPTH,
        pruned_at(node, d, next, res),
    ensures
        tree_depth(res) <= MAX_DEPTH + 1 - d,
    decreases node, 0nat,
{
    if d < MAX_DEPTH {
        match node {
            BtShape::Sequence(ch) => {
                if let BtShape::Sequence(ch2) = res {
                    assert(decreases_to!(node => ch@));
                    lemma_pruned_from_depth(ch@, ch2@, 0, d + 1, next);
                }
            },
            BtShape::Selector(ch) => {
                if let BtShape::Selector(ch2) = res {
                    assert(decreases_to!(node => ch@));
                    lemma_pruned_from_depth(ch@, ch2@, 0, d + 1, next);
                }
            },
            BtShape::Inverter(c) => {
                if let BtShape::Inverter(c2) = res {
                    lemma_pruned_depth(*c, d + 1, next, *c2);
                }
            },
            BtShape::AlwaysSucceed(c) => {
                if let BtShape::AlwaysSucceed(c2) = res {
                    lemma_pruned_depth(*c, d + 1, next, *c2);
                }
            },
            BtShape::Leaf(_) => {},
        }
    }
}

proof fn lemma_pruned_from_depth(x: Seq<BtShape>, y: Seq<BtShape>, i: int, d: int, next: int)
    requires
        1 <= d <= MAX_DEPTH,
        0 <= i <= x.len(),
        x.len() == y.len(),
        pruned_from(x, y, i, d, next),
    ensures
        depth_from(y, i) <= MAX_DEPTH + 1 - d,
    decreases x, x.len() - i,
{
    if i < x.len() {
        lemma_pruned_depth(x[i], d, next, y[i]);
        lemma_pruned_from_depth(x, y, i + 1, d, next + cut_count(x[i], d));
    }
}

proof fn lemma_shallow_unchanged(node: BtShape, d: int, next: int, res: BtShape)
    requires
        1 <= d <= MAX_DEPTH,
        tree_depth(node) <= MAX_DEPTH + 1 - d,
        composites_nonempty(node),
        pruned_at(node, d, next, res),
    ensures
        cut_count(node, d) == 0,
        same_shape(node, res),
    decreases node, 0nat,
{
    if d >= MAX_DEPTH {
        match node {
            BtShape::Sequence(ch) => {
                lemma_depth_from_at_least(ch@, 0, 0);
                lemma_depth_positive(ch@[0]);
            },
            BtShape::Selector(ch) => {
                lemma_depth_from_at_least(ch@, 0, 0);
                lemma_depth_positive(ch@[0]);
            },
            BtShape::Inverter(c) => lemma_depth_positive(*c),
            BtShape::AlwaysSucceed(c) => lemma_depth_positive(*c),
            BtShape::Leaf(_) => {},
        }
    } else {
        match node {
            BtShape::Sequence(ch) => {
                if let BtShape::Sequence(ch2) = res {
                    assert(decreases_to!(node => ch@));
                    lemma_shallow_unchanged_from(ch@, ch2@, 0, d + 1, next);
                }
            },
            BtShape::Selector(ch) => {
                if let BtShape::Selector(ch2) = res {
                    assert(decreases_to!(node => ch@));
                    lemma_shallow_unchanged_from(ch@, ch2@, 0, d + 1, next);
                }
            },
            BtShape::Inverter(c) => {
                if let BtShape::Inverter(c2) = res {
                    lemma_shallow_unchanged(*c, d + 1, next, *c2);
                }
            },
            BtShape::AlwaysSucceed(c) => {
                if let BtShape::AlwaysSucceed(c2) = res {
                    lemma_shallow_unchanged(*c, d + 1, next, *c2);
                }
            },
            BtShape::Leaf(_) => {},
        }
    }
}

proof fn lemma_shallow_unchanged_from(x: Seq<BtShape>, y: Seq<BtShape>, i: int, d: int, next: int)
    requires
        1 <= d <= MAX_DEPTH,
        0 <= i <= x.len(),
        x.len() == y.len(),
        depth_from(x, i) <= MAX_DEPTH + 1 - d,
        all_nonempty_from(x, i),
        pruned_from(x, y, i, d, next),
    ensures
        cut_from(x, i, d) == 0,
        same_from(x, y, i),
    decreases x, x.len() - i,
{
    if i < x.len() {
        lemma_depth_from_at_least(x, i, i);
        lemma_shallow_unchanged(x[i], d, next, y[i]);
        lemma_shallow_unchanged_from(x, y, i + 1, d, next + cut_count(x[i], d));
    }
}

/// Prune a tree to the depth limit: every composite or decorator at the
/// limit becomes a fresh leaf, numbered from `next_leaf` in pre-order.
/// Returns the pruned tree and the number of fresh leaves used; the result
/// is within the limit, and a sound tree (see `is_valid_shape`) is kept as
/// it is.
pub fn enforce_depth_limit(node: &BtShape, next_leaf: usize) -> (r: (BtShape, usize))
    requires
        next_leaf + cut_count(*node, 1) <= usize::MAX,
    ensures
        pruned_at(*node, 1, next_leaf as int, r.0),
        r.1 == cut_count(*node, 1),
        tree_depth(r.0) <= MAX_DEPTH,
        tree_depth(*node) <= MAX_DEPTH && composites_nonempty(*node) ==> r.1 == 0 && same_shape(*node, r.0),
{
    let r = prune_at(node, 1, next_leaf);
    proof {
        lemma_pruned_depth(*node, 1, next_leaf as int, r.0);
        if tree_depth(*node) <= MAX_DEPTH && composites_nonempty(*node) {
            lemma_shallow_unchanged(*node, 1, next_leaf as int, r.0);
        }
    }
    r
}

proof fn lemma_depth_positive(node: BtShape)
    ensures
        tree_depth(node) >= 1,
{
}

proof fn lemma_count_positive(node: BtShape)
    ensures
        count_nodes(node) >= 1,
{
}

proof fn lemma_same_shape_trans(a: BtShape, b: BtShape, c: BtShape)
    requires
        same_shape(a, b),
        same_shape(b, c),
    ensures
        same_shape(a, c),
    decreases a, 0nat,
{
    match a {
        BtShape::Sequence(x) => {
            if let BtShape::Sequence(y) = b {
                if let BtShape::Sequence(z) = c {
                    assert(decreases_to!(a => x@));
                    lemma_same_from_trans(x@, y@, z@, 0);
                }
            }
        },
        BtShape::Selector(x) => {
            if let BtShape::Selector(y) = b {
                if let BtShape::Selector(z) = c {
                    assert(decreases_to!(a => x@));
                    lemma_same_from_trans(x@, y@, z@, 0);
                }
            }
        },
        BtShape::Inverter(x) => {
            if let BtShape::Inverter(y) = b {
                if let BtShape::Inverter(z) = c {
                    lemma_same_shape_trans(*x, *y, *z);
                }
            }
        },
        BtShape::AlwaysSucceed(x) => {
            if let BtShape::AlwaysSucceed(y) = b {
                if let BtShape::AlwaysSucceed(z) = c {
                    lemma_same_shape_trans(*x, *y, *z);
                }
            }
        },
        BtShape::Leaf(_) => {},
    }
}

proof fn lemma_same_from_trans(x: Seq<BtShape>, y: Seq<BtShape>, z: Seq<BtShape>, i: int)
    requires
        x.len() == y.len(),
        y.len() == z.len(),
        same_from(x, y, i),
        same_from(y, z, i),
    ensures
        same_from(x, z, i),
    decreases x, x.len() - i,
{
    if 0 <= i < x.len() {
        lemma_same_shape_trans(x[i], y[i], z[i]);
        lemma_same_from_trans(x, y, z, i + 1);
    }
}

proof fn lemma_position_exists(node: BtShape, t: int)
    requires
        0 <= t < count_nodes(node),
    ensures
        subtree_at(node, t) is Some,
    decreases node, 0nat,
{
    if t > 0 {
        match node {
            BtShape::Sequence(ch) => {
                assert(decreases_to!(node => ch@));
                lemma_position_exists_in(ch@, 0, t - 1);
            },
            BtShape::Selector(ch) => {
                assert(decreases_to!(node => ch@));
                lemma_position_exists_in(ch@, 0, t - 1);
            },
            BtShape::Inverter(c) => lemma_position_exists(*c, t - 1),
            BtShape::AlwaysSucceed(c) => lemma_position_exists(*c, t - 1),
            BtShape::Leaf(_) => {},
        }
    }
}

proof fn lemma_position_exists_in(ch: Seq<BtShape>, i: int, t: int)
    requires
        0 <= i,
        0 <= t < count_from(ch, i),
    ensures
        subtree_in(ch, i, t) is Some,
    decreases ch, ch.len() - i,
{
    if i < ch.len() {
        if t < count_nodes(ch[i]) {
            lemma_position_exists(ch[i], t);
        } else {
            lemma_position_exists_in(ch, i + 1, t - count_nodes(ch[i]));
        }
    }
}

/// A tree has a subtree at a position only when the position is below its
/// node count.
proof fn lemma_position_in_range(node: BtShape, t: int)
    requires
        subtree_at(node, t) is Some,
    ensures
        0 <= t < count_nodes(node),
    decreases node, 0nat,
{
    if t > 0 {
        match node {
            BtShape::Sequence(ch) => {
                assert(decreases_to!(node => ch@));
                lemma_position_in_range_in(ch@, 0, t - 1);
            },
            BtShape::Selector(ch) => {
                assert(decreases_to!(node => ch@));
                lemma_position_in_range_in(ch@, 0, t - 1);
            },
            BtShape::Inverter(c) => lemma_position_in_range(*c, t - 1),
            BtShape::AlwaysSucceed(c) => lemma_position_in_range(*c, t - 1),
            BtShape::Leaf(_) => {},
        }
    }
}

proof fn lemma_position_in_range_in(ch: Seq<BtShape>, i: int, t: int)
    requires
        0 <= i,
        subtree_in(ch, i, t) is Some,
    ensures
        0 <= t < count_from(ch, i),
    decreases ch, ch.len() - i,
{
    if i < ch.len() {
        if t < count_nodes(ch[i]) {
            lemma_position_in_range(ch[i], t);
        } else {
            lemma_position_in_range_in(ch, i + 1, t - count_nodes(ch[i]));
        }
    }
}

/// Law: the positions of a tree are exactly those below its node count:
/// every one of them has a subtree, and no other does.
pub proof fn law_positions_are_below_count(node: BtShape, t: int)
    ensures
        subtree_at(node, t) is Some <==> 0 <= t < count_nodes(node),
{
    if 0 <= t < count_nodes(node) {
        lemma_position_exists(node, t);
    }
    if subtree_at(node, t) is Some {
        lemma_position_in_range(node, t);
    }
}

proof fn lemma_roundtrip(node: BtShape, t: int, s: BtShape, r: BtShape)
    requires
        0 <= t < count_nodes(node),
        subtree_at(node, t) matches Some(s0) && same_shape(s0, s),
        replaced_at(node, t, s, r),
    ensures
        same_shape(node, r),
    decreases node, 0nat,
{
    if t == 0 {
        lemma_same_shape_trans(node, s, r);
    } else {
        match node {
            BtShape::Sequence(ch) => {
                if let BtShape::Sequence(ch2) = r {
                    assert(decreases_to!(node => ch@));
                    lemma_roundtrip_from(ch@, ch2@, 0, t - 1, s);
                }
            },
            BtShape::Selector(ch) => {
                if let BtShape::Selector(ch2) = r {
                    assert(decreases_to!(node => ch@));
                    lemma_roundtrip_from(ch@, ch2@, 0, t - 1, s);
                }
            },
            BtShape::Inverter(c) => {
                if let BtShape::Inverter(c2) = r {
                    lemma_roundtrip(*c, t - 1, s, *c2);
                }
            },
            BtShape::AlwaysSucceed(c) => {
                if let BtShape::AlwaysSucceed(c2) = r {
                    lemma_roundtrip(*c, t - 1, s, *c2);
                }
            },
            BtShape::Leaf(_) => {},
        }
    }
}

proof fn lemma_roundtrip_from(x: Seq<BtShape>, y: Seq<BtShape>, i: int, t: int, s: BtShape)
    requires
        0 <= i <= x.len(),
        x.len() == y.len(),
        replaced_from(x, y, i, t, s),
        0 <= t < count_from(x, i) ==> (subtree_in(x, i, t) matches Some(s0) && same_shape(s0, s)),
    ensures
        same_from(x, y, i),
    decreases x, x.len() - i,
{
    if i < x.len() {
        lemma_count_positive(x[i]);
        assert(replaced_at(x[i], t, s, y[i]));
        if 0 <= t < count_nodes(x[i]) {
            lemma_roundtrip(x[i], t, s, y[i]);
        } else {
            assert(same_shape(x[i], y[i]));
        }
        lemma_roundtrip_from(x, y, i + 1, t - count_nodes(x[i]), s);
    }
}

/// Putting back, at a position of a tree, a copy of the subtree found there
/// gives the tree back: for every position `t` of `node`, `get_subtree`
/// returns a subtree, and `replace_subtree` with it at `t` yields a tree of
/// the same structure and leaves as `node`.
pub proof fn law_replace_with_own_subtree(node: BtShape, t: int, s: BtShape, r: BtShape)
    requires
        0 <= t < count_nodes(node),
        forall|s0: BtShape| subtree_at(node, t) == Some(s0) ==> same_shape(s0, s),
        replaced_at(node, t, s, r),
    ensures
        subtree_at(node, t) is Some,
        same_shape(node, r),
{
    lemma_position_exists(node, t);
    lemma_roundtrip(node, t, s, r);
}


// ---------------------------------------------------------------------------
// Simplification
// ---------------------------------------------------------------------------

/// A behavior tree as a mathematical value.
pub enum BtView {
    Sequence(Seq<BtView>),
    Selector(Seq<BtView>),
    Inverter(Box<BtView>),
    AlwaysSucceed(Box<BtView>),
    Leaf(usize),
}

/// The value of a tree.
pub open spec fn view_of(node: BtShape) -> BtView
    decreases node,
{
    match node {
        BtShape::Sequence(ch) => BtView::Sequence(views_of(ch@)),
        BtShape::Selector(ch) => BtView::Selector(views_of(ch@)),
        BtShape::Inverter(c) => BtView::Inverter(Box::new(view_of(*c))),
        BtShape::AlwaysSucceed(c) => BtView::AlwaysSucceed(Box::new(view_of(*c))),
        BtShape::Leaf(i) => BtView::Leaf(i),
    }
}

/// The values of a list of trees.
pub open spec fn views_of(s: Seq<BtShape>) -> Seq<BtView>
    decreases s, 0nat,
{
    Seq::new(
        s.len(),
        |i: int|
            if 0 <= i < s.len() {
                view_of(s[i])
            } else {
                BtView::Leaf(0)
            },
    )
}



/// The children of a composite with the children of nested composites of
/// the same kind (sequences when `sequences`, else selectors) spliced in.
pub open spec fn flatten_views(s: Seq<BtView>, sequences: bool) -> Seq<BtView>
    decreases s.len(),
{
    if s.len() == 0 {
        Seq::empty()
    } else {
        let prev = flatten_views(s.drop_last(), sequences);
        match s.last() {
            BtView::Sequence(inner) => if sequences {
                prev + inner
            } else {
                prev.push(s.last())
            },
            BtView::Selector(inner) => if !sequences {
                prev + inner
            } else {
                prev.push(s.last())
            },
            _ => prev.push(s.last()),
        }
    }
}

/// A simplified composite from its flattened children: a `rest` leaf when
/// there are none, the child itself when there is one.
pub open spec fn composite_of(f: Seq<BtView>, sequence: bool, rest: usize) -> BtView {
    if f.len() == 0 {
        BtView::Leaf(rest)
    } else if f.len() == 1 {
        f[0]
    } else if sequence {
        BtView::Sequence(f)
    } else {
        BtView::Selector(f)
    }
}

/// Each of a list of trees simplified.
pub open spec fn simplified_children(ch: Seq<BtView>, rest: usize) -> Seq<BtView>
    decreases ch, 1nat,
{
    Seq::new(
        ch.len(),
        |i: int|
            if 0 <= i < ch.len() {
                simplify_view(ch[i], rest)
            } else {
                BtView::Leaf(0)
            },
    )
}

/// The simplification of a tree: children simplified first; nested
/// composites of the same kind flattened; a composite without children
/// becomes the `rest` leaf and one with a single child that child; a double
/// inversion cancels; a nested AlwaysSucceed collapses.
pub open spec fn simplify_view(v: BtView, rest: usize) -> BtView
    decreases v, 0nat,
{
    match v {
        BtView::Sequence(ch) => composite_of(flatten_views(simplified_children(ch, rest), true), true, rest),
        BtView::Selector(ch) => composite_of(flatten_views(simplified_children(ch, rest), false), false, rest),
        BtView::Inverter(c) => match simplify_view(*c, rest) {
            BtView::Inverter(inner) => *inner,
            other => BtView::Inverter(Box::new(other)),
        },
        BtView::AlwaysSucceed(c) => match simplify_view(*c, rest) {
            BtView::AlwaysSucceed(inner) => BtView::AlwaysSucceed(inner),
            other => BtView::AlwaysSucceed(Box::new(other)),
        },
        BtView::Leaf(i) => BtView::Leaf(i),
    }
}

proof fn lemma_views_push(s: Seq<BtShape>, x: BtShape)
    ensures
        views_of(s.push(x)) == views_of(s).push(view_of(x)),
{
    assert(views_of(s.push(x)) =~= views_of(s).push(view_of(x)));
}

proof fn lemma_views_add(s: Seq<BtShape>, t: Seq<BtShape>)
    ensures
        views_of(s + t) == views_of(s) + views_of(t),
{
    assert(views_of(s + t) =~= views_of(s) + views_of(t));
}

/// Splice the children of nested composites of the same kind into a list.
fn flatten_children(children: Vec<BtShape>, sequences: bool) -> (r: Vec<BtShape>)
    ensures
        views_of(r@) == flatten_views(views_of(children@), sequences),
{
    let ghost orig = children@;
    let mut rest_list = children;
    let mut out: Vec<BtShape> = Vec::new();
    let n = rest_list.len();
    let mut k: usize = 0;
    while k < n
        invariant
            n == orig.len(),
            k <= n,
            rest_list@ == orig.skip(k as int),
            views_of(out@) == flatten_views(views_of(orig.take(k as int)), sequences),
        decreases n - k,
    {
        let c = rest_list.remove(0);
        proof {
            assert(c == orig[k as int]);
            assert(rest_list@ =~= orig.skip(k + 1));
            let t = views_of(orig.take(k + 1));
            assert(t.drop_last() =~= views_of(orig.take(k as int)));
            assert(t.last() == view_of(c));
        }
        let ghost before = out@;
        match c {
            BtShape::Sequence(inner) => {
                if sequences {
                    let mut inner = inner;
                    let ghost inner_seq = inner@;
                    out.append(&mut inner);
                    proof {
                        lemma_views_add(before, inner_seq);
                    }
                } else {
                    out.push(BtShape::Sequence(inner));
                    proof {
                        lemma_views_push(before, out@.last());
                    }
                }
            },
            BtShape::Selector(inner) => {
                if !sequences {
                    let mut inner = inner;
                    let ghost inner_seq = inner@;
                    out.append(&mut inner);
                    proof {
                        lemma_views_add(before, inner_seq);
                    }
                } else {
                    out.push(BtShape::Selector(inner));
                    proof {
                        lemma_views_push(before, out@.last());
                    }
                }
            },
            other => {
                out.push(other);
                proof {
                    lemma_views_push(before, out@.last());
                }
            },
        }
        k = k + 1;
    }
    proof {
        assert(orig.take(n as int) =~= orig);
    }
    out
}

/// The simplified children of a composite, flattened, as a composite.
fn simplify_composite(children: &Vec<BtShape>, sequence: bool, rest: usize) -> (r: BtShape)
    ensures
        view_of(r) == composite_of(
            flatten_views(simplified_children(views_of(children@), rest), sequence),
            sequence,
            rest,
        ),
    decreases children, 1nat,
{
    let ghost ch = views_of(children@);
    let n = children.len();
    let mut simplified: Vec<BtShape> = Vec::new();
    for i in 0..n
        invariant
            n == children@.len(),
            ch == views_of(children@),
            simplified@.len() == i,
            forall|j: int| 0 <= j < i ==> #[trigger] view_of(simplified@[j]) == simplify_view(ch[j], rest),
    {
        proof {
            assert(decreases_to!(children => children@[i as int]));
        }
        let c = simplify(&children[i], rest);
        simplified.push(c);
    }
    let ghost sv = views_of(simplified@);
    proof {
        assert forall|j: int| 0 <= j < sv.len() implies sv[j] == simplified_children(ch, rest)[j] by {
            assert(view_of(simplified@[j]) == simplify_view(ch[j], rest));
        }
        assert(sv =~= simplified_children(ch, rest));
    }
    let mut flat = flatten_children(simplified, sequence);
    let m = flat.len();
    if m == 0 {
        BtShape::Leaf(rest)
    } else if m == 1 {
        let only = flat.remove(0);
        only
    } else if sequence {
        let r = BtShape::Sequence(flat);
        r
    } else {
        let r = BtShape::Selector(flat);
        r
    }
}

/// Simplify a tree by removing redundant structure (see `simplify_view`);
/// `rest` is the leaf that stands for an empty composite.
pub fn simplify(node: &BtShape, rest: usize) -> (r: BtShape)
    ensures
        view_of(r) == simplify_view(view_of(*node), rest),
    decreases node, 0nat,
{
    match node {
        BtShape::Sequence(children) => {
            proof {
                assert(decreases_to!(*node => *children));
            }
            simplify_composite(children, true, rest)
        },
        BtShape::Selector(children) => {
            proof {
                assert(decreases_to!(*node => *children));
            }
            simplify_composite(children, false, rest)
        },
        BtShape::Inverter(child) => {
            let sc = simplify(child, rest);
            match sc {
                BtShape::Inverter(inner) => *inner,
                other => BtShape::Inverter(Box::new(other)),
            }
        },
        BtShape::AlwaysSucceed(child) => {
            let sc = simplify(child, rest);
            match sc {
                BtShape::AlwaysSucceed(inner) => BtShape::AlwaysSucceed(inner),
                other => BtShape::AlwaysSucceed(Box::new(other)),
            }
        },
        BtShape::Leaf(i) => BtShape::Leaf(*i),
    }
}


// ---------------------------------------------------------------------------
// Simplified form
// ---------------------------------------------------------------------------

/// Whether a tree is a composite of the kind that flattening splices
/// (sequences when `sequences`, else selectors).
pub open spec fn is_kind(v: BtView, sequences: bool) -> bool {
    if sequences {
        v is Sequence
    } else {
        v is Selector
    }
}

/// A tree in simplified form: composites have at least two children, none
/// of the composite's own kind; no inverter directly under an inverter and
/// no AlwaysSucceed directly under an AlwaysSucceed.
pub open spec fn is_simple(v: BtView) -> bool
    decreases v, 0nat,
{
    match v {
        BtView::Sequence(ch) => ch.len() >= 2 && simple_children(ch, 0, true),
        BtView::Selector(ch) => ch.len() >= 2 && simple_children(ch, 0, false),
        BtView::Inverter(c) => !(*c is Inverter) && is_simple(*c),
        BtView::AlwaysSucceed(c) => !(*c is AlwaysSucceed) && is_simple(*c),
        BtView::Leaf(_) => true,
    }
}

/// The children from `i` on are simple and none is of the kind `sequences`.
pub open spec fn simple_children(ch: Seq<BtView>, i: int, sequences: bool) -> bool
    decreases ch, ch.len() - i,
{
    if 0 <= i < ch.len() {
        is_simple(ch[i]) && !is_kind(ch[i], sequences) && simple_children(ch, i + 1, sequences)
    } else {
        true
    }
}

proof fn lemma_simple_children_pointwise(ch: Seq<BtView>, i: int, sequences: bool)
    requires
        0 <= i <= ch.len(),
    ensures
        simple_children(ch, i, sequences) <==> forall|j: int|
            i <= j < ch.len() ==> is_simple(#[trigger] ch[j]) && !is_kind(ch[j], sequences),
    decreases ch.len() - i,
{
    if i < ch.len() {
        lemma_simple_children_pointwise(ch, i + 1, sequences);
    }
}

proof fn lemma_flatten_simple(s: Seq<BtView>, sequences: bool)
    requires
        forall|j: int| 0 <= j < s.len() ==> is_simple(#[trigger] s[j]),
    ensures
        forall|j: int|
            0 <= j < flatten_views(s, sequences).len() ==> is_simple(#[trigger] flatten_views(s, sequences)[j])
                && !is_kind(flatten_views(s, sequences)[j], sequences),
    decreases s.len(),
{
    if s.len() > 0 {
        let init = s.drop_last();
        assert forall|j: int| 0 <= j < init.len() implies is_simple(#[trigger] init[j]) by {
            assert(init[j] == s[j]);
        }
        lemma_flatten_simple(init, sequences);
        let prev = flatten_views(init, sequences);
        let last = s.last();
        assert(is_simple(s[s.len() - 1]));
        let f = flatten_views(s, sequences);
        match last {
            BtView::Sequence(inner) => {
                if sequences {
                    lemma_simple_children_pointwise(inner, 0, true);
                    assert forall|j: int| 0 <= j < f.len() implies is_simple(#[trigger] f[j]) && !is_kind(f[j], sequences) by {
                        if j < prev.len() {
                            assert(f[j] == prev[j]);
                        } else {
                            assert(f[j] == inner[j - prev.len()]);
                        }
                    }
                } else {
                    assert forall|j: int| 0 <= j < f.len() implies is_simple(#[trigger] f[j]) && !is_kind(f[j], sequences) by {
                        if j < prev.len() {
                            assert(f[j] == prev[j]);
                        }
                    }
                }
            },
            BtView::Selector(inner) => {
                if !sequences {
                    lemma_simple_children_pointwise(inner, 0, false);
                    assert forall|j: int| 0 <= j < f.len() implies is_simple(#[trigger] f[j]) && !is_kind(f[j], sequences) by {
                        if j < prev.len() {
                            assert(f[j] == prev[j]);
                        } else {
                            assert(f[j] == inner[j - prev.len()]);
                        }
                    }
                } else {
                    assert forall|j: int| 0 <= j < f.len() implies is_simple(#[trigger] f[j]) && !is_kind(f[j], sequences) by {
                        if j < prev.len() {
                            assert(f[j] == prev[j]);
                        }
                    }
                }
            },
            _ => {
                assert forall|j: int| 0 <= j < f.len() implies is_simple(#[trigger] f[j]) && !is_kind(f[j], sequences) by {
                    if j < prev.len() {
                        assert(f[j] == prev[j]);
                    }
                }
            },
        }
    }
}

proof fn lemma_flatten_id(s: Seq<BtView>, sequences: bool)
    requires
        forall|j: int| 0 <= j < s.len() ==> !is_kind(#[trigger] s[j], sequences),
    ensures
        flatten_views(s, sequences) == s,
    decreases s.len(),
{
    if s.len() > 0 {
        let init = s.drop_last();
        assert forall|j: int| 0 <= j < init.len() implies !is_kind(#[trigger] init[j], sequences) by {
            assert(init[j] == s[j]);
        }
        lemma_flatten_id(init, sequences);
        assert(!is_kind(s[s.len() - 1], sequences));
        assert(init.push(s.last()) =~= s);
    }
}

proof fn lemma_simplify_is_simple(v: BtView, rest: usize)
    ensures
        is_simple(simplify_view(v, rest)),
    decreases v,
{
    match v {
        BtView::Sequence(ch) => lemma_composite_simple(ch, true, rest),
        BtView::Selector(ch) => lemma_composite_simple(ch, false, rest),
        BtView::Inverter(c) => lemma_simplify_is_simple(*c, rest),
        BtView::AlwaysSucceed(c) => lemma_simplify_is_simple(*c, rest),
        BtView::Leaf(_) => {},
    }
}

proof fn lemma_composite_simple(ch: Seq<BtView>, sequence: bool, rest: usize)
    ensures
        is_simple(composite_of(flatten_views(simplified_children(ch, rest), sequence), sequence, rest)),
    decreases ch,
{
    let sc = simplified_children(ch, rest);
    assert forall|j: int| 0 <= j < sc.len() implies is_simple(#[trigger] sc[j]) by {
        lemma_simplify_is_simple(ch[j], rest);
    }
    lemma_flatten_simple(sc, sequence);
    let f = flatten_views(sc, sequence);
    if f.len() >= 2 {
        lemma_simple_children_pointwise(f, 0, sequence);
    } else if f.len() == 1 {
        assert(is_simple(f[0]));
    }
}

proof fn lemma_simple_fixed(v: BtView, rest: usize)
    requires
        is_simple(v),
    ensures
        simplify_view(v, rest) == v,
    decreases v,
{
    match v {
        BtView::Sequence(ch) => lemma_composite_fixed(ch, true, rest),
        BtView::Selector(ch) => lemma_composite_fixed(ch, false, rest),
        BtView::Inverter(c) => lemma_simple_fixed(*c, rest),
        BtView::AlwaysSucceed(c) => lemma_simple_fixed(*c, rest),
        BtView::Leaf(_) => {},
    }
}

proof fn lemma_composite_fixed(ch: Seq<BtView>, sequence: bool, rest: usize)
    requires
        ch.len() >= 2,
        simple_children(ch, 0, sequence),
    ensures
        composite_of(flatten_views(simplified_children(ch, rest), sequence), sequence, rest) == (if sequence {
            BtView::Sequence(ch)
        } else {
            BtView::Selector(ch)
        }),
    decreases ch,
{
    lemma_simple_children_pointwise(ch, 0, sequence);
    let sc = simplified_children(ch, rest);
    assert forall|j: int| 0 <= j < sc.len() implies sc[j] == ch[j] by {
        lemma_simple_fixed(ch[j], rest);
    }
    assert(sc =~= ch);
    lemma_flatten_id(ch, sequence);
}

/// Law: simplification is idempotent: a simplified tree is in simplified
/// form, and simplifying it again leaves it as it is.
pub proof fn law_simplify_idempotent(v: BtView, rest: usize)
    ensures
        is_simple(simplify_view(v, rest)),
        simplify_view(simplify_view(v, rest), rest) == simplify_view(v, rest),
{
    lemma_simplify_is_simple(v, rest);
    lemma_simple_fixed(simplify_view(v, rest), rest);
}

// ---------------------------------------------------------------------------
// What simplification keeps
// ---------------------------------------------------------------------------

/// The status of ticking a tree value.
pub open spec fn view_status(v: BtView, leaves: Seq<LeafOutcome>) -> BtStatus
    decreases v, 0nat,
{
    match v {
        BtView::Sequence(ch) => seq_status(ch, 0, leaves),
        BtView::Selector(ch) => sel_status(ch, 0, leaves),
        BtView::Inverter(c) => inverted(view_status(*c, leaves)),
        BtView::AlwaysSucceed(_) => BtStatus::Success,
        BtView::Leaf(i) => leaves[i as int].status,
    }
}

/// The status of a sequence from child `i` on: the first child that does
/// not succeed decides; success when all succeed.
pub open spec fn seq_status(ch: Seq<BtView>, i: int, leaves: Seq<LeafOutcome>) -> BtStatus
    decreases ch, ch.len() - i,
{
    if 0 <= i < ch.len() {
        let s = view_status(ch[i], leaves);
        if s == BtStatus::Success {
            seq_status(ch, i + 1, leaves)
        } else {
            s
        }
    } else {
        BtStatus::Success
    }
}

/// The status of a selector from child `i` on: the first child that does
/// not fail decides; failure when all fail.
pub open spec fn sel_status(ch: Seq<BtView>, i: int, leaves: Seq<LeafOutcome>) -> BtStatus
    decreases ch, ch.len() - i,
{
    if 0 <= i < ch.len() {
        let s = view_status(ch[i], leaves);
        if s == BtStatus::Failure {
            sel_status(ch, i + 1, leaves)
        } else {
            s
        }
    } else {
        BtStatus::Failure
    }
}

/// The status part of ticking a tree is the status of its value.
proof fn lemma_tick_status(node: BtShape, leaves: Seq<LeafOutcome>)
    ensures
        tick_result(node, leaves).0 == view_status(view_of(node), leaves),
    decreases node, 0nat,
{
    match node {
        BtShape::Sequence(ch) => lemma_sequence_status(ch@, 0, None, leaves),
        BtShape::Selector(ch) => lemma_selector_status(ch@, 0, leaves),
        BtShape::Inverter(c) => lemma_tick_status(*c, leaves),
        BtShape::AlwaysSucceed(c) => {},
        BtShape::Leaf(i) => {},
    }
}

proof fn lemma_sequence_status(ch: Seq<BtShape>, i: int, last: Option<usize>, leaves: Seq<LeafOutcome>)
    requires
        0 <= i,
    ensures
        sequence_result(ch, i, last, leaves).0 == seq_status(views_of(ch), i, leaves),
    decreases ch, ch.len() - i,
{
    if i < ch.len() {
        lemma_tick_status(ch[i], leaves);
        assert(views_of(ch)[i] == view_of(ch[i]));
        let r = tick_result(ch[i], leaves);
        let latest = if r.1 is Some {
            r.1
        } else {
            last
        };
        lemma_sequence_status(ch, i + 1, latest, leaves);
    }
}

proof fn lemma_selector_status(ch: Seq<BtShape>, i: int, leaves: Seq<LeafOutcome>)
    requires
        0 <= i,
    ensures
        selector_result(ch, i, leaves).0 == sel_status(views_of(ch), i, leaves),
    decreases ch, ch.len() - i,
{
    if i < ch.len() {
        lemma_tick_status(ch[i], leaves);
        assert(views_of(ch)[i] == view_of(ch[i]));
        lemma_selector_status(ch, i + 1, leaves);
    }
}

/// How a sequence (`sequences`) or selector status continues past a child:
/// a sequence goes on after success, a selector after failure.
pub open spec fn goes_on(s: BtStatus, sequences: bool) -> bool {
    if sequences {
        s == BtStatus::Success
    } else {
        s == BtStatus::Failure
    }
}

/// The status of a sequence or selector of `ch` from `i` on.
pub open spec fn list_status(ch: Seq<BtView>, i: int, sequences: bool, leaves: Seq<LeafOutcome>) -> BtStatus {
    if sequences {
        seq_status(ch, i, leaves)
    } else {
        sel_status(ch, i, leaves)
    }
}

/// The status of a list from `i` on: its first child's status when that
/// one decides, else the rest's.
proof fn lemma_list_status_step(ch: Seq<BtView>, i: int, sequences: bool, leaves: Seq<LeafOutcome>)
    requires
        0 <= i < ch.len(),
    ensures
        list_status(ch, i, sequences, leaves) == if goes_on(view_status(ch[i], leaves), sequences) {
            list_status(ch, i + 1, sequences, leaves)
        } else {
            view_status(ch[i], leaves)
        },
{
}

/// The status of a list from `i` on depends only on the statuses of its
/// children from `i` on.
proof fn lemma_list_status_suffix(a: Seq<BtView>, i: int, b: Seq<BtView>, j: int, sequences: bool, leaves: Seq<LeafOutcome>)
    requires
        0 <= i <= a.len(),
        0 <= j <= b.len(),
        a.len() - i == b.len() - j,
        forall|k: int| 0 <= k < a.len() - i ==> view_status(#[trigger] a[i + k], leaves) == view_status(b[j + k], leaves),
    ensures
        list_status(a, i, sequences, leaves) == list_status(b, j, sequences, leaves),
    decreases a.len() - i,
{
    if i < a.len() {
        assert(view_status(a[i + 0], leaves) == view_status(b[j + 0], leaves));
        assert forall|k: int| 0 <= k < a.len() - (i + 1) implies view_status(#[trigger] a[(i + 1) + k], leaves)
            == view_status(b[(j + 1) + k], leaves) by {
            assert(view_status(a[i + (k + 1)], leaves) == view_status(b[j + (k + 1)], leaves));
        }
        lemma_list_status_suffix(a, i + 1, b, j + 1, sequences, leaves);
        lemma_list_status_step(a, i, sequences, leaves);
        lemma_list_status_step(b, j, sequences, leaves);
    }
}

/// The status of a concatenation: the first part's when it decides, else
/// the second part's.
proof fn lemma_list_status_concat(a: Seq<BtView>, b: Seq<BtView>, i: int, sequences: bool, leaves: Seq<LeafOutcome>)
    requires
        0 <= i <= a.len(),
    ensures
        list_status(a + b, i, sequences, leaves) == if goes_on(list_status(a, i, sequences, leaves), sequences) {
            list_status(b, 0, sequences, leaves)
        } else {
            list_status(a, i, sequences, leaves)
        },
    decreases a.len() - i,
{
    if i < a.len() {
        lemma_list_status_concat(a, b, i + 1, sequences, leaves);
        assert((a + b)[i] == a[i]);
        lemma_list_status_step(a + b, i, sequences, leaves);
        lemma_list_status_step(a, i, sequences, leaves);
    } else {
        lemma_list_status_suffix(a + b, i, b, 0, sequences, leaves);
    }
}

/// The status of a one-child list is that child's.
proof fn lemma_list_status_single(x: BtView, sequences: bool, leaves: Seq<LeafOutcome>)
    ensures
        list_status(seq![x], 0, sequences, leaves) == view_status(x, leaves),
{
    lemma_list_status_step(seq![x], 0, sequences, leaves);
}

/// A composite's status is its list status.
proof fn lemma_composite_status(ch: Seq<BtView>, sequences: bool, leaves: Seq<LeafOutcome>)
    ensures
        view_status(if sequences { BtView::Sequence(ch) } else { BtView::Selector(ch) }, leaves)
            == list_status(ch, 0, sequences, leaves),
{
}

/// Flattening keeps the status of a list.
proof fn lemma_flatten_status(s: Seq<BtView>, sequences: bool, leaves: Seq<LeafOutcome>)
    ensures
        list_status(flatten_views(s, sequences), 0, sequences, leaves) == list_status(s, 0, sequences, leaves),
    decreases s.len(),
{
    if s.len() > 0 {
        let init = s.drop_last();
        let last = s.last();
        lemma_flatten_status(init, sequences, leaves);
        let prev = flatten_views(init, sequences);
        assert(s =~= init + seq![last]);
        lemma_list_status_concat(init, seq![last], 0, sequences, leaves);
        lemma_list_status_single(last, sequences, leaves);
        match last {
            BtView::Sequence(inner) => {
                if sequences {
                    lemma_list_status_concat(prev, inner, 0, sequences, leaves);
                } else {
                    assert(prev.push(last) =~= prev + seq![last]);
                    lemma_list_status_concat(prev, seq![last], 0, sequences, leaves);
                }
            },
            BtView::Selector(inner) => {
                if !sequences {
                    lemma_list_status_concat(prev, inner, 0, sequences, leaves);
                } else {
                    assert(prev.push(last) =~= prev + seq![last]);
                    lemma_list_status_concat(prev, seq![last], 0, sequences, leaves);
                }
            },
            _ => {
                assert(prev.push(last) =~= prev + seq![last]);
                lemma_list_status_concat(prev, seq![last], 0, sequences, leaves);
            },
        }
    }
}

/// Every composite of a tree value has at least one child.
pub open spec fn view_nonempty(v: BtView) -> bool
    decreases v, 0nat,
{
    match v {
        BtView::Sequence(ch) => ch.len() > 0 && views_nonempty_from(ch, 0),
        BtView::Selector(ch) => ch.len() > 0 && views_nonempty_from(ch, 0),
        BtView::Inverter(c) => view_nonempty(*c),
        BtView::AlwaysSucceed(c) => view_nonempty(*c),
        BtView::Leaf(_) => true,
    }
}

/// Every composite in the children from `i` on has a child.
pub open spec fn views_nonempty_from(ch: Seq<BtView>, i: int) -> bool
    decreases ch, ch.len() - i,
{
    if 0 <= i < ch.len() {
        view_nonempty(ch[i]) && views_nonempty_from(ch, i + 1)
    } else {
        true
    }
}

proof fn lemma_nonempty_view(node: BtShape)
    requires
        composites_nonempty(node),
    ensures
        view_nonempty(view_of(node)),
    decreases node, 0nat,
{
    match node {
        BtShape::Sequence(ch) => lemma_nonempty_views(ch@, 0),
        BtShape::Selector(ch) => lemma_nonempty_views(ch@, 0),
        BtShape::Inverter(c) => lemma_nonempty_view(*c),
        BtShape::AlwaysSucceed(c) => lemma_nonempty_view(*c),
        BtShape::Leaf(_) => {},
    }
}

proof fn lemma_nonempty_views(ch: Seq<BtShape>, i: int)
    requires
        0 <= i,
        all_nonempty_from(ch, i),
    ensures
        views_nonempty_from(views_of(ch), i),
    decreases ch, ch.len() - i,
{
    if i < ch.len() {
        lemma_nonempty_view(ch[i]);
        assert(views_of(ch)[i] == view_of(ch[i]));
        lemma_nonempty_views(ch, i + 1);
    }
}

proof fn lemma_views_nonempty_at(ch: Seq<BtView>, i: int, j: int)
    requires
        0 <= i <= j < ch.len(),
        views_nonempty_from(ch, i),
    ensures
        view_nonempty(ch[j]),
    decreases j - i,
{
    if i < j {
        lemma_views_nonempty_at(ch, i + 1, j);
    }
}

/// A flattened list of simple trees is non-empty when the list is.
proof fn lemma_flatten_nonempty(s: Seq<BtView>, sequences: bool)
    requires
        s.len() > 0,
        forall|j: int| 0 <= j < s.len() ==> is_simple(#[trigger] s[j]),
    ensures
        flatten_views(s, sequences).len() > 0,
    decreases s.len(),
{
    assert(is_simple(s[s.len() - 1]));
}

/// Simplifying a tree whose composites all have children keeps its status,
/// whatever the leaves do.
proof fn lemma_simplify_status(v: BtView, rest: usize, leaves: Seq<LeafOutcome>)
    requires
        view_nonempty(v),
    ensures
        view_status(simplify_view(v, rest), leaves) == view_status(v, leaves),
    decreases v, 0nat,
{
    match v {
        BtView::Sequence(ch) => lemma_simplify_composite_status(ch, true, rest, leaves),
        BtView::Selector(ch) => lemma_simplify_composite_status(ch, false, rest, leaves),
        BtView::Inverter(c) => {
            lemma_simplify_status(*c, rest, leaves);
            match simplify_view(*c, rest) {
                BtView::Inverter(inner) => {
                    assert(view_status(simplify_view(*c, rest), leaves) == inverted(view_status(*inner, leaves)));
                },
                _ => {},
            }
        },
        BtView::AlwaysSucceed(c) => {},
        BtView::Leaf(_) => {},
    }
}

proof fn lemma_simplify_composite_status(ch: Seq<BtView>, sequences: bool, rest: usize, leaves: Seq<LeafOutcome>)
    requires
        ch.len() > 0,
        views_nonempty_from(ch, 0),
    ensures
        view_status(
            composite_of(flatten_views(simplified_children(ch, rest), sequences), sequences, rest),
            leaves,
        ) == list_status(ch, 0, sequences, leaves),
    decreases ch, 1nat,
{
    let sc = simplified_children(ch, rest);
    assert forall|k: int| 0 <= k < ch.len() - 0 implies view_status(#[trigger] sc[0 + k], leaves) == view_status(
        ch[0 + k],
        leaves,
    ) by {
        assert(decreases_to!(ch => ch[k]));
        lemma_views_nonempty_at(ch, 0, k);
        lemma_simplify_status(ch[k], rest, leaves);
    }
    lemma_list_status_suffix(sc, 0, ch, 0, sequences, leaves);
    lemma_flatten_status(sc, sequences, leaves);
    assert forall|j: int| 0 <= j < sc.len() implies is_simple(#[trigger] sc[j]) by {
        lemma_simplify_is_simple(ch[j], rest);
    }
    lemma_flatten_nonempty(sc, sequences);
    let f = flatten_views(sc, sequences);
    if f.len() == 1 {
        assert(f =~= seq![f[0]]);
        lemma_list_status_single(f[0], sequences, leaves);
    }
}

/// Law: simplification keeps what a tree does. For a tree whose composites
/// all have children, ticking the simplified tree gives the status that
/// ticking the tree gives, whatever the leaves do.
pub proof fn law_simplify_keeps_status(node: BtShape, simplified: BtShape, rest: usize, leaves: Seq<LeafOutcome>)
    requires
        composites_nonempty(node),
        view_of(simplified) == simplify_view(view_of(node), rest),
    ensures
        tick_result(simplified, leaves).0 == tick_result(node, leaves).0,
{
    lemma_nonempty_view(node);
    lemma_simplify_status(view_of(node), rest, leaves);
    lemma_tick_status(node, leaves);
    lemma_tick_status(simplified, leaves);
}

/// The number of nodes of a tree value.
pub open spec fn view_count(v: BtView) -> nat
    decreases v, 0nat,
{
    match v {
        BtView::Sequence(ch) => 1 + list_count(ch, 0),
        BtView::Selector(ch) => 1 + list_count(ch, 0),
        BtView::Inverter(c) => 1 + view_count(*c),
        BtView::AlwaysSucceed(c) => 1 + view_count(*c),
        BtView::Leaf(_) => 1,
    }
}

/// The number of nodes of the children from `i` on.
pub open spec fn list_count(ch: Seq<BtView>, i: int) -> nat
    decreases ch, ch.len() - i,
{
    if 0 <= i < ch.len() {
        view_count(ch[i]) + list_count(ch, i + 1)
    } else {
        0
    }
}

/// The depth of a tree value: 1 for a leaf.
pub open spec fn view_depth(v: BtView) -> nat
    decreases v, 0nat,
{
    match v {
        BtView::Sequence(ch) => 1 + list_depth(ch, 0),
        BtView::Selector(ch) => 1 + list_depth(ch, 0),
        BtView::Inverter(c) => 1 + view_depth(*c),
        BtView::AlwaysSucceed(c) => 1 + view_depth(*c),
        BtView::Leaf(_) => 1,
    }
}

/// The greatest depth of the children from `i` on (0 if none).
pub open spec fn list_depth(ch: Seq<BtView>, i: int) -> nat
    decreases ch, ch.len() - i,
{
    if 0 <= i < ch.len() {
        let d = view_depth(ch[i]);
        let r = list_depth(ch, i + 1);
        if d >= r {
            d
        } else {
            r
        }
    } else {
        0
    }
}

/// Counting and measuring the depth of a tree is the same on its value.
proof fn lemma_measures_of_view(node: BtShape)
    ensures
        count_nodes(node) == view_count(view_of(node)),
        tree_depth(node) == view_depth(view_of(node)),
    decreases node, 0nat,
{
    match node {
        BtShape::Sequence(ch) => lemma_measures_of_views(ch@, 0),
        BtShape::Selector(ch) => lemma_measures_of_views(ch@, 0),
        BtShape::Inverter(c) => lemma_measures_of_view(*c),
        BtShape::AlwaysSucceed(c) => lemma_measures_of_view(*c),
        BtShape::Leaf(_) => {},
    }
}

proof fn lemma_measures_of_views(ch: Seq<BtShape>, i: int)
    requires
        0 <= i,
    ensures
        count_from(ch, i) == list_count(views_of(ch), i),
        depth_from(ch, i) == list_depth(views_of(ch), i),
    decreases ch, ch.len() - i,
{
    if i < ch.len() {
        lemma_measures_of_view(ch[i]);
        assert(views_of(ch)[i] == view_of(ch[i]));
        lemma_measures_of_views(ch, i + 1);
    }
}

/// Children that are each no larger and no deeper give a list that is no
/// larger and no deeper.
proof fn lemma_list_measures_le(a: Seq<BtView>, b: Seq<BtView>, i: int)
    requires
        0 <= i <= a.len(),
        a.len() == b.len(),
        forall|k: int| i <= k < a.len() ==> view_count(#[trigger] a[k]) <= view_count(b[k]) && view_depth(a[k])
            <= view_depth(b[k]),
    ensures
        list_count(a, i) <= list_count(b, i),
        list_depth(a, i) <= list_depth(b, i),
    decreases a.len() - i,
{
    if i < a.len() {
        lemma_list_measures_le(a, b, i + 1);
        assert(view_count(a[i]) <= view_count(b[i]));
    }
}

/// The measures of a list from `i` on are those of its suffix.
proof fn lemma_list_measures_shift(a: Seq<BtView>, i: int, b: Seq<BtView>, j: int)
    requires
        0 <= i <= a.len(),
        0 <= j <= b.len(),
        a.len() - i == b.len() - j,
        forall|k: int| 0 <= k < a.len() - i ==> #[trigger] a[i + k] == b[j + k],
    ensures
        list_count(a, i) == list_count(b, j),
        list_depth(a, i) == list_depth(b, j),
    decreases a.len() - i,
{
    if i < a.len() {
        assert(a[i + 0] == b[j + 0]);
        assert forall|k: int| 0 <= k < a.len() - (i + 1) implies #[trigger] a[(i + 1) + k] == b[(j + 1) + k] by {
            assert(a[i + (k + 1)] == b[j + (k + 1)]);
        }
        lemma_list_measures_shift(a, i + 1, b, j + 1);
    }
}

/// The measures of a concatenation: counts add, depths take the larger.
proof fn lemma_list_measures_concat(a: Seq<BtView>, b: Seq<BtView>, i: int)
    requires
        0 <= i <= a.len(),
    ensures
        list_count(a + b, i) == list_count(a, i) + list_count(b, 0),
        list_depth(a + b, i) == if list_depth(a, i) >= list_depth(b, 0) {
            list_depth(a, i)
        } else {
            list_depth(b, 0)
        },
    decreases a.len() - i,
{
    if i < a.len() {
        lemma_list_measures_concat(a, b, i + 1);
        assert((a + b)[i] == a[i]);
    } else {
        assert forall|k: int| 0 <= k < (a + b).len() - i implies #[trigger] (a + b)[i + k] == b[0 + k] by {}
        lemma_list_measures_shift(a + b, i, b, 0);
    }
}

/// The measures of a one-child list are that child's.
proof fn lemma_list_measures_single(x: BtView)
    ensures
        list_count(seq![x], 0) == view_count(x),
        list_depth(seq![x], 0) == view_depth(x),
{
    assert(list_count(seq![x], 1) == 0);
    assert(list_depth(seq![x], 1) == 0);
}

/// Flattening a list makes it no larger and no deeper.
proof fn lemma_flatten_measures(s: Seq<BtView>, sequences: bool)
    ensures
        list_count(flatten_views(s, sequences), 0) <= list_count(s, 0),
        list_depth(flatten_views(s, sequences), 0) <= list_depth(s, 0),
    decreases s.len(),
{
    if s.len() > 0 {
        let init = s.drop_last();
        let last = s.last();
        lemma_flatten_measures(init, sequences);
        let prev = flatten_views(init, sequences);
        assert(s =~= init + seq![last]);
        lemma_list_measures_concat(init, seq![last], 0);
        lemma_list_measures_single(last);
        assert(prev.push(last) =~= prev + seq![last]);
        lemma_list_measures_concat(prev, seq![last], 0);
        match last {
            BtView::Sequence(inner) => {
                lemma_list_measures_concat(prev, inner, 0);
            },
            BtView::Selector(inner) => {
                lemma_list_measures_concat(prev, inner, 0);
            },
            _ => {},
        }
    }
}

/// Simplifying a tree value makes it no larger and no deeper.
proof fn lemma_simplify_measures(v: BtView, rest: usize)
    ensures
        view_count(simplify_view(v, rest)) <= view_count(v),
        view_depth(simplify_view(v, rest)) <= view_depth(v),
    decreases v, 0nat,
{
    match v {
        BtView::Sequence(ch) => lemma_simplify_composite_measures(ch, true, rest),
        BtView::Selector(ch) => lemma_simplify_composite_measures(ch, false, rest),
        BtView::Inverter(c) => lemma_simplify_measures(*c, rest),
        BtView::AlwaysSucceed(c) => lemma_simplify_measures(*c, rest),
        BtView::Leaf(_) => {},
    }
}

proof fn lemma_simplify_composite_measures(ch: Seq<BtView>, sequences: bool, rest: usize)
    ensures
        view_count(composite_of(flatten_views(simplified_children(ch, rest), sequences), sequences, rest))
            <= 1 + list_count(ch, 0),
        view_depth(composite_of(flatten_views(simplified_children(ch, rest), sequences), sequences, rest))
            <= 1 + list_depth(ch, 0),
    decreases ch, 1nat,
{
    let sc = simplified_children(ch, rest);
    assert forall|k: int| 0 <= k < sc.len() implies view_count(#[trigger] sc[k]) <= view_count(ch[k])
        && view_depth(sc[k]) <= view_depth(ch[k]) by {
        assert(decreases_to!(ch => ch[k]));
        lemma_simplify_measures(ch[k], rest);
    }
    lemma_list_measures_le(sc, ch, 0);
    lemma_flatten_measures(sc, sequences);
    let f = flatten_views(sc, sequences);
    if f.len() == 1 {
        assert(f =~= seq![f[0]]);
        lemma_list_measures_single(f[0]);
    }
}

/// Law: simplification never makes a tree larger or deeper.
pub proof fn law_simplify_shrinks(node: BtShape, simplified: BtShape, rest: usize)
    requires
        view_of(simplified) == simplify_view(view_of(node), rest),
    ensures
        count_nodes(simplified) <= count_nodes(node),
        tree_depth(simplified) <= tree_depth(node),
{
    lemma_measures_of_view(node);
    lemma_measures_of_view(simplified);
    lemma_simplify_measures(view_of(node), rest);
}

} // verus!
